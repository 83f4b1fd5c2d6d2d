use wondfs::buf::BufCache;
use wondfs::error::FlashError;
use wondfs::util::array::Array1;
use wondfs::util::lru_cache::LRUCache;

#[test]
fn lru_gives_up_the_least_recently_used() {
    let mut cache: LRUCache<u8> = LRUCache::new(3);
    cache.put(1, 10);
    cache.put(2, 20);
    cache.put(3, 30);
    assert_eq!(cache.get(1), Some(10));
    cache.put(4, 40);
    assert_eq!(cache.get(2), None);
    assert_eq!(cache.get(1), Some(10));
    assert_eq!(cache.get(3), Some(30));
    assert_eq!(cache.get(4), Some(40));
    cache.put(3, 31);
    assert_eq!(cache.get(3), Some(31));
    cache.remove(1);
    assert_eq!(cache.get(1), None);
    cache.remove(1);
    cache.put(5, 50);
    cache.put(6, 60);
    assert_eq!(cache.get(4), None);
    assert_eq!(cache.get(3), Some(31));
}

#[test]
fn read_fills_the_cache_with_the_whole_block() {
    let mut cache = BufCache::new();
    cache.init();
    for i in 0..32u32 {
        cache.translation_layer.write(128 + i, [(i + 1) as u8; 4096]).unwrap();
    }
    assert_eq!(cache.get_data(130), None);
    assert_eq!(cache.read(0, 130).unwrap(), [3; 4096]);
    // every page of block 1 is cached under its own address
    for i in 0..32u32 {
        assert_eq!(cache.get_data(128 + i), Some([(i + 1) as u8; 4096]));
    }
    assert_eq!(cache.get_data(128 + 100), Some([0; 4096]));
    assert_eq!(cache.get_data(127), None);
    assert_eq!(cache.get_data(256), None);
}

#[test]
fn cached_page_is_handed_out_as_it_is() {
    let mut cache = BufCache::new();
    cache.put_data(5, [9; 4096]);
    // nothing of the kind is on the medium or pending
    assert_eq!(cache.read(0, 5).unwrap(), [9; 4096]);
    assert_eq!(cache.translation_layer.read(0).unwrap().get(5), [0; 4096]);
}

#[test]
fn cache_write_and_direct_write() {
    let mut cache = BufCache::new();
    cache.write(0, 7, [1; 4096]).unwrap();
    assert!(cache.translation_layer.is_pending(7));
    assert_eq!(cache.get_data(7), Some([1; 4096]));

    let mut block: Array1<[u8; 4096]> = Array1::new(128);
    block.init([6; 4096]);
    block.set(127, [8; 4096]);
    cache.write_block_driect(0, 2, block).unwrap();
    assert_eq!(cache.get_data(2 * 128), Some([6; 4096]));
    assert_eq!(cache.get_data(2 * 128 + 127), Some([8; 4096]));
    assert_eq!(cache.translation_layer.page_on_medium(2 * 128 + 127), [8; 4096]);
    assert_eq!(cache.translation_layer.sign_block_offset(), 128);

    cache.erase(0, 2);
    assert_eq!(cache.get_data(2 * 128 + 127), None);
    assert_eq!(cache.read(0, 2 * 128 + 127).unwrap(), [0; 4096]);
    // block 0 was not touched
    assert_eq!(cache.read(0, 7).unwrap(), [1; 4096]);
}

#[test]
fn refused_write_leaves_the_cache_alone() {
    let mut cache = BufCache::new();
    // the reserved region is 28..=29: no block is spare for the roll-over
    cache.translation_layer.set_max_block_no(29);
    for _ in 0..127u32 {
        for i in 0..32u32 {
            cache.write(0, i, [1; 4096]).unwrap();
        }
        cache.erase(0, 0);
    }
    for i in 0..31u32 {
        cache.write(0, i, [1; 4096]).unwrap();
    }
    assert_eq!(cache.get_data(31), None);
    assert_eq!(cache.write(0, 31, [1; 4096]), Err(FlashError::NoSpareBlock));
    assert_eq!(cache.get_data(31), None);
    assert_eq!(cache.get_data(30), Some([1; 4096]));
    assert_eq!(cache.translation_layer.pending_len(), 31);
}
