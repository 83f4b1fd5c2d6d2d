use wondfs::driver::disk_manager::DiskManager;
use wondfs::driver::fake_disk::FakeDisk;
use wondfs::error::FlashError;
use wondfs::tl::check_center::{CheckCenter, CheckType};
use wondfs::tl::region::{MapDataRegion, SignDataRegion};
use wondfs::tl::tl::TranslationLayer;
use wondfs::tl::tl_helper::{judge_block_type, reverse, transfer, BlockType};
use wondfs::util::array::Array1;
use wondfs::util::crc32::checksum;
use wondfs::util::page::{from_be_bytes, page_is_zero, to_be_bytes};
use wondfs::write_buf::{WriteBuf, WriteCache};

/// A time long after the epoch, in seconds.
const NOON: u64 = 1_700_000_000;

fn pattern(seed: u32) -> [u8; 4096] {
    let mut page = [0u8; 4096];
    let mut x = seed.wrapping_mul(2654435761).wrapping_add(12345);
    for b in page.iter_mut() {
        x = x.wrapping_mul(1664525).wrapping_add(1013904223);
        *b = (x >> 24) as u8;
    }
    page[0] = 0xA5;
    page
}

fn written_pages(tl: &TranslationLayer) -> Vec<u32> {
    let mut found = Vec::new();
    for address in 0..32 * 128 {
        if !page_is_zero(&tl.page_on_medium(address)) {
            found.push(address);
        }
    }
    found
}

#[test]
fn crc32c_check_value() {
    assert_eq!(checksum(b"123456789"), 0xE306_9283);
    assert_eq!(checksum(b""), 0);
    assert_eq!(checksum(&[0u8; 32]), 0x8A91_36AA);
}

#[test]
fn big_endian_bytes() {
    assert_eq!(to_be_bytes(0x1234_5678), (0x12, 0x34, 0x56, 0x78));
    assert_eq!(from_be_bytes(0x12, 0x34, 0x56, 0x78), 0x1234_5678);
    assert_eq!(from_be_bytes(0, 0, 1, 127), 383);
    assert!(page_is_zero(&[0; 4096]));
    assert!(!page_is_zero(&pattern(1)));
}

#[test]
fn signature_layout() {
    let data = pattern(9);
    let sa = CheckCenter::sign(&data, 0x0102_0304, CheckType::Crc32).unwrap();
    assert_eq!(sa.len(), 128);
    let crc = checksum(&data);
    assert_eq!(&sa[0..4], &crc.to_be_bytes()[..]);
    assert!(sa[4..119].iter().all(|b| *b == 0));
    assert_eq!(&sa[119..123], &[0x33, 0x33, 0xAA, 0xAA][..]);
    assert_eq!(&sa[123..127], &[1, 2, 3, 4][..]);
    assert_eq!(sa[127], 0);
}

#[test]
fn sign_then_extract_round_trip() {
    let data = pattern(2);
    for lpa in [0u32, 1, 127, 128, 383, 0xFFFF, 0x8000_0000, u32::MAX] {
        let sa = CheckCenter::sign(&data, lpa, CheckType::Crc32).unwrap();
        assert_eq!(CheckCenter::extract_address(&sa), lpa);
    }
}

#[test]
fn check_detects_a_changed_page() {
    let data = pattern(3);
    let sa = CheckCenter::sign(&data, 77, CheckType::Crc32).unwrap();
    let mut other = data;
    other[4000] ^= 1;
    assert_eq!(CheckCenter::check(&other, &sa), Ok((false, CheckType::Crc32, None)));
    assert_eq!(CheckCenter::check(&data, &sa), Ok((true, CheckType::Crc32, None)));
}

#[test]
fn ecc_is_not_built() {
    let data = pattern(4);
    assert_eq!(CheckCenter::sign(&data, 5, CheckType::Ecc), Err(FlashError::UnimplementedScheme));
    let mut sa = CheckCenter::sign(&data, 5, CheckType::Crc32).unwrap();
    sa[127] = 1;
    assert_eq!(CheckCenter::check(&data, &sa), Err(FlashError::UnimplementedScheme));
}

#[test]
fn write_cache_put_get_discard() {
    let mut cache = WriteCache::new();
    assert_eq!(cache.get_size(), 32);
    cache.write(10, [1; 4096]);
    cache.write(20, [2; 4096]);
    cache.write(10, [3; 4096]);
    assert!(cache.contains_address(10));
    assert!(!cache.contains_address(11));
    assert_eq!(cache.read(10), Some([3; 4096]));
    assert_eq!(cache.read(11), None);
    let all = cache.get_all();
    assert_eq!(all.len(), 2);
    assert_eq!(all[0], (10, [3; 4096]));
    assert_eq!(all[1], (20, [2; 4096]));
    cache.recall_write(10);
    assert!(!cache.contains_address(10));
    assert_eq!(cache.get_all(), vec![(20, [2; 4096])]);
    cache.recall_write(99);
    assert_eq!(cache.cache.len(), 1);
    assert!(!cache.need_sync());
    let buf = WriteBuf::new(5, [9; 4096]);
    assert_eq!(buf.address, 5);
    assert_eq!(buf.data, [9; 4096]);
}

#[test]
fn write_cache_flag_rises_with_the_32nd_address() {
    let mut cache = WriteCache::new();
    for i in 0..31 {
        cache.write(i, [0; 4096]);
    }
    assert!(!cache.need_sync());
    // an address that is pending already does not complete the batch
    cache.write(7, [1; 4096]);
    assert!(!cache.need_sync());
    assert_eq!(cache.cache.len(), 31);
    cache.write(31, [2; 4096]);
    assert!(cache.need_sync());
    assert_eq!(cache.cache.len(), 32);
    assert_eq!(cache.get_all()[7], (7, [1; 4096]));
    assert_eq!(cache.get_all()[31], (31, [2; 4096]));
}

#[test]
fn fake_disk_erase_is_idempotent() {
    let mut disk = FakeDisk::new(256);
    disk.fake_disk_write(130, [5; 4096]);
    assert!(!disk.page_is_clean(130));
    assert!(disk.page_is_clean(131));
    disk.fake_disk_erase(1);
    let once = disk.fake_disk_read(1);
    disk.fake_disk_erase(1);
    let twice = disk.fake_disk_read(1);
    assert!(once.iter().all(|p| *p == [0; 4096]));
    assert!(twice.iter().all(|p| *p == [0; 4096]));
    assert!(disk.page_is_clean(130));
}

#[test]
fn disk_manager_backends() {
    let manager = DiskManager::new(true);
    assert!(manager.is_virtual);
    assert!(manager.fake_disk.is_some());
    assert!(manager.driver.is_none());
    assert_eq!(manager.fake_disk.as_ref().unwrap().block_num, 32);
    assert!(manager.page_is_clean(4095));
    let other = DiskManager::new(false);
    assert!(!other.is_virtual);
    assert!(other.driver.is_some());
    assert!(other.fake_disk.is_none());
}

#[test]
fn array_helpers() {
    let mut a: Array1<u8> = Array1::new(4);
    assert_eq!(a.len(), 4);
    a.init(7);
    a.set(2, 9);
    assert_eq!(a.get(0), 7);
    assert_eq!(a.get(2), 9);
    let b = a.dup();
    a.set(0, 1);
    assert_eq!(b.get(0), 7);
    assert_eq!(b.len(), 4);

    let mut block = [[0u8; 4096]; 128];
    block[3] = pattern(3);
    let arr = transfer(&block);
    assert_eq!(arr.len(), 128);
    assert_eq!(arr.get(3), pattern(3));
    let back = reverse(&arr);
    assert_eq!(back[3], pattern(3));
    assert_eq!(back[4], [0; 4096]);
}

#[test]
fn block_types_by_marker() {
    let mut block = [[0u8; 4096]; 128];
    assert_eq!(judge_block_type(&transfer(&block)), BlockType::Unknown);
    block[0][119] = 0x33;
    block[0][120] = 0x33;
    block[0][121] = 0xAA;
    block[0][122] = 0xAA;
    assert_eq!(judge_block_type(&transfer(&block)), BlockType::Signature);
    block[0][0] = 0x22;
    block[0][1] = 0x22;
    block[0][2] = 0xFF;
    block[0][3] = 0xFF;
    assert_eq!(judge_block_type(&transfer(&block)), BlockType::MappingTable);
}

#[test]
fn region_cursors_stop_at_the_terminator() {
    let mut block = [[0u8; 4096]; 128];
    block[0][0..4].copy_from_slice(&[0x22, 0x22, 0xFF, 0xFF]);
    block[0][8..16].copy_from_slice(&[0, 0, 0, 3, 0, 0, 0, 30]);
    block[0][16..24].copy_from_slice(&[0, 0, 0, 0, 0, 0, 0, 29]);
    let arr = transfer(&block);
    let mut entries = MapDataRegion::new(&arr);
    assert_eq!(entries.next(), Some((3, 30)));
    assert_eq!(entries.next(), Some((0, 29)));
    assert_eq!(entries.next(), None);

    let mut block = [[0u8; 4096]; 128];
    let first = CheckCenter::sign(&pattern(1), 40, CheckType::Crc32).unwrap();
    let second = CheckCenter::sign(&pattern(2), 41, CheckType::Crc32).unwrap();
    block[0][0..128].copy_from_slice(&first);
    block[0][128..256].copy_from_slice(&second);
    let arr = transfer(&block);
    let mut slots = SignDataRegion::new(&arr);
    assert_eq!(slots.next().unwrap().to_vec(), first);
    assert_eq!(slots.next().unwrap().to_vec(), second);
    assert_eq!(slots.next(), None);
}

#[test]
fn fresh_layer() {
    let mut tl = TranslationLayer::new();
    tl.init();
    assert_eq!(tl.get_disk_speed(), (0, 0));
    assert_eq!(tl.err_block_num(), 0);
    assert_eq!(tl.sign_block_no(), 29);
    assert_eq!(tl.table_block_no(), 28);
    assert_eq!(tl.sign_block_offset(), 0);
    assert_eq!(tl.pending_len(), 0);
    assert_eq!(tl.mapped_block(0), None);
    assert_eq!(tl.signature_place(0), None);
    assert!(written_pages(&tl).is_empty());
}

#[test]
fn coalesced_flush() {
    let mut tl = TranslationLayer::new();
    for i in 0..31u32 {
        tl.write(i, [(i + 1) as u8; 4096]).unwrap();
        assert!(written_pages(&tl).is_empty());
    }
    assert_eq!(tl.pending_len(), 31);
    tl.write(31, [32; 4096]).unwrap();
    assert_eq!(tl.pending_len(), 0);

    let block = tl.read(0).unwrap();
    for i in 0..32u32 {
        assert_eq!(block.get(i)[0], (i + 1) as u8);
        assert_eq!(block.get(i), [(i + 1) as u8; 4096]);
    }
    for i in 32..128u32 {
        assert_eq!(block.get(i), [0; 4096]);
    }
    // exactly 32 data pages and one signature page reached the medium
    let mut expected: Vec<u32> = (0..32).collect();
    expected.push(29 * 128);
    assert_eq!(written_pages(&tl), expected);
    assert_eq!(tl.sign_block_offset(), 32);
    // the signature page holds the 32 signatures back to back
    let sign_page = tl.page_on_medium(29 * 128);
    for i in 0..32u32 {
        let sa = CheckCenter::sign(&[(i + 1) as u8; 4096], i, CheckType::Crc32).unwrap();
        assert_eq!(&sign_page[(i as usize) * 128..(i as usize + 1) * 128], &sa[..]);
        assert_eq!(tl.signature_place(i), Some((29, i)));
    }
    assert_eq!(tl.err_block_num(), 0);
}

#[test]
fn bypass_read() {
    let mut tl = TranslationLayer::new();
    tl.write(100, [7; 4096]).unwrap();
    assert!(tl.is_pending(100));
    let block = tl.read(0).unwrap();
    for i in 0..128u32 {
        if i == 100 {
            assert_eq!(block.get(i), [7; 4096]);
        } else {
            assert_eq!(block.get(i), [0; 4096]);
        }
    }
    assert!(written_pages(&tl).is_empty());
}

#[test]
fn pending_page_wins_over_the_medium() {
    // block 0 holds pages 0..32 on the medium; a pending write for another
    // page of the block reads back from the buffer, the rest from the medium
    let mut tl = TranslationLayer::new();
    for i in 0..32u32 {
        tl.write(i, pattern(i)).unwrap();
    }
    tl.write(40, [9; 4096]).unwrap();
    tl.write(40, [8; 4096]).unwrap();
    let block = tl.read(0).unwrap();
    assert_eq!(block.get(40), [8; 4096]);
    assert_eq!(tl.page_on_medium(40), [0; 4096]);
    for i in 0..32u32 {
        assert_eq!(block.get(i), pattern(i));
    }
}

#[test]
fn erase_then_read() {
    let mut tl = TranslationLayer::new();
    for i in 0..32u32 {
        tl.write(i, pattern(i)).unwrap();
    }
    tl.write(64, [4; 4096]).unwrap();
    tl.write(200, [5; 4096]).unwrap();
    tl.erase(0);
    let block = tl.read(0).unwrap();
    for i in 0..128u32 {
        assert_eq!(block.get(i), [0; 4096]);
        assert!(!tl.is_pending(i));
        assert_eq!(tl.signature_place(i), None);
    }
    // the pending write to another block is still there
    assert!(tl.is_pending(200));
    assert_eq!(tl.read(1).unwrap().get(72), [5; 4096]);
    // and a second erase changes nothing more
    let before = written_pages(&tl);
    tl.erase(0);
    assert_eq!(written_pages(&tl), before);
    assert_eq!(tl.pending_len(), 1);
    assert_eq!(tl.sign_block_offset(), 32);
}

#[test]
fn written_page_stays_until_rewritten_or_erased() {
    let mut tl = TranslationLayer::new();
    let d = pattern(77);
    tl.write(130, d).unwrap();
    for i in 0..40u32 {
        tl.write(300 + i, pattern(i)).unwrap();
        assert_eq!(tl.read(1).unwrap().get(2), d);
    }
    tl.erase(0);
    tl.erase(2);
    assert_eq!(tl.read(1).unwrap().get(2), d);
    assert_eq!(tl.page_on_medium(130), d);
    tl.erase(1);
    assert_eq!(tl.read(1).unwrap().get(2), [0; 4096]);
    assert_eq!(tl.err_block_num(), 0);
}

#[test]
fn user_region_bounds() {
    let mut tl = TranslationLayer::new();
    assert_eq!(tl.use_max_block_no(), 27);
    assert_eq!(tl.max_block_no(), 31);
    // the last block of the user region reads as 128 blank pages
    let block = tl.read(27).unwrap();
    assert_eq!(block.len(), 128);
    for i in 0..128u32 {
        assert_eq!(block.get(i), [0; 4096]);
    }
    tl.write(27 * 128 + 127, [3; 4096]).unwrap();
    assert_eq!(tl.read(27).unwrap().get(127), [3; 4096]);
    tl.erase(27);
    assert_eq!(tl.read(27).unwrap().get(127), [0; 4096]);
    tl.set_use_max_block_no(20);
    tl.set_max_block_no(30);
    assert_eq!(tl.use_max_block_no(), 20);
    assert_eq!(tl.max_block_no(), 30);
}

#[test]
fn scheme_policy_by_the_clock() {
    let mut tl = TranslationLayer::new();
    for i in 0..31u32 {
        tl.write_at(i, [1; 4096], Some(0)).unwrap();
    }
    // less than twelve hours after the last error: error correction, not built
    assert_eq!(tl.write_at(31, [1; 4096], Some(43199)), Err(FlashError::UnimplementedScheme));
    assert_eq!(tl.write_at(31, [1; 4096], None), Err(FlashError::UnimplementedScheme));
    assert_eq!(tl.pending_len(), 31);
    assert!(written_pages(&tl).is_empty());
    // a pending address is taken whatever the clock says
    tl.write_at(5, [2; 4096], Some(0)).unwrap();
    // twelve hours: CRC
    tl.write_at(31, [1; 4096], Some(43200)).unwrap();
    assert_eq!(tl.pending_len(), 0);
    assert_eq!(tl.page_on_medium(5), [2; 4096]);
}

#[test]
fn direct_write() {
    let mut tl = TranslationLayer::new();
    tl.write(9, [9; 4096]).unwrap();
    let mut block: Array1<[u8; 4096]> = Array1::new(128);
    block.init([0; 4096]);
    for i in 0..128u32 {
        block.set(i, pattern(1000 + i));
    }
    tl.write_block_direct(5, block.dup()).unwrap();
    let read = tl.read(5).unwrap();
    for i in 0..128u32 {
        assert_eq!(read.get(i), pattern(1000 + i));
        assert_eq!(tl.signature_place(5 * 128 + i), Some((29, i)));
        assert!(!tl.is_pending(5 * 128 + i));
    }
    // four signature pages of 32 signatures each
    assert_eq!(tl.sign_block_offset(), 128);
    for g in 0..4u32 {
        let page = tl.page_on_medium(29 * 128 + g);
        for j in 0..32u32 {
            let lpa = 5 * 128 + g * 32 + j;
            let sa = CheckCenter::sign(&pattern(1000 + g * 32 + j), lpa, CheckType::Crc32).unwrap();
            assert_eq!(&page[(j as usize) * 128..(j as usize + 1) * 128], &sa[..]);
        }
    }
    assert!(page_is_zero(&tl.page_on_medium(29 * 128 + 4)));
    assert_eq!(written_pages(&tl).len(), 128 + 4);
    // the write buffer is untouched
    assert_eq!(tl.pending_len(), 1);
    assert!(tl.is_pending(9));
    assert_eq!(tl.err_block_num(), 0);
}

#[test]
fn signature_roll_over() {
    let mut tl = TranslationLayer::new();
    for round in 0..127u32 {
        for i in 0..32u32 {
            tl.write(i, [(round % 250 + 1) as u8; 4096]).unwrap();
        }
        assert_eq!(tl.sign_block_no(), 29);
        assert_eq!(tl.sign_block_offset(), 32 * (round + 1));
        tl.erase(0);
    }
    assert_eq!(tl.sign_block_offset(), 4064);
    for i in 0..32u32 {
        tl.write(i, [200; 4096]).unwrap();
    }
    assert_eq!(tl.sign_block_no(), 30);
    assert_eq!(tl.sign_block_offset(), 32);
    assert_eq!(tl.signature_place(31), Some((30, 31)));
    assert!(!page_is_zero(&tl.page_on_medium(30 * 128)));
    assert!(page_is_zero(&tl.page_on_medium(29 * 128 + 127)));
    assert_eq!(tl.read(0).unwrap().get(31), [200; 4096]);
    assert_eq!(tl.err_block_num(), 0);
}

#[test]
fn no_spare_block_left() {
    let mut tl = TranslationLayer::new();
    // the reserved region is 28..=29: no block is spare
    tl.set_max_block_no(29);
    for _ in 0..127u32 {
        for i in 0..32u32 {
            tl.write(i, [1; 4096]).unwrap();
        }
        tl.erase(0);
    }
    for i in 0..31u32 {
        tl.write(i, [1; 4096]).unwrap();
    }
    let before = written_pages(&tl);
    assert_eq!(tl.write(31, [1; 4096]), Err(FlashError::NoSpareBlock));
    assert_eq!(tl.pending_len(), 31);
    assert_eq!(tl.sign_block_no(), 29);
    assert_eq!(tl.sign_block_offset(), 4064);
    assert_eq!(written_pages(&tl), before);
}

/// A medium on which pages 32..64 are written and signed in block 29, the
/// signature of page 50 made from another page.
fn medium_with_a_bad_signature() -> DiskManager {
    let mut disk = DiskManager::new(true);
    let mut sign_page = [0u8; 4096];
    for j in 0..32u32 {
        let lpa = 32 + j;
        let page = pattern(lpa);
        disk.disk_write(lpa, page);
        let signed = if lpa == 50 { pattern(9999) } else { page };
        let sa = CheckCenter::sign(&signed, lpa, CheckType::Crc32).unwrap();
        sign_page[(j as usize) * 128..(j as usize + 1) * 128].copy_from_slice(&sa);
    }
    disk.disk_write(29 * 128, sign_page);
    disk
}

#[test]
fn start_up_reads_the_signature_block() {
    let mut tl = TranslationLayer::with_disk(medium_with_a_bad_signature());
    assert_eq!(tl.signature_place(50), None);
    tl.init();
    assert_eq!(tl.sign_block_no(), 29);
    assert_eq!(tl.sign_block_offset(), 32);
    for j in 0..32u32 {
        assert_eq!(tl.signature_place(32 + j), Some((29, j)));
    }
    assert_eq!(tl.signature_place(31), None);
    assert_eq!(tl.mapped_block(0), None);
}

#[test]
fn bad_block_remap() {
    let mut tl = TranslationLayer::with_disk(medium_with_a_bad_signature());
    tl.init();
    tl.set_block_num(64);

    // the read hands out the block as it is, and remaps it
    let block = tl.read(0).unwrap();
    assert_eq!(block.get(50), pattern(50));
    assert_eq!(block.get(33), pattern(33));
    assert_eq!(tl.err_block_num(), 1);
    assert_eq!(tl.mapped_block(0), Some(30));
    assert_eq!(tl.mapped_block(1), None);

    // the mapping block lists the new entry
    let table = tl.page_on_medium(28 * 128);
    assert_eq!(&table[0..4], &[0x22, 0x22, 0xFF, 0xFF][..]);
    assert_eq!(&table[4..8], &[0, 0, 0, 0][..]);
    assert_eq!(&table[8..16], &[0, 0, 0, 0, 0, 0, 0, 30][..]);
    assert!(table[16..].iter().all(|b| *b == 0));
    for i in 1..128u32 {
        assert!(page_is_zero(&tl.page_on_medium(28 * 128 + i)));
    }

    // later reads and writes go to the spare
    assert_eq!(tl.read(0).unwrap().get(50), [0; 4096]);
    assert_eq!(tl.err_block_num(), 1);
    for i in 0..32u32 {
        tl.write(i, [(i + 1) as u8; 4096]).unwrap();
    }
    assert_eq!(tl.page_on_medium(30 * 128 + 5), [6; 4096]);
    assert!(page_is_zero(&tl.page_on_medium(5)));
    assert_eq!(tl.page_on_medium(50), pattern(50));
    assert_eq!(tl.read(0).unwrap().get(5), [6; 4096]);
    assert_eq!(tl.signature_place(5), Some((29, 37)));
}

#[test]
fn after_an_error_the_policy_selects_ecc() {
    let mut tl = TranslationLayer::with_disk(medium_with_a_bad_signature());
    tl.init();
    tl.read(0).unwrap();
    assert_eq!(tl.err_block_num(), 1);
    // one bad block in 32 is more than 2 %
    for i in 0..31u32 {
        tl.write_at(i, [1; 4096], Some(NOON)).unwrap();
    }
    assert_eq!(tl.write_at(31, [1; 4096], Some(NOON)), Err(FlashError::UnimplementedScheme));
    // one in 50 is not
    tl.set_block_num(50);
    tl.write_at(31, [1; 4096], Some(NOON)).unwrap();
    assert_eq!(tl.pending_len(), 0);
}

#[test]
fn start_up_reads_the_mapping_block() {
    let mut disk = DiskManager::new(true);
    let mut table = [0u8; 4096];
    table[0..4].copy_from_slice(&[0x22, 0x22, 0xFF, 0xFF]);
    table[8..16].copy_from_slice(&[0, 0, 0, 3, 0, 0, 0, 30]);
    disk.disk_write(31 * 128, table);
    disk.disk_write(30 * 128 + 4, [5; 4096]);
    let mut tl = TranslationLayer::with_disk(disk);
    tl.init();
    assert_eq!(tl.table_block_no(), 31);
    assert_eq!(tl.mapped_block(3), Some(30));
    assert_eq!(tl.mapped_block(30), None);
    // logical block 3 is served by block 30
    assert_eq!(tl.read(3).unwrap().get(4), [5; 4096]);
    tl.erase(3);
    assert!(page_is_zero(&tl.page_on_medium(30 * 128 + 4)));
}

#[test]
fn table_block_rewrite() {
    let mut tl = TranslationLayer::new();
    let mut image: Array1<u8> = Array1::new(128 * 4096);
    image.init(0);
    image.set(0, 0x22);
    image.set(4096, 0x44);
    image.set(128 * 4096 - 1, 0x55);
    tl.write_table_block(&image);
    assert_eq!(tl.page_on_medium(28 * 128)[0], 0x22);
    assert_eq!(tl.page_on_medium(28 * 128 + 1)[0], 0x44);
    assert_eq!(tl.page_on_medium(28 * 128 + 127)[4095], 0x55);
    // a second rewrite erases first
    image.set(0, 0x23);
    tl.write_table_block(&image);
    assert_eq!(tl.page_on_medium(28 * 128)[0], 0x23);
    assert_eq!(written_pages(&tl), vec![28 * 128, 28 * 128 + 1, 28 * 128 + 127]);
}

#[test]
fn soundness_test() {
    let mut tl = TranslationLayer::new();
    assert!(tl.is_sound());
    tl.write(40, [1; 4096]).unwrap();
    assert!(tl.is_sound());
    // a geometry that leaves the anchors outside the reserved region
    tl.set_use_max_block_no(29);
    assert!(!tl.is_sound());
    tl.set_use_max_block_no(27);
    assert!(tl.is_sound());
    // a reserved region that reaches past the medium
    tl.set_max_block_no(32);
    assert!(!tl.is_sound());

    // a medium with a full page of signatures
    let mut tl = TranslationLayer::with_disk(medium_with_a_bad_signature());
    tl.init();
    assert!(tl.is_sound());

    // a medium whose signature block holds a single signature
    let mut disk = DiskManager::new(true);
    let mut sign_page = [0u8; 4096];
    let sa = CheckCenter::sign(&pattern(1), 7, CheckType::Crc32).unwrap();
    sign_page[0..128].copy_from_slice(&sa);
    disk.disk_write(29 * 128, sign_page);
    let mut tl = TranslationLayer::with_disk(disk);
    tl.init();
    assert_eq!(tl.sign_block_offset(), 1);
    assert!(!tl.is_sound());

    // a medium whose mapping block remaps a block into the user region
    let mut disk = DiskManager::new(true);
    let mut table = [0u8; 4096];
    table[0..4].copy_from_slice(&[0x22, 0x22, 0xFF, 0xFF]);
    table[8..16].copy_from_slice(&[0, 0, 0, 3, 0, 0, 0, 4]);
    disk.disk_write(28 * 128, table);
    let mut tl = TranslationLayer::with_disk(disk);
    tl.init();
    assert_eq!(tl.mapped_block(3), Some(4));
    assert!(!tl.is_sound());

    // two blocks remapped to one
    let mut disk = DiskManager::new(true);
    let mut table = [0u8; 4096];
    table[0..4].copy_from_slice(&[0x22, 0x22, 0xFF, 0xFF]);
    table[8..16].copy_from_slice(&[0, 0, 0, 3, 0, 0, 0, 30]);
    table[16..24].copy_from_slice(&[0, 0, 0, 4, 0, 0, 0, 30]);
    disk.disk_write(28 * 128, table);
    let mut tl = TranslationLayer::with_disk(disk);
    tl.init();
    assert!(!tl.is_sound());
}

#[test]
fn write_once_test_for_a_write() {
    // page 5 of the medium is written, and nothing knows of it
    let mut disk = DiskManager::new(true);
    disk.disk_write(5, [9; 4096]);
    let mut tl = TranslationLayer::with_disk(disk);
    tl.init();
    assert!(tl.is_sound());
    for i in 0..31u32 {
        // a write that completes no batch touches no page
        assert!(tl.can_write(i, &[1; 4096]));
        tl.write(i, [1; 4096]).unwrap();
    }
    // the batch would write page 5
    assert!(!tl.can_write(31, &[1; 4096]));
    assert!(tl.can_write(5, &[2; 4096]));
    tl.erase(0);
    for i in 6..37u32 {
        tl.write(i, [1; 4096]).unwrap();
    }
    assert!(tl.can_write(37, &[1; 4096]));
    tl.write(37, [1; 4096]).unwrap();
    assert_eq!(tl.pending_len(), 0);
    // the page of signatures is taken now, the next is free
    for i in 0..31u32 {
        tl.write(200 + i, [1; 4096]).unwrap();
    }
    assert!(tl.can_write(231, &[1; 4096]));
    // a page of the batch that is written already
    assert!(!tl.can_write(20, &[1; 4096]));
}

#[test]
fn write_once_test_for_a_direct_write() {
    let mut tl = TranslationLayer::new();
    let mut block: Array1<[u8; 4096]> = Array1::new(128);
    block.init([4; 4096]);
    assert!(tl.can_write_block_direct(5, &block));
    tl.write_block_direct(5, block.dup()).unwrap();
    // the block is written now; another is free, and so are the next signature pages
    assert!(!tl.can_write_block_direct(5, &block));
    assert!(tl.can_write_block_direct(6, &block));
    tl.erase(5);
    assert!(tl.can_write_block_direct(5, &block));
    // one page of the block written through the buffer
    for i in 0..32u32 {
        tl.write(7 * 128 + i, [1; 4096]).unwrap();
    }
    assert!(!tl.can_write_block_direct(7, &block));
    assert!(tl.can_write_block_direct(8, &block));

    // a signature page that is taken though the slot count says otherwise
    let mut disk = DiskManager::new(true);
    disk.disk_write(29 * 128 + 2, [1; 4096]);
    let tl = TranslationLayer::with_disk(disk);
    assert!(!tl.can_write_block_direct(5, &block));
    assert!(tl.can_write(5, &[1; 4096]));
}
