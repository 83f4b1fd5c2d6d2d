use wondfs::buf::BufCache;
use wondfs::compress::compress::{Compress, CompressManager, CompressType};
use wondfs::driver::disk_manager::DiskManager;
use wondfs::driver::fake_disk::FakeDisk;
use wondfs::gc::gc_define::{GCStrategy, PageUsedStatus};
use wondfs::gc::gc_event::{EraseGCEvent, GCEvent};
use wondfs::gc::gc_manager::GCManager;
use wondfs::inode::inode::{InodeFileType, InodeStat};
use wondfs::inode::inode_manager::{Inode, InodeLookup, InodeManager};
use wondfs::tl::check_center::{CheckCenter, CheckType};
use wondfs::tl::tl::TranslationLayer;
use wondfs::write_buf::WriteCache;

#[test]
fn buf_basics() {
    let mut cache = BufCache::new();

    let data = [1; 4096];
    cache.put_data(100, data);
    assert_eq!(cache.get_data(100).unwrap(), [1; 4096]);
    cache.remove_data(100);
    assert_eq!(cache.get_data(100), None);

    cache.write(0, 100, data).unwrap();
    let data = cache.read(0, 100).unwrap();
    assert_eq!(data, [1; 4096]);

    cache.erase(0, 0);
    let data = cache.read(0, 100).unwrap();
    assert_eq!(data, [0; 4096]);
}

#[test]
fn disk_manager_basics() {
    let mut manager = DiskManager::new(true);

    let data = [1; 4096];
    manager.disk_write(100, data);

    let data = manager.disk_read(0);
    assert_eq!(data[100], [1; 4096]);

    let data = [2; 4096];
    manager.disk_write(256, data);
    let data = manager.disk_read(1);
    assert_eq!(data[2], [0; 4096]);

    manager.disk_erase(2);
    let data = manager.disk_read(1);
    assert_eq!(data[0], [0; 4096]);
}

#[test]
fn fake_disk_basics() {
    let mut disk = FakeDisk::new(1024);

    let data = [1; 4096];
    disk.fake_disk_write(100, data);

    let data = disk.fake_disk_read(0);
    assert_eq!(data[100], [1; 4096]);

    let data = [2; 4096];
    disk.fake_disk_write(256, data);
    let data = disk.fake_disk_read(1);
    assert_eq!(data[2], [0; 4096]);

    disk.fake_disk_erase(2);
    let data = disk.fake_disk_read(1);
    assert_eq!(data[0], [0; 4096]);

    assert_eq!(disk.block_num, 8);
    assert_eq!(disk.size, 1024);
}

#[test]
fn gc_manager_basics() {
    let mut manager = GCManager::new();

    assert_eq!(manager.find_next_pos_to_write(5), Some(0));

    manager.set_page(0, PageUsedStatus::Busy(0));
    manager.set_page(1, PageUsedStatus::Busy(0));
    manager.set_page(2, PageUsedStatus::Busy(0));
    manager.set_page(3, PageUsedStatus::Busy(0));
    manager.set_page(4, PageUsedStatus::Busy(0));

    assert_eq!(manager.get_page(0), PageUsedStatus::Busy(0));
    assert_eq!(manager.find_next_pos_to_write(128), Some(128));

    // block 1 holds no live page: it is the first block of lowest utilisation
    let event = manager.new_gc_event(GCStrategy::Forward);
    assert_eq!(event.events.len(), 1);
    assert_eq!(event.events[0], GCEvent::Erase(EraseGCEvent { index: 0, block_no: 1 }));
}

#[test]
fn check_center_basics() {
    let mut data = [27; 4096];
    data[234] = 23;
    data[123] = 78;
    data[89] = 12;
    let sa = CheckCenter::sign(&data, 383, CheckType::Crc32).unwrap();
    let ret = CheckCenter::check(&data, &sa).unwrap();
    assert_eq!(ret.0, true);
    assert_eq!(ret.1, CheckType::Crc32);
    assert_eq!(ret.2, None);
    assert_eq!(CheckCenter::extract_address(&sa), 383);
}

#[test]
fn tl_basics() {
    let mut tl = TranslationLayer::new();
    tl.init();

    let data = [1; 4096];
    for i in 0..300 {
        tl.write(i, data).unwrap();
    }
    let data = tl.read(0).unwrap();
    assert_eq!(data.get(100), [1; 4096]);

    tl.erase(0);
    let data = tl.read(0).unwrap();
    assert_eq!(data.get(100), [0; 4096]);
}

#[test]
fn write_buf_basics() {
    let mut write_buf = WriteCache::new();
    for i in 0..32 {
        write_buf.write(i, [0; 4096]);
    }
    assert_eq!(write_buf.need_sync(), true);
    write_buf.sync();
    assert_eq!(write_buf.need_sync(), false);
    assert_eq!(write_buf.cache.len(), 0);
}

/// A codec that stores each run of equal bytes as a count and the byte.
struct RunLength;

impl Compress for RunLength {
    fn decode(&mut self, bytes: &[u8]) -> Vec<u8> {
        let mut out = Vec::new();
        for pair in bytes.chunks(2) {
            for _ in 0..pair[0] {
                out.push(pair[1]);
            }
        }
        out
    }

    fn encode(&mut self, bytes: &[u8]) -> Vec<u8> {
        let mut out: Vec<u8> = Vec::new();
        for b in bytes {
            let n = out.len();
            if n >= 2 && out[n - 1] == *b && out[n - 2] < 255 {
                out[n - 2] += 1;
            } else {
                out.push(1);
                out.push(*b);
            }
        }
        out
    }

    fn coefficient(&self) -> u8 {
        3
    }
}

/// A codec that stores the bytes as they are.
struct Verbatim;

impl Compress for Verbatim {
    fn decode(&mut self, bytes: &[u8]) -> Vec<u8> {
        bytes.to_vec()
    }

    fn encode(&mut self, bytes: &[u8]) -> Vec<u8> {
        bytes.to_vec()
    }

    fn coefficient(&self) -> u8 {
        2
    }
}

#[test]
fn compress_basics() {
    let data = "fsfjlahuhdwnf.v.sljp;jdqdsjdfhalkshdlhliqjdna,dnlawjdla.jdj.lskd.wnkak".as_bytes();
    let mut manager = CompressManager::new(RunLength, Verbatim);
    let ret = manager.encode(&data);
    manager.decode(&ret.0, ret.1);
}

fn inode_numbered(ino: u32) -> Inode {
    Inode {
        ino,
        ref_cnt: 0,
        stat: InodeStat {
            file_type: InodeFileType::File,
            ino,
            size: 0,
            uid: 0,
            gid: 0,
            ref_cnt: 0,
            n_link: 1,
            mode: 0o644,
            last_accessed: (0, 0),
            last_modified: (0, 0),
            last_metadata_changed: (0, 0),
        },
    }
}

#[test]
fn inode_manager_basics() {
    let mut manager = InodeManager::new();
    let link = manager.i_alloc(inode_numbered(1));
    assert_eq!(manager.inode(link.unwrap()).ino, 1);
    let link = manager.i_alloc(inode_numbered(2));
    assert_eq!(manager.inode(link.unwrap()).ino, 2);
    let link = match manager.i_get(2) {
        InodeLookup::Found(handle) => handle,
        InodeLookup::Load(_) => panic!("inode 2 is in the table"),
    };
    assert_eq!(manager.inode(link).ino, 2);
    assert_eq!(manager.inode(link).ref_cnt, 2);
    let link = manager.i_dup(link);
    assert_eq!(manager.inode(link).ref_cnt, 3);
    manager.i_put(link);
    let link = match manager.i_get(2) {
        InodeLookup::Found(handle) => handle,
        InodeLookup::Load(_) => panic!("inode 2 is in the table"),
    };
    assert_eq!(manager.inode(link).ref_cnt, 3);
}

#[test]
fn compress_choice_order() {
    let manager = CompressManager::new(RunLength, Verbatim);
    assert_eq!(manager.choose_compress_type_except(&vec![]), CompressType::Huffman);
    assert_eq!(
        manager.choose_compress_type_except(&vec![CompressType::Huffman]),
        CompressType::Snappy
    );
    assert_eq!(
        manager.choose_compress_type_except(&vec![CompressType::Snappy, CompressType::Huffman]),
        CompressType::Raw
    );
    assert_eq!(manager.choose_compress_type_except(&vec![CompressType::Snappy]), CompressType::Huffman);
    assert_eq!(manager.get_compress_type_score(CompressType::Huffman), 3);
    assert_eq!(manager.get_compress_type_score(CompressType::Snappy), 2);
    assert_eq!(manager.get_compress_type_score(CompressType::Raw), 1);
}

#[test]
fn compress_judgement() {
    let plain = vec![7u8; 3 * 4096];
    // same page count: never pays
    assert!(!CompressManager::<RunLength, Verbatim>::judge_encode_effect(
        &plain,
        &vec![0u8; 2 * 4096 + 1],
        CompressType::Huffman
    ));
    // 12288 * 100 / 16384 = 75: pays
    assert!(CompressManager::<RunLength, Verbatim>::judge_encode_effect(
        &plain,
        &vec![0u8; 16384],
        CompressType::Snappy
    ));
    // 12288 * 100 / 16385 = 74, and 12288 * 100 / 13500 = 91 on the same page count
    assert!(CompressManager::<RunLength, Verbatim>::encoding_accepted(
        &plain,
        &vec![0u8; 16385],
        CompressType::Huffman
    ));
    assert!(!CompressManager::<RunLength, Verbatim>::encoding_accepted(
        &plain,
        &vec![0u8; 13500],
        CompressType::Huffman
    ));
    // 12288 * 100 / 8000 = 153: does not pay
    assert!(!CompressManager::<RunLength, Verbatim>::judge_encode_effect(
        &plain,
        &vec![0u8; 8000],
        CompressType::Huffman
    ));
    // storing as it is always pays
    assert!(CompressManager::<RunLength, Verbatim>::judge_encode_effect(
        &plain,
        &plain,
        CompressType::Raw
    ));
    // an empty encoding cannot be judged
    assert!(!CompressManager::<RunLength, Verbatim>::encoding_accepted(
        &plain,
        &vec![],
        CompressType::Huffman
    ));
}

#[test]
fn compress_encode_falls_through_to_raw() {
    // a short text: both codecs stay on the page count of the data
    let data = b"abcabcabc";
    let mut manager = CompressManager::new(RunLength, Verbatim);
    let (bytes, kind) = manager.encode(data);
    assert_eq!(kind, CompressType::Raw);
    assert_eq!(bytes, data.to_vec());
    assert_eq!(manager.decode(&bytes, kind), data.to_vec());
    assert_eq!(manager.encode_with_type(data, CompressType::Snappy), data.to_vec());
    assert_eq!(manager.encode_with_type(b"aaab", CompressType::Huffman), vec![3, b'a', 1, b'b']);
}

#[test]
fn inode_manager_slots() {
    let mut manager = InodeManager::new();
    assert_eq!(manager.get_size(), 0);
    assert_eq!(manager.get_capacity(), 30);
    let first = manager.i_alloc(inode_numbered(7)).unwrap();
    assert_eq!(first, 0);
    assert_eq!(manager.inode(first).ref_cnt, 1);
    // a miss names the first free slot and changes nothing
    assert_eq!(manager.i_get(9), InodeLookup::Load(1));
    manager.i_load(1, inode_numbered(9));
    assert_eq!(manager.inode(1).ino, 9);
    assert_eq!(manager.inode(1).ref_cnt, 1);
    // the last reference gone, the slot is free again and is the first free one
    manager.i_put(first);
    assert_eq!(manager.inode(first).ref_cnt, 0);
    manager.i_put(first);
    assert_eq!(manager.inode(first).ref_cnt, 0);
    assert_eq!(manager.i_get(7), InodeLookup::Load(0));
}

/// A codec whose encoding is `len` bytes of zero, and which counts its calls.
struct Fixed {
    len: usize,
    calls: u32,
}

impl Compress for Fixed {
    fn decode(&mut self, bytes: &[u8]) -> Vec<u8> {
        bytes.to_vec()
    }

    fn encode(&mut self, _bytes: &[u8]) -> Vec<u8> {
        self.calls += 1;
        vec![0; self.len]
    }

    fn coefficient(&self) -> u8 {
        7
    }
}

#[test]
fn compress_tries_huffman_then_snappy_then_raw() {
    let data = vec![5u8; 3 * 4096];
    // 12288 * 100 / 16384 = 75: the Huffman encoding is accepted, Snappy is not asked
    let mut manager =
        CompressManager::new(Fixed { len: 16384, calls: 0 }, Fixed { len: 20000, calls: 0 });
    let (bytes, kind) = manager.encode(&data);
    assert_eq!(kind, CompressType::Huffman);
    assert_eq!(bytes.len(), 16384);
    assert_eq!((manager.huffman.calls, manager.snappy.calls), (1, 0));

    // the Huffman encoding keeps the page count and is refused; Snappy's is accepted
    let mut manager =
        CompressManager::new(Fixed { len: 12289, calls: 0 }, Fixed { len: 20000, calls: 0 });
    let (bytes, kind) = manager.encode(&data);
    assert_eq!(kind, CompressType::Snappy);
    assert_eq!(bytes.len(), 20000);
    assert_eq!((manager.huffman.calls, manager.snappy.calls), (1, 1));

    // both are refused: 12288 * 100 / 8000 = 153, and an empty encoding cannot be judged
    let mut manager = CompressManager::new(Fixed { len: 8000, calls: 0 }, Fixed { len: 0, calls: 0 });
    let (bytes, kind) = manager.encode(&data);
    assert_eq!(kind, CompressType::Raw);
    assert_eq!(bytes, data);
    assert_eq!((manager.huffman.calls, manager.snappy.calls), (1, 1));
    assert_eq!(manager.get_compress_type_score(CompressType::Snappy), 7);
}
