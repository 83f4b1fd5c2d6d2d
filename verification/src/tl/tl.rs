//! The translation layer: logical blocks over a write-once medium.
//!
//! It owns the device, the write buffer, the table of remapped blocks and the
//! two maps that locate each page's signature. Writes gather in the buffer;
//! the 32nd commits a batch: one page of signatures, then the 32 pages. Reads
//! verify each page against its signature and route a failing block to a
//! spare.

use vstd::prelude::*;
use vstd::std_specs::iter::IteratorSpec;
use std::collections::HashMap;
use crate::error::FlashError;
use crate::driver::disk_manager::DiskManager;
use crate::driver::fake_disk::block_pages;
use crate::tl::check_center::{CheckCenter, CheckType, crc_signature, stored_scheme};
use crate::tl::laws::{
    lemma_direct_clean_from_start,
    lemma_direct_keeps_other_blocks,
    lemma_direct_keeps_sealed,
    lemma_direct_lands,
    lemma_direct_then_read,
    lemma_erase_keeps_other_blocks,
    lemma_erase_then_read,
    lemma_write_keeps_other_pages,
    lemma_write_then_read,
    lemma_erase_keeps_sealed,
    lemma_sealed_reads_pass,
    lemma_start_on_blank_reserve,
    lemma_write_keeps_sealed,
};
use crate::tl::lemmas::{
    lemma_next_spare_unique,
    lemma_first_failure_unique,
    lemma_phys_in_range,
    lemma_page_addr_in_range,
    lemma_listing_monotonic,
    lemma_listing_insert_length,
    lemma_remapped_inv,
    lemma_signed_layout,
    lemma_stored_layout,
    lemma_batch_places,
    lemma_put_accepts,
    lemma_write_pages_frame,
    lemma_least_spare,
    lemma_erased_inv,
    lemma_map_entry_count_unique,
    lemma_sign_slot_count_unique,
    lemma_scanned_block_keeps_disk,
};
use crate::tl::model::{
    TlModel,
    select_scheme,
    table_image,
    table_listing,
    with_block_image,
    ECC_WINDOW,
    MAP_ENTRIES,
    SIGN_ROLL,
    SIGN_SLOTS,
    as_pending,
    discard_range,
    is_blank_slot,
    lpa_range,
    map_entry,
    sign_slot,
    direct_group,
    note_blocks,
    note_offsets,
    page_addr_in,
    sign_page,
    write_pages,
};
use crate::tl::region::{MapDataRegion, SignDataRegion};
use crate::tl::tl_helper::{BlockType, judge_block_type, transfer};
use crate::util::array::Array1;
use crate::util::clock::{wall_clock, micros_between, seconds_now};
use crate::util::crc32::crc32c;
use crate::util::page::{Page, is_zero_page, page_is_zero, page_views, to_be_bytes, zero_page};
use crate::write_buf::{WriteCache, pending_contains, lemma_pending_put_elements};

verus! {

/// The highest transfer speed that the figures can show.
pub const SPEED_LIMIT: u32 = 500000;

/// The speed figure after `size` KiB went through in `duration`
/// microseconds: six tenths of the speed just seen, which is
/// `size * 1000000 / 1024` by `duration`, and four tenths of the figure
/// before; each division rounds down.
pub open spec fn blended_speed(old_speed: u32, size: u32, duration: u32) -> int {
    6 * ((size * 1000000 / 1024) / (duration as int)) / 10 + 4 * old_speed / 10
}

/// The figure `new_speed` follows `old_speed` after a transfer of `size`
/// KiB: it is the blend for some time that the transfer took, or, where the
/// time was too short to measure, the figure before.
pub open spec fn speed_follows(old_speed: u32, new_speed: u32, size: u32) -> bool {
    new_speed == old_speed || exists|duration: u32|
        duration > 0 && new_speed == #[trigger] blended_speed(old_speed, size, duration)
}

/// The time that a transfer took, as the figures take it: its microseconds
/// cut to 32 bits, and 0 where the clock gave no time.
pub open spec fn measured_time(duration: Option<u128>) -> u32 {
    match duration {
        Some(us) => (us % 0x1_0000_0000) as u32,
        None => 0,
    }
}

/// The speed figure that follows `old_speed` after `size` KiB went through
/// in `duration`: the blend with the speed just seen, or, where the time
/// measured is 0, the figure before.
pub open spec fn next_speed(old_speed: u32, size: u32, duration: Option<u128>) -> int {
    if measured_time(duration) > 0 {
        blended_speed(old_speed, size, measured_time(duration))
    } else {
        old_speed as int
    }
}

/// The translation layer.
pub struct TranslationLayer {
    disk_manager: DiskManager,
    write_cache: WriteCache,
    used_table: HashMap<u32, bool>,
    map_v_table: HashMap<u32, u32>,
    sign_block_map: HashMap<u32, u32>,
    sign_offset_map: HashMap<u32, u32>,
    use_max_block_no: u32,
    max_block_no: u32,
    table_block_no: u32,
    sign_block_no: u32,
    sign_block_offset: u32,
    write_speed: u32,
    read_speed: u32,
    block_num: u32,
    err_block_num: u32,
    last_err_time: u64,
}

impl View for TranslationLayer {
    type V = TlModel;

    /// The state of the layer as plain values.
    closed spec fn view(&self) -> TlModel {
        TlModel {
            disk: self.disk_manager.pages(),
            pending: self.write_cache.entries(),
            used: self.used_table@.dom(),
            remap: self.map_v_table@,
            sign_block_of: self.sign_block_map@,
            sign_offset_of: self.sign_offset_map@,
            use_max: self.use_max_block_no,
            max: self.max_block_no,
            table_block: self.table_block_no,
            sign_block: self.sign_block_no,
            sign_offset: self.sign_block_offset,
            block_num: self.block_num,
            err_block_num: self.err_block_num,
            last_err_time: self.last_err_time,
        }
    }
}

impl TranslationLayer {
    /// The parts of the layer agree with each other: the device is a medium
    /// in memory, the buffer is sound and its batch flag is down, and the
    /// speed figures are within their limit.
    pub closed spec fn wf(&self) -> bool {
        &&& self.disk_manager.wf()
        &&& self.write_cache.wf()
        &&& !self.write_cache.sync
        &&& self.read_speed <= SPEED_LIMIT
        &&& self.write_speed <= SPEED_LIMIT
    }

    /// Only the medium differs between `self` and `other`.
    spec fn same_but_disk(&self, other: &TranslationLayer) -> bool {
        &&& self.write_cache == other.write_cache
        &&& self.used_table == other.used_table
        &&& self.map_v_table == other.map_v_table
        &&& self.sign_block_map == other.sign_block_map
        &&& self.sign_offset_map == other.sign_offset_map
        &&& self.use_max_block_no == other.use_max_block_no
        &&& self.max_block_no == other.max_block_no
        &&& self.table_block_no == other.table_block_no
        &&& self.sign_block_no == other.sign_block_no
        &&& self.sign_block_offset == other.sign_block_offset
        &&& self.block_num == other.block_num
        &&& self.err_block_num == other.err_block_num
        &&& self.last_err_time == other.last_err_time
        &&& self.read_speed == other.read_speed
        &&& self.write_speed == other.write_speed
    }

    /// The layer is sound: its parts agree and its state meets the model's
    /// invariant.
    pub open spec fn inv(&self) -> bool {
        self.wf() && self@.inv()
    }

    /// The speed figures: read, then write.
    pub closed spec fn speeds(&self) -> (u32, u32) {
        (self.read_speed, self.write_speed)
    }

    /// A layer over a fresh medium of 32 blocks in memory: blocks 0 to 27 for
    /// the user, 28 to 31 reserved, the mapping table in block 28 and the
    /// signatures in block 29. Nothing is pending, remapped or signed.
    pub fn new() -> (tl: TranslationLayer)
        ensures
            tl.inv(),
            tl@.sealed(),
            tl@.started() == tl@,
            tl@.disk.len() == 4096,
            forall|i: int| 0 <= i < 4096 ==> is_zero_page(#[trigger] tl@.disk[i]),
            tl@.pending.len() == 0,
            tl@.used == Set::<u32>::empty(),
            tl@.remap == Map::<u32, u32>::empty(),
            tl@.sign_block_of == Map::<u32, u32>::empty(),
            tl@.sign_offset_of == Map::<u32, u32>::empty(),
            tl@.use_max == 27,
            tl@.max == 31,
            tl@.table_block == 28,
            tl@.sign_block == 29,
            tl@.sign_offset == 0,
            tl@.block_num == 32,
            tl@.err_block_num == 0,
            tl@.last_err_time == 0,
            tl.speeds() == (0u32, 0u32),
    {
        let tl = TranslationLayer {
            disk_manager: DiskManager::new(true),
            write_cache: WriteCache::new(),
            map_v_table: HashMap::new(),
            used_table: HashMap::new(),
            sign_block_map: HashMap::new(),
            sign_offset_map: HashMap::new(),
            block_num: 32,
            err_block_num: 0,
            use_max_block_no: 27,
            max_block_no: 31,
            table_block_no: 28,
            sign_block_no: 29,
            sign_block_offset: 0,
            write_speed: 0,
            read_speed: 0,
            last_err_time: 0,
        };
        proof {
            assert(tl@.used =~= Set::<u32>::empty());
            assert(tl@.remap =~= Map::<u32, u32>::empty());
            assert(tl@.sign_block_of =~= Map::<u32, u32>::empty());
            assert(tl@.sign_offset_of =~= Map::<u32, u32>::empty());
            assert forall|i: int| 0 <= i < tl@.disk.len() implies (#[trigger] tl@.disk[i]).len()
                == 4096 by {
                assert(is_zero_page(tl@.disk[i]));
            }
            lemma_start_on_blank_reserve(tl@);
        }
        tl
    }

    /// A layer over the medium that `disk_manager` holds, with the geometry
    /// and the anchors of `new`. Nothing is pending, remapped or signed until
    /// `init` has read the reserved region.
    pub fn with_disk(disk_manager: DiskManager) -> (tl: TranslationLayer)
        requires
            disk_manager.wf(),
        ensures
            tl.wf(),
            tl.speeds() == (0u32, 0u32),
            tl@ == (TlModel {
                disk: disk_manager.pages(),
                pending: Seq::<(u32, Seq<u8>)>::empty(),
                used: Set::<u32>::empty(),
                remap: Map::<u32, u32>::empty(),
                sign_block_of: Map::<u32, u32>::empty(),
                sign_offset_of: Map::<u32, u32>::empty(),
                use_max: 27,
                max: 31,
                table_block: 28,
                sign_block: 29,
                sign_offset: 0,
                block_num: 32,
                err_block_num: 0,
                last_err_time: 0,
            }),
    {
        let tl = TranslationLayer {
            disk_manager,
            write_cache: WriteCache::new(),
            map_v_table: HashMap::new(),
            used_table: HashMap::new(),
            sign_block_map: HashMap::new(),
            sign_offset_map: HashMap::new(),
            block_num: 32,
            err_block_num: 0,
            use_max_block_no: 27,
            max_block_no: 31,
            table_block_no: 28,
            sign_block_no: 29,
            sign_block_offset: 0,
            write_speed: 0,
            read_speed: 0,
            last_err_time: 0,
        };
        proof {
            assert(tl@.pending =~= Seq::<(u32, Seq<u8>)>::empty());
            assert(tl@.used =~= Set::<u32>::empty());
            assert(tl@.remap =~= Map::<u32, u32>::empty());
            assert(tl@.sign_block_of =~= Map::<u32, u32>::empty());
            assert(tl@.sign_offset_of =~= Map::<u32, u32>::empty());
        }
        tl
    }

    /// The last block of the user region.
    pub fn use_max_block_no(&self) -> (block_no: u32)
        ensures
            block_no == self@.use_max,
    {
        self.use_max_block_no
    }

    /// The last block of the reserved region.
    pub fn max_block_no(&self) -> (block_no: u32)
        ensures
            block_no == self@.max,
    {
        self.max_block_no
    }

    /// The number of blocks found bad so far.
    pub fn err_block_num(&self) -> (n: u32)
        ensures
            n == self@.err_block_num,
    {
        self.err_block_num
    }

    /// The block that receives signatures.
    pub fn sign_block_no(&self) -> (block_no: u32)
        ensures
            block_no == self@.sign_block,
    {
        self.sign_block_no
    }

    /// The occupied slots of the signature block.
    pub fn sign_block_offset(&self) -> (offset: u32)
        ensures
            offset == self@.sign_offset,
    {
        self.sign_block_offset
    }

    /// The block that holds the mapping table.
    pub fn table_block_no(&self) -> (block_no: u32)
        ensures
            block_no == self@.table_block,
    {
        self.table_block_no
    }

    /// The physical block that replaces logical block `block_no`, if it was
    /// remapped.
    pub fn mapped_block(&self, block_no: u32) -> (r: Option<u32>)
        ensures
            r is Some <==> self@.remap.contains_key(block_no),
            r is Some ==> r->0 == self@.remap[block_no],
    {
        match self.map_v_table.get(&block_no) {
            Some(pba) => Some(*pba),
            None => None,
        }
    }

    /// The slot of the signature of logical page `address` and the block
    /// that holds it, if the page is signed.
    pub fn signature_place(&self, address: u32) -> (r: Option<(u32, u32)>)
        ensures
            r is Some <==> self@.sign_block_of.contains_key(address)
                && self@.sign_offset_of.contains_key(address),
            r is Some ==> r->0 == (self@.sign_block_of[address], self@.sign_offset_of[address]),
    {
        let block: u32 = match self.sign_block_map.get(&address) {
            Some(b) => *b,
            None => {
                return None;
            },
        };
        match self.sign_offset_map.get(&address) {
            Some(o) => Some((block, *o)),
            None => None,
        }
    }

    /// Whether a write for logical page `address` is pending.
    pub fn is_pending(&self, address: u32) -> (r: bool)
        requires
            self.wf(),
        ensures
            r == pending_contains(self@.pending, address),
    {
        self.write_cache.contains_address(address)
    }

    /// The number of pending writes.
    pub fn pending_len(&self) -> (n: usize)
        ensures
            n == self@.pending.len(),
    {
        self.write_cache.cache.len()
    }

    /// What the physical page at `address` holds.
    pub fn page_on_medium(&self, address: u32) -> (page: [u8; 4096])
        requires
            self.wf(),
            address < self@.disk.len(),
        ensures
            page@ == self@.disk[address as int],
    {
        let block = self.disk_manager.disk_read(address / 128);
        block[(address % 128) as usize]
    }

    /// Whether every entry of the mapping table maps a block of the user
    /// region to a used block of the reserved region that is neither the
    /// table block nor the signature block.
    fn remap_is_in_place(&self) -> (r: bool)
        ensures
            r == (forall|b: u32| #[trigger]
                self@.remap.contains_key(b) ==> {
                    &&& b <= self@.use_max
                    &&& self@.use_max < self@.remap[b] <= self@.max
                    &&& self@.remap[b] != self@.table_block
                    &&& self@.remap[b] != self@.sign_block
                    &&& self@.used.contains(self@.remap[b])
                }),
    {
        let ghost keys: Seq<u32> = self.map_v_table.keys().remaining().unref();
        for key in it: self.map_v_table.keys()
            invariant
                it.seq().unref() == keys,
                keys.to_set() == self@.remap.dom(),
                forall|i: int|
                    0 <= i < it.index() ==> {
                        let b = #[trigger] keys[i];
                        &&& b <= self@.use_max
                        &&& self@.use_max < self@.remap[b] <= self@.max
                        &&& self@.remap[b] != self@.table_block
                        &&& self@.remap[b] != self@.sign_block
                        &&& self@.used.contains(self@.remap[b])
                    },
        {
            proof {
                assert(keys[it.index() as int] == *key);
                assert(keys.to_set().contains(*key));
            }
            let value: u32 = match self.map_v_table.get(key) {
                Some(v) => *v,
                None => 0,
            };
            if *key > self.use_max_block_no || value <= self.use_max_block_no || value
                > self.max_block_no || value == self.table_block_no || value == self.sign_block_no
                || !self.used_table.contains_key(&value) {
                return false;
            }
        }
        proof {
            assert forall|b: u32| #[trigger] self@.remap.contains_key(b) implies {
                &&& b <= self@.use_max
                &&& self@.use_max < self@.remap[b] <= self@.max
                &&& self@.remap[b] != self@.table_block
                &&& self@.remap[b] != self@.sign_block
                &&& self@.used.contains(self@.remap[b])
            } by {
                assert(keys.to_set().contains(b));
                let i = choose|i: int| 0 <= i < keys.len() && keys[i] == b;
                assert(keys[i] == b);
            }
        }
        true
    }

    /// Whether no block but `key` is remapped to `value`.
    fn value_is_only_of(&self, key: u32, value: u32) -> (r: bool)
        ensures
            r == (forall|c: u32| self@.remap.contains_key(c) && c != key ==> #[trigger] self@.remap[c]
                != value),
    {
        let ghost keys: Seq<u32> = self.map_v_table.keys().remaining().unref();
        for other in it: self.map_v_table.keys()
            invariant
                it.seq().unref() == keys,
                keys.to_set() == self@.remap.dom(),
                forall|j: int|
                    0 <= j < it.index() && keys[j] != key ==> self@.remap[#[trigger] keys[j]] != value,
        {
            proof {
                assert(keys[it.index() as int] == *other);
                assert(keys.to_set().contains(*other));
            }
            let other_value: u32 = match self.map_v_table.get(other) {
                Some(v) => *v,
                None => 0,
            };
            if *other != key && other_value == value {
                return false;
            }
        }
        proof {
            assert forall|c: u32| self@.remap.contains_key(c) && c != key implies #[trigger] self@.remap[c]
                != value by {
                assert(keys.to_set().contains(c));
                let j = choose|j: int| 0 <= j < keys.len() && keys[j] == c;
                assert(keys[j] == c);
            }
        }
        true
    }

    /// Whether no two blocks are remapped to the same block.
    fn remap_is_injective(&self) -> (r: bool)
        ensures
            r == (forall|b: u32, c: u32|
                self@.remap.contains_key(b) && self@.remap.contains_key(c) && b != c
                    ==> #[trigger] self@.remap[b] != #[trigger] self@.remap[c]),
    {
        let ghost keys: Seq<u32> = self.map_v_table.keys().remaining().unref();
        for key in it: self.map_v_table.keys()
            invariant
                it.seq().unref() == keys,
                keys.to_set() == self@.remap.dom(),
                forall|i: int, c: u32|
                    0 <= i < it.index() && self@.remap.contains_key(c) && c != keys[i]
                        ==> self@.remap[#[trigger] keys[i]] != #[trigger] self@.remap[c],
        {
            proof {
                assert(keys[it.index() as int] == *key);
                assert(keys.to_set().contains(*key));
            }
            let value: u32 = match self.map_v_table.get(key) {
                Some(v) => *v,
                None => 0,
            };
            if !self.value_is_only_of(*key, value) {
                return false;
            }
        }
        proof {
            assert forall|b: u32, c: u32|
                self@.remap.contains_key(b) && self@.remap.contains_key(c) && b != c implies #[trigger] self@.remap[b]
                != #[trigger] self@.remap[c] by {
                assert(keys.to_set().contains(b));
                let i = choose|i: int| 0 <= i < keys.len() && keys[i] == b;
                assert(keys[i] == b);
            }
        }
        true
    }

    /// Whether every page that has a signature block has a signature slot,
    /// each within a block of the medium.
    fn sign_blocks_have_slots(&self) -> (r: bool)
        ensures
            r == (forall|l: u32| #[trigger]
                self@.sign_block_of.contains_key(l) ==> self@.sign_offset_of.contains_key(l)
                    && self@.sign_block_of[l] <= self@.max && self@.sign_offset_of[l] < SIGN_SLOTS),
    {
        let ghost keys: Seq<u32> = self.sign_block_map.keys().remaining().unref();
        for key in it: self.sign_block_map.keys()
            invariant
                it.seq().unref() == keys,
                keys.to_set() == self@.sign_block_of.dom(),
                forall|i: int|
                    0 <= i < it.index() ==> {
                        let l = #[trigger] keys[i];
                        &&& self@.sign_offset_of.contains_key(l)
                        &&& self@.sign_block_of[l] <= self@.max
                        &&& self@.sign_offset_of[l] < SIGN_SLOTS
                    },
        {
            proof {
                assert(keys[it.index() as int] == *key);
                assert(keys.to_set().contains(*key));
            }
            let block: u32 = match self.sign_block_map.get(key) {
                Some(b) => *b,
                None => 0,
            };
            match self.sign_offset_map.get(key) {
                Some(offset) => {
                    if block > self.max_block_no || *offset >= SIGN_SLOTS {
                        return false;
                    }
                },
                None => {
                    return false;
                },
            }
        }
        proof {
            assert forall|l: u32| #[trigger]
                self@.sign_block_of.contains_key(l) implies self@.sign_offset_of.contains_key(l)
                && self@.sign_block_of[l] <= self@.max && self@.sign_offset_of[l] < SIGN_SLOTS by {
                assert(keys.to_set().contains(l));
                let i = choose|i: int| 0 <= i < keys.len() && keys[i] == l;
                assert(keys[i] == l);
            }
        }
        true
    }

    /// Whether every page that has a signature slot has a signature block.
    fn sign_slots_have_blocks(&self) -> (r: bool)
        ensures
            r == (forall|l: u32| #[trigger]
                self@.sign_offset_of.contains_key(l) ==> self@.sign_block_of.contains_key(l)),
    {
        let ghost keys: Seq<u32> = self.sign_offset_map.keys().remaining().unref();
        for key in it: self.sign_offset_map.keys()
            invariant
                it.seq().unref() == keys,
                keys.to_set() == self@.sign_offset_of.dom(),
                forall|j: int|
                    0 <= j < it.index() ==> self@.sign_block_of.contains_key(#[trigger] keys[j]),
        {
            proof {
                assert(keys[it.index() as int] == *key);
                assert(keys.to_set().contains(*key));
            }
            if !self.sign_block_map.contains_key(key) {
                return false;
            }
        }
        proof {
            assert forall|l: u32| #[trigger]
                self@.sign_offset_of.contains_key(l) implies self@.sign_block_of.contains_key(l) by {
                assert(keys.to_set().contains(l));
                let j = choose|j: int| 0 <= j < keys.len() && keys[j] == l;
                assert(keys[j] == l);
            }
        }
        true
    }

    /// Whether every pending write is for the user region.
    fn pending_is_in_range(&self) -> (r: bool)
        requires
            self.wf(),
        ensures
            r == self@.accepts(self@.pending),
    {
        let mut i: usize = 0;
        while i < self.write_cache.cache.len()
            invariant
                self.wf(),
                i <= self@.pending.len(),
                self@.pending.len() == self.write_cache.cache@.len(),
                forall|j: int| 0 <= j < i ==> (#[trigger] self@.pending[j]).0 / 128 <= self@.use_max,
            decreases self@.pending.len() - i,
        {
            if self.write_cache.cache[i].address / 128 > self.use_max_block_no {
                proof {
                    assert(self@.pending[i as int].0 == self.write_cache.cache@[i as int].address);
                }
                return false;
            }
            proof {
                assert(self@.pending[i as int].0 == self.write_cache.cache@[i as int].address);
            }
            i = i + 1;
        }
        proof {
            assert forall|j: int| 0 <= j < self@.pending.len() implies (#[trigger] self@.pending[j]).1.len()
                == 4096 by {
                assert(self@.pending[j].1 == self.write_cache.cache@[j].data@);
            }
        }
        true
    }

    /// Whether the layer is sound, so that its operations may be called: the
    /// test to make after `with_disk` and `init` on a medium that holds data,
    /// and after a change of the geometry.
    pub fn is_sound(&self) -> (r: bool)
        requires
            self.wf(),
        ensures
            r == self.inv(),
    {
        let size: u32 = match &self.disk_manager.fake_disk {
            Some(disk) => disk.size,
            None => 0,
        };
        proof {
            assert(size == self@.disk.len());
            assert forall|i: int| 0 <= i < self@.disk.len() implies (#[trigger] self@.disk[i]).len()
                == 4096 by {}
        }
        let geometry: bool = self.use_max_block_no < self.max_block_no && (self.max_block_no as u64
            + 1) * 128 <= size as u64 && self.use_max_block_no < self.table_block_no
            && self.table_block_no <= self.max_block_no && self.use_max_block_no
            < self.sign_block_no && self.sign_block_no <= self.max_block_no && self.table_block_no
            != self.sign_block_no && self.sign_block_offset % 32 == 0 && self.sign_block_offset
            <= SIGN_ROLL;
        if !geometry {
            return false;
        }
        if self.write_cache.cache.len() >= 32 {
            return false;
        }
        self.remap_is_in_place() && self.remap_is_injective() && self.sign_blocks_have_slots()
            && self.sign_slots_have_blocks() && self.pending_is_in_range()
    }

    /// The number of entries that the mapping block lists.
    fn listing_len(&self) -> (count: u64)
        ensures
            count == self@.listing().len(),
            count <= self@.use_max + 1,
    {
        let mut count: u64 = 0;
        let mut key: u64 = 0;
        while key <= self.use_max_block_no as u64
            invariant
                key <= self@.use_max + 1,
                count == table_listing(self@.remap, key as nat).len(),
                count <= key,
            decreases self@.use_max + 1 - key,
        {
            if self.map_v_table.contains_key(&(key as u32)) {
                count = count + 1;
            }
            key = key + 1;
        }
        count
    }

    /// Whether a write of `data` to logical page `address` meets the
    /// write-once rule: where it completes a batch that can be committed, the
    /// signature page and the 32 pages that the batch writes are clean.
    pub fn can_write(&self, address: u32, data: &[u8; 4096]) -> (r: bool)
        requires
            self.inv(),
            address / 128 <= self@.use_max,
        ensures
            r == self@.write_is_clean(address, data@),
    {
        proof {
            lemma_put_accepts(self@, address, data@);
        }
        let completes: bool = !self.write_cache.contains_address(address)
            && self.write_cache.cache.len() == 31;
        if !completes {
            return true;
        }
        let sign_target: u32 = if self.sign_block_offset / 32 == 127 {
            match self.find_next_block() {
                None => {
                    return true;
                },
                Some(spare) => {
                    proof {
                        lemma_next_spare_unique(self@, spare);
                    }
                    spare * 128
                },
            }
        } else {
            self.sign_block_no * 128 + self.sign_block_offset / 32
        };
        let ghost ready = self@.ready_for_batch();
        let ghost entries = self@.pending_after(address, data@);
        proof {
            assert(sign_target == ready.sign_page_addr());
            assert(ready.disk == self@.disk);
            assert(ready.remap == self@.remap);
            lemma_batch_places(self@, entries);
        }
        if !self.disk_manager.page_is_clean(sign_target) {
            return false;
        }
        let mut batch = self.write_cache.get_all();
        batch.push((address, *data));
        proof {
            assert(as_pending(batch@) =~= entries);
        }
        let mut k: usize = 0;
        while k < 32
            invariant
                k <= 32,
                self.inv(),
                batch@.len() == 32,
                entries == as_pending(batch@),
                entries == self@.pending_after(address, data@),
                entries.len() == 32,
                self@.completes_batch(address, data@),
                !(self@.rolls_over() && !self@.has_spare()),
                ready == self@.ready_for_batch(),
                ready.disk == self@.disk,
                ready.remap == self@.remap,
                forall|j: int|
                    0 <= j < 32 ==> 0 <= self@.page_addr((#[trigger] entries[j]).0) < self@.disk.len()
                        && entries[j].0 / 128 <= self@.use_max,
                forall|j: int|
                    0 <= j < k ==> is_zero_page(#[trigger] ready.disk[ready.page_addr(entries[j].0)]),
            decreases 32 - k,
        {
            let lpa: u32 = batch[k].0;
            proof {
                assert(entries[k as int].0 == lpa);
                lemma_page_addr_in_range(self@, lpa);
            }
            let target: u32 = self.transfer(lpa / 128) * 128 + lpa % 128;
            if !self.disk_manager.page_is_clean(target) {
                proof {
                    assert(!is_zero_page(ready.disk[ready.page_addr(entries[k as int].0)]));
                }
                return false;
            }
            k = k + 1;
        }
        true
    }

    /// The physical page that receives the signatures of group `g` of a
    /// direct write, with `spare` the lowest spare where the write needs one.
    fn direct_sign_target(&self, g: u32, spare: u32) -> (at: u32)
        requires
            self.inv(),
            g < 4,
            self@.direct_rolls_over(4) ==> self@.is_next_spare(spare),
        ensures
            at == self@.direct_sign_addr(g as int),
            at < self@.disk.len(),
    {
        proof {
            if self@.direct_rolls_over(4) {
                lemma_next_spare_unique(self@, spare);
            }
            assert((self@.sign_block + 1) * 128 <= (self@.max + 1) * 128);
        }
        let slot: u32 = self.sign_block_offset + 32 * g;
        if slot < SIGN_ROLL {
            self.sign_block_no * 128 + slot / 32
        } else {
            proof {
                assert((spare + 1) * 128 <= (self@.max + 1) * 128);
            }
            spare * 128 + (slot - SIGN_ROLL) / 32
        }
    }

    /// Whether a direct write to logical block `block_no` finds every page
    /// that it writes clean: the four signature pages that it takes, and the
    /// 128 pages of the physical block that serves `block_no`. Where it does,
    /// the direct write of `data` meets the write-once rule.
    pub fn can_write_block_direct(&self, block_no: u32, data: &Array1<[u8; 4096]>) -> (r: bool)
        requires
            self.inv(),
            block_no <= self@.use_max,
            data@.len() == 128,
        ensures
            r == self@.direct_starts_clean(block_no),
            r ==> self@.direct_is_clean(block_no, page_views(data@)),
    {
        let spare: u32 = if self.sign_block_offset + 32 * 4 > SIGN_ROLL {
            match self.find_next_block() {
                None => {
                    return true;
                },
                Some(spare) => {
                    proof {
                        lemma_next_spare_unique(self@, spare);
                    }
                    spare
                },
            }
        } else {
            0
        };
        if !self.disk_manager.page_is_clean(self.direct_sign_target(0, spare)) {
            return false;
        }
        if !self.disk_manager.page_is_clean(self.direct_sign_target(1, spare)) {
            return false;
        }
        if !self.disk_manager.page_is_clean(self.direct_sign_target(2, spare)) {
            return false;
        }
        if !self.disk_manager.page_is_clean(self.direct_sign_target(3, spare)) {
            return false;
        }
        proof {
            lemma_phys_in_range(self@, block_no);
        }
        let base: u32 = self.transfer(block_no) * 128;
        let mut i: u32 = 0;
        while i < 128
            invariant
                i <= 128,
                self.inv(),
                base == self@.phys(block_no) * 128,
                base + 128 <= self@.disk.len(),
                !(self@.direct_rolls_over(4) && !self@.has_spare()),
                forall|j: int| 0 <= j < i ==> is_zero_page(#[trigger] self@.disk[base + j]),
            decreases 128 - i,
        {
            if !self.disk_manager.page_is_clean(base + i) {
                proof {
                    assert(!is_zero_page(self@.disk[self@.phys(block_no) * 128 + i]));
                }
                return false;
            }
            i = i + 1;
        }
        proof {
            assert(self@.direct_starts_clean(block_no));
            lemma_direct_clean_from_start(self@, block_no, page_views(data@));
        }
        true
    }

    /// The speed figures: read, then write.
    pub fn get_disk_speed(&self) -> (r: (u32, u32))
        ensures
            r == self.speeds(),
    {
        (self.read_speed, self.write_speed)
    }

    /// Sets the block count that the scheme policy divides by.
    pub fn set_block_num(&mut self, block_num: u32)
        ensures
            final(self)@ == (TlModel { block_num, ..old(self)@ }),
            final(self).wf() == old(self).wf(),
            final(self).speeds() == old(self).speeds(),
    {
        self.block_num = block_num;
    }

    /// Sets the last block of the user region.
    pub fn set_use_max_block_no(&mut self, use_max_block_no: u32)
        ensures
            final(self)@ == (TlModel { use_max: use_max_block_no, ..old(self)@ }),
            final(self).wf() == old(self).wf(),
            final(self).speeds() == old(self).speeds(),
    {
        self.use_max_block_no = use_max_block_no;
    }

    /// Sets the last block of the reserved region.
    pub fn set_max_block_no(&mut self, max_block_no: u32)
        ensures
            final(self)@ == (TlModel { max: max_block_no, ..old(self)@ }),
            final(self).wf() == old(self).wf(),
            final(self).speeds() == old(self).speeds(),
    {
        self.max_block_no = max_block_no;
    }

    /// The physical block that serves logical block `pla`.
    fn transfer(&self, pla: u32) -> (pba: u32)
        ensures
            pba == self@.phys(pla),
    {
        match self.map_v_table.get(&pla) {
            Some(pba) => *pba,
            None => pla,
        }
    }

    /// The scheme that the policy selects at time `now`.
    fn choose_sign_type(&self, now: Option<u64>) -> (scheme: CheckType)
        ensures
            scheme == select_scheme(
                self@.err_block_num,
                self@.block_num,
                self@.last_err_time,
                now,
            ),
    {
        if 50 * (self.err_block_num as u64) > self.block_num as u64 {
            return CheckType::Ecc;
        }
        match now {
            None => CheckType::Ecc,
            Some(time) => {
                if time < self.last_err_time || time - self.last_err_time < ECC_WINDOW {
                    CheckType::Ecc
                } else {
                    CheckType::Crc32
                }
            },
        }
    }

    /// The lowest spare block, if there is one.
    fn find_next_block(&self) -> (r: Option<u32>)
        ensures
            r is Some ==> self@.is_next_spare(r->0),
            r is None ==> !self@.has_spare(),
    {
        if self.use_max_block_no >= self.max_block_no {
            return None;
        }
        let mut block_no: u32 = self.use_max_block_no + 1;
        while block_no < self.max_block_no
            invariant
                self.use_max_block_no < block_no <= self.max_block_no,
                forall|c: u32| self.use_max_block_no < c < block_no ==> !self@.is_spare(c),
            decreases self.max_block_no - block_no,
        {
            if block_no != self.table_block_no && block_no != self.sign_block_no
                && !self.used_table.contains_key(&block_no) {
                return Some(block_no);
            }
            block_no = block_no + 1;
        }
        None
    }

    /// The signature on the medium that the maps name for `address`, if they
    /// name one.
    fn get_address_sign(&self, address: u32) -> (r: Option<Vec<u8>>)
        requires
            self.inv(),
        ensures
            r is Some <==> self@.sign_block_of.contains_key(address),
            r is Some ==> r->0@ == self@.stored_signature(address),
    {
        let sign_address: u32 = match self.sign_block_map.get(&address) {
            Some(b) => *b,
            None => {
                return None;
            },
        };
        let offset: u32 = match self.sign_offset_map.get(&address) {
            Some(o) => *o,
            None => {
                proof {
                    assert(self@.sign_block_of.contains_key(address));
                }
                return None;
            },
        };
        proof {
            assert(self@.sign_block_of.contains_key(address));
            assert((sign_address + 1) * 128 <= (self@.max + 1) * 128);
        }
        let block = self.disk_manager.disk_read(sign_address);
        let page: Page = block[(offset / 32) as usize];
        let start: usize = (offset % 32) as usize * 128;
        let mut ret: Vec<u8> = Vec::new();
        let mut i: usize = 0;
        while i < 128
            invariant
                i <= 128,
                start + 128 <= 4096,
                ret@.len() == i,
                forall|j: int| 0 <= j < i ==> ret@[j] == page@[start + j],
            decreases 128 - i,
        {
            ret.push(page[start + i]);
            i = i + 1;
        }
        proof {
            assert(block@[(offset / 32) as int]@ == self@.disk[sign_address * 128 + offset / 32]);
            assert(ret@ =~= self@.stored_signature(address));
        }
        Some(ret)
    }

    /// The new speed figure after `size` KiB went through in `duration`
    /// microseconds: six parts of the speed just seen to four of the old
    /// figure.
    fn blend_speed(old_speed: u32, size: u32, duration: u32) -> (speed: u32)
        requires
            old_speed <= SPEED_LIMIT,
            size <= 512,
            duration > 0,
        ensures
            speed == blended_speed(old_speed, size, duration),
            speed <= SPEED_LIMIT,
    {
        let len: u32 = size * 1000000 / 1024;
        let speed: u32 = len / duration;
        assert(speed <= len) by (nonlinear_arith)
            requires
                speed == len / duration,
                duration > 0,
        ;
        6 * speed / 10 + 4 * old_speed / 10
    }

    /// Takes a read of `size` KiB that took `duration` microseconds into the
    /// read figure. A time too short to measure leaves the figure as it is.
    fn update_read_speed(&mut self, size: u32, duration: Option<u128>)
        requires
            old(self).wf(),
            size <= 512,
        ensures
            final(self).wf(),
            final(self)@ == old(self)@,
            final(self).speeds().0 == next_speed(old(self).speeds().0, size, duration),
            speed_follows(old(self).speeds().0, final(self).speeds().0, size),
            final(self).speeds().1 == old(self).speeds().1,
    {
        match duration {
            Some(us) => {
                let short: u32 = (us % 0x1_0000_0000) as u32;
                if short > 0 {
                    self.read_speed = Self::blend_speed(self.read_speed, size, short);
                }
            },
            None => {},
        }
    }

    /// Takes a write of `size` KiB that took `duration` microseconds into the
    /// write figure. A time too short to measure leaves the figure as it is.
    fn update_write_speed(&mut self, size: u32, duration: Option<u128>)
        requires
            old(self).wf(),
            size <= 512,
        ensures
            final(self).wf(),
            final(self)@ == old(self)@,
            final(self).speeds().1 == next_speed(old(self).speeds().1, size, duration),
            speed_follows(old(self).speeds().1, final(self).speeds().1, size),
            final(self).speeds().0 == old(self).speeds().0,
    {
        match duration {
            Some(us) => {
                let short: u32 = (us % 0x1_0000_0000) as u32;
                if short > 0 {
                    self.write_speed = Self::blend_speed(self.write_speed, size, short);
                }
            },
            None => {},
        }
    }

    /// Rewrites the mapping block with the image `data`: erases it, then
    /// writes its 128 pages in order.
    pub fn write_table_block(&mut self, data: &Array1<u8>)
        requires
            old(self).wf(),
            data@.len() == 524288,
            (old(self)@.table_block + 1) * 128 <= old(self)@.disk.len(),
        ensures
            final(self).wf(),
            final(self)@ == (TlModel {
                disk: with_block_image(old(self)@.disk, old(self)@.table_block as int, data@),
                ..old(self)@
            }),
            final(self).speeds() == old(self).speeds(),
    {
        let table: u32 = self.table_block_no;
        self.disk_manager.disk_erase(table);
        let mut index: u32 = 0;
        while index < 128
            invariant
                index <= 128,
                data@.len() == 524288,
                self.wf(),
                table == old(self)@.table_block,
                (table + 1) * 128 <= old(self)@.disk.len(),
                self.disk_manager.pages().len() == old(self)@.disk.len(),
                self.disk_manager.block_num() == old(self).disk_manager.block_num(),
                forall|i: int|
                    0 <= i < old(self)@.disk.len() ==> #[trigger] self.disk_manager.pages()[i] == (
                    if table * 128 <= i < table * 128 + index {
                        data@.subrange((i - table * 128) * 4096, (i - table * 128) * 4096 + 4096)
                    } else if table * 128 + index <= i < table * 128 + 128 {
                        zero_page()
                    } else {
                        old(self)@.disk[i]
                    }),
                self.same_but_disk(old(self)),
            decreases 128 - index,
        {
            let start: u32 = 4096 * index;
            let mut page: Page = [0u8; 4096];
            let mut j: u32 = 0;
            while j < 4096
                invariant
                    j <= 4096,
                    index < 128,
                    start == 4096 * index,
                    data@.len() == 524288,
                    forall|k: int| 0 <= k < j ==> page@[k] == data@[start + k],
                decreases 4096 - j,
            {
                page[j as usize] = data.get(start + j);
                j = j + 1;
            }
            assert(page@ =~= data@.subrange(start as int, start + 4096));
            self.disk_manager.disk_write(table * 128 + index, page);
            index = index + 1;
        }
        assert(self@.disk =~= with_block_image(old(self)@.disk, table as int, data@));
    }

    /// Rewrites the mapping block from the table in memory.
    fn sync_map_v_table(&mut self)
        requires
            old(self).wf(),
            (old(self)@.table_block + 1) * 128 <= old(self)@.disk.len(),
            old(self)@.use_max < u32::MAX,
            old(self)@.listing().len() <= MAP_ENTRIES,
        ensures
            final(self).wf(),
            final(self)@ == (TlModel {
                disk: with_block_image(
                    old(self)@.disk,
                    old(self)@.table_block as int,
                    table_image(old(self)@.listing()),
                ),
                ..old(self)@
            }),
            final(self).speeds() == old(self).speeds(),
    {
        let mut data: Array1<u8> = Array1::new(128 * 4096);
        data.init(0);
        data.set(0, 0x22);
        data.set(1, 0x22);
        data.set(2, 0xff);
        data.set(3, 0xff);
        assert(data@ =~= table_image(table_listing(self@.remap, 0)));
        let limit: u32 = self.use_max_block_no + 1;
        let mut index: u32 = 0;
        let mut key: u32 = 0;
        while key < limit
            invariant
                key <= limit,
                limit == self@.use_max + 1,
                self@.listing().len() <= MAP_ENTRIES,
                data@.len() == 524288,
                index == table_listing(self@.remap, key as nat).len(),
                data@ == table_image(table_listing(self@.remap, key as nat)),
            decreases limit - key,
        {
            proof {
                lemma_listing_monotonic(self@.remap, (key + 1) as nat, limit as nat);
            }
            match self.map_v_table.get(&key) {
                Some(value) => {
                    let start_index: u32 = 8 + index * 8;
                    let k = to_be_bytes(key);
                    let v = to_be_bytes(*value);
                    data.set(start_index, k.0);
                    data.set(start_index + 1, k.1);
                    data.set(start_index + 2, k.2);
                    data.set(start_index + 3, k.3);
                    data.set(start_index + 4, v.0);
                    data.set(start_index + 5, v.1);
                    data.set(start_index + 6, v.2);
                    data.set(start_index + 7, v.3);
                    index = index + 1;
                    proof {
                        let before = table_listing(self@.remap, key as nat);
                        let after = table_listing(self@.remap, (key + 1) as nat);
                        assert(after == before.push((key, self@.remap[key])));
                        assert forall|i: int| 0 <= i < 524288 implies data@[i] == table_image(
                            after,
                        )[i] by {
                            if 8 <= i < 8 + 8 * before.len() {
                                assert(after[(i - 8) / 8] == before[(i - 8) / 8]);
                            }
                        }
                        assert(data@ =~= table_image(after));
                    }
                },
                None => {},
            }
            key = key + 1;
        }
        self.write_table_block(&data);
    }

    /// Looks for the first page of `block_no` that fails its check, among
    /// those marked in `should_check`. A page whose signature asks for the
    /// scheme that is not built stops the search.
    fn find_bad_page(
        &self,
        block_no: u32,
        data: &mut Array1<[u8; 4096]>,
        should_check: &Vec<bool>,
    ) -> (r: Result<Option<u32>, FlashError>)
        requires
            self.inv(),
            block_no <= self@.use_max,
            old(data)@.len() == 128,
            should_check@.len() == 128,
            forall|i: int|
                0 <= i < 128 ==> #[trigger] should_check@[i] == !pending_contains(
                    self@.pending,
                    (block_no * 128 + i) as u32,
                ),
            forall|i: int|
                0 <= i < 128 && should_check@[i] ==> (#[trigger] old(data)@[i])@ == self@.disk[self@.page_addr(
                    (block_no * 128 + i) as u32,
                )],
        ensures
            final(data)@ == old(data)@,
            final(data).spec_len() == old(data).spec_len(),
            r is Ok && r->Ok_0 is None ==> self@.block_passes(block_no),
            r is Ok && r->Ok_0 is Some ==> self@.is_first_failure(block_no, r->Ok_0->0 as int)
                && stored_scheme(self@.stored_signature((block_no * 128 + r->Ok_0->0) as u32))
                == CheckType::Crc32,
            r is Err ==> r->Err_0 == FlashError::UnimplementedScheme && !self@.block_passes(block_no)
                && stored_scheme(
                self@.stored_signature((block_no * 128 + self@.first_failure(block_no)) as u32),
            ) == CheckType::Ecc,
    {
        proof {
            assert((block_no + 1) * 128 <= (self@.max + 1) * 128);
        }
        let mut index: u32 = 0;
        while index < 128
            invariant
                index <= 128,
                self.inv(),
                block_no <= self@.use_max,
                (block_no + 1) * 128 <= u32::MAX,
                data@ == old(data)@,
                data.spec_len() == old(data).spec_len(),
                data@.len() == 128,
                should_check@.len() == 128,
                forall|i: int|
                    0 <= i < 128 ==> #[trigger] should_check@[i] == !pending_contains(
                        self@.pending,
                        (block_no * 128 + i) as u32,
                    ),
                forall|i: int|
                    0 <= i < 128 && should_check@[i] ==> (#[trigger] data@[i])@ == self@.disk[self@.page_addr(
                        (block_no * 128 + i) as u32,
                    )],
                forall|j: int| 0 <= j < index ==> !#[trigger] self@.page_fails(block_no, j),
            decreases 128 - index,
        {
            let address: u32 = block_no * 128 + index;
            if should_check[index as usize] {
                match self.get_address_sign(address) {
                    None => {},
                    Some(signature) => {
                        let page: Page = data.get(index);
                        proof {
                            lemma_page_addr_in_range(self@, address);
                            assert(page@ == data@[index as int]@);
                        }
                        if !page_is_zero(&page) {
                            match CheckCenter::check(&page, &signature) {
                                Err(e) => {
                                    proof {
                                        assert(self@.page_fails(block_no, index as int));
                                        lemma_first_failure_unique(self@, block_no, index as int);
                                    }
                                    return Err(FlashError::UnimplementedScheme);
                                },
                                Ok(ret) => {
                                    if !ret.0 {
                                        match ret.2 {
                                            None => {
                                                proof {
                                                    assert(self@.page_fails(block_no, index as int));
                                                }
                                                return Ok(Some(index));
                                            },
                                            Some(repaired) => {
                                                data.set(index, repaired);
                                            },
                                        }
                                    }
                                },
                            }
                        }
                    },
                }
            }
            index = index + 1;
        }
        Ok(None)
    }

    /// Verifies the pages of `block_no` and, where one fails, remaps the
    /// block to the lowest spare. Answers whether every page passed.
    fn check_block(
        &mut self,
        block_no: u32,
        data: &mut Array1<[u8; 4096]>,
        should_check: &Vec<bool>,
    ) -> (r: Result<bool, FlashError>)
        requires
            old(self).inv(),
            block_no <= old(self)@.use_max,
            old(data)@.len() == 128,
            should_check@.len() == 128,
            forall|i: int|
                0 <= i < 128 ==> #[trigger] should_check@[i] == !pending_contains(
                    old(self)@.pending,
                    (block_no * 128 + i) as u32,
                ),
            forall|i: int|
                0 <= i < 128 && should_check@[i] ==> (#[trigger] old(data)@[i])@ == old(
                    self,
                )@.disk[old(self)@.page_addr((block_no * 128 + i) as u32)],
        ensures
            final(self).inv(),
            final(data)@ == old(data)@,
            final(data).spec_len() == old(data).spec_len(),
            final(self).speeds() == old(self).speeds(),
            match old(self)@.read_result(block_no) {
                Ok((pages, m)) => r is Ok && final(self)@ == m && r->Ok_0 == old(self)@.block_passes(
                    block_no,
                ),
                Err(e) => r is Err && r->Err_0 == e && final(self)@ == old(self)@,
            },
    {
        let found = self.find_bad_page(block_no, data, should_check);
        match found {
            Err(e) => Err(e),
            Ok(None) => Ok(true),
            Ok(Some(index)) => {
                proof {
                    lemma_first_failure_unique(old(self)@, block_no, index as int);
                }
                match self.find_next_block() {
                    None => Err(FlashError::NoSpareBlock),
                    Some(new_block_no) => {
                        proof {
                            lemma_next_spare_unique(old(self)@, new_block_no);
                            lemma_listing_insert_length(
                                old(self)@.remap,
                                block_no,
                                new_block_no,
                                (old(self)@.use_max + 1) as nat,
                            );
                        }
                        let listed: u64 = self.listing_len();
                        let entries: u64 = if self.map_v_table.contains_key(&block_no) {
                            listed
                        } else {
                            listed + 1
                        };
                        if self.err_block_num == u32::MAX || entries > MAP_ENTRIES as u64 {
                            return Err(FlashError::RemapLimit);
                        }
                        proof {
                            lemma_remapped_inv(old(self)@, block_no, new_block_no);
                            assert((old(self)@.table_block + 1) * 128 <= (old(self)@.max + 1) * 128);
                        }
                        self.used_table.insert(new_block_no, true);
                        self.map_v_table.insert(block_no, new_block_no);
                        self.err_block_num = self.err_block_num + 1;
                        self.sync_map_v_table();
                        proof {
                            assert(self@.used =~= old(self)@.used.insert(new_block_no));
                            assert(self@ == old(self)@.remapped(block_no, new_block_no));
                        }
                        Ok(false)
                    },
                }
            },
        }
    }

    /// Reads logical block `block_no`: its 128 pages, each as the pending
    /// write for it or else as the medium holds it. Pages that came from the
    /// medium are verified; where one fails, the block is remapped before the
    /// pages are handed out.
    pub fn read(&mut self, block_no: u32) -> (r: Result<Array1<[u8; 4096]>, FlashError>)
        requires
            old(self).inv(),
            block_no <= old(self)@.use_max,
        ensures
            final(self).inv(),
            old(self)@.sealed() ==> final(self)@.sealed(),
            speed_follows(old(self).speeds().0, final(self).speeds().0, 512),
            final(self).speeds().1 == old(self).speeds().1,
            r is Ok ==> r->Ok_0@.len() == 128,
            match old(self)@.read_result(block_no) {
                Ok((pages, m)) => r is Ok && r->Ok_0.spec_len() == 128 && page_views(r->Ok_0@)
                    == pages && final(self)@ == m,
                Err(e) => r is Err && r->Err_0 == e && final(self)@ == old(self)@,
            },
            r is Ok ==> page_views(r->Ok_0@) == old(self)@.read_pages(block_no),
            r is Ok && final(self)@.err_block_num == old(self)@.err_block_num ==> old(
                self,
            )@.block_passes(block_no) && final(self)@ == old(self)@,
            old(self)@.sealed() ==> r is Ok && final(self)@ == old(self)@,
    {
        proof {
            lemma_phys_in_range(self@, block_no);
            assert((block_no + 1) * 128 <= (self@.max + 1) * 128);
        }
        let start_index: u32 = block_no * 128;
        let map_block_no: u32 = self.transfer(block_no);
        let start_time = wall_clock();
        let raw = self.disk_manager.disk_read(map_block_no);
        let mut block_data: Array1<[u8; 4096]> = transfer(&raw);
        let end_time = wall_clock();
        self.update_read_speed(512, micros_between(&start_time, &end_time));
        let mut should_check: Vec<bool> = Vec::new();
        let mut i: u32 = 0;
        while i < 128
            invariant
                i <= 128,
                self.inv(),
                self@ == old(self)@,
                speed_follows(old(self).speeds().0, self.speeds().0, 512),
                self.speeds().1 == old(self).speeds().1,
                block_no <= self@.use_max,
                start_index == block_no * 128,
                start_index + 128 <= u32::MAX,
                map_block_no == self@.phys(block_no),
                block_data.spec_len() == 128,
                block_data@.len() == 128,
                should_check@.len() == i,
                forall|j: int|
                    0 <= j < 128 ==> (#[trigger] raw@[j])@ == self@.disk[map_block_no * 128 + j],
                forall|j: int|
                    0 <= j < i ==> #[trigger] should_check@[j] == !pending_contains(
                        self@.pending,
                        (block_no * 128 + j) as u32,
                    ),
                forall|j: int|
                    0 <= j < i ==> (#[trigger] block_data@[j])@ == self@.logical_page(
                        (block_no * 128 + j) as u32,
                    ),
                forall|j: int| i <= j < 128 ==> #[trigger] block_data@[j] == raw@[j],
            decreases 128 - i,
        {
            let address: u32 = start_index + i;
            match self.write_cache.read(address) {
                Some(page) => {
                    block_data.set(i, page);
                    should_check.push(false);
                },
                None => {
                    should_check.push(true);
                },
            }
            i = i + 1;
        }
        proof {
            assert(page_views(block_data@) =~= self@.read_pages(block_no));
            assert forall|j: int| 0 <= j < 128 && should_check@[j] implies (#[trigger] block_data@[j])@
                == self@.disk[self@.page_addr((block_no * 128 + j) as u32)] by {
                assert(block_data@[j]@ == self@.logical_page((block_no * 128 + j) as u32));
            }
        }
        proof {
            if old(self)@.sealed() {
                lemma_sealed_reads_pass(old(self)@, block_no);
            }
        }
        match self.check_block(block_no, &mut block_data, &should_check) {
            Ok(passed) => Ok(block_data),
            Err(e) => Err(e),
        }
    }

    /// The signature of `data`, stored at logical address `address`, under
    /// `scheme`.
    fn set_address_sign(&self, data: &[u8; 4096], address: u32, scheme: CheckType) -> (r: Result<
        Vec<u8>,
        FlashError,
    >)
        ensures
            scheme == CheckType::Crc32 ==> r is Ok && r->Ok_0@ == crc_signature(
                crc32c(data@),
                address,
            ),
            scheme == CheckType::Ecc ==> r is Err && r->Err_0 == FlashError::UnimplementedScheme,
    {
        CheckCenter::sign(data, address, scheme)
    }

    /// Signs a batch of 32 pages: opens a new signature block where the
    /// current one is full, writes the page of 32 CRC signatures, and points
    /// the maps at them.
    fn write_sign(&mut self, data: &Vec<(u32, [u8; 4096])>)
        requires
            old(self).inv(),
            data@.len() == 32,
            old(self)@.accepts(as_pending(data@)),
            old(self)@.rolls_over() ==> old(self)@.has_spare(),
            is_zero_page(
                old(self)@.ready_for_batch().disk[old(self)@.ready_for_batch().sign_page_addr()],
            ),
        ensures
            final(self).inv(),
            final(self)@ == old(self)@.ready_for_batch().signed(as_pending(data@)),
            final(self).speeds() == old(self).speeds(),
    {
        let ghost entries = as_pending(data@);
        let mut page_data: Page = [0u8; 4096];
        if self.sign_block_offset / 32 == 127 {
            match self.find_next_block() {
                Some(spare) => {
                    proof {
                        lemma_next_spare_unique(self@, spare);
                    }
                    if !self.used_table.contains_key(&self.sign_block_no) {
                        self.used_table.insert(self.sign_block_no, true);
                    }
                    self.sign_block_no = spare;
                    self.sign_block_offset = 0;
                    proof {
                        assert(self@.used =~= old(self)@.used.insert(old(self)@.sign_block));
                    }
                },
                None => {
                    proof {
                        assert(false);
                    }
                },
            }
        }
        let ghost ready = self@;
        proof {
            assert(ready == old(self)@.ready_for_batch());
            lemma_signed_layout(old(self)@, entries, ready.sign_block);
        }
        let address: u32 = self.sign_block_no * 128 + self.sign_block_offset / 32;
        let mut index: usize = 0;
        while index < 32
            invariant
                index <= 32,
                data@.len() == 32,
                entries == as_pending(data@),
                self.wf(),
                ready.layout_ok(),
                self.speeds() == old(self).speeds(),
                self@ == (TlModel {
                    sign_block_of: note_blocks(
                        ready.sign_block_of,
                        entries,
                        index as nat,
                        ready.sign_block,
                    ),
                    sign_offset_of: note_offsets(
                        ready.sign_offset_of,
                        entries,
                        index as nat,
                        ready.sign_offset,
                    ),
                    ..ready
                }),
                forall|i: int| 0 <= i < 128 * index ==> page_data@[i] == sign_page(entries)[i],
            decreases 32 - index,
        {
            let lpa: u32 = data[index].0;
            match self.set_address_sign(&data[index].1, lpa, CheckType::Crc32) {
                Ok(signature) => {
                    let start_index: usize = index * 128;
                    let mut j: usize = 0;
                    while j < 128
                        invariant
                            j <= 128,
                            index < 32,
                            start_index == index * 128,
                            signature@.len() == 128,
                            signature@ == crc_signature(
                                crc32c(entries[index as int].1),
                                entries[index as int].0,
                            ),
                            forall|i: int|
                                0 <= i < 128 * index ==> page_data@[i] == sign_page(entries)[i],
                            forall|i: int|
                                0 <= i < j ==> page_data@[start_index + i] == signature@[i],
                        decreases 128 - j,
                    {
                        page_data[start_index + j] = signature[j];
                        j = j + 1;
                    }
                    proof {
                        assert forall|i: int| 0 <= i < 128 * (index + 1) implies page_data@[i]
                            == sign_page(entries)[i] by {
                            if i >= 128 * index {
                                assert(i / 128 == index);
                                assert(i % 128 == i - start_index);
                                assert(page_data@[start_index + (i - start_index)] == signature@[i
                                    - start_index]);
                            }
                        }
                    }
                },
                Err(e) => {
                    proof {
                        assert(false);
                    }
                },
            }
            self.sign_block_map.insert(lpa, self.sign_block_no);
            self.sign_offset_map.insert(lpa, self.sign_block_offset + index as u32);
            index = index + 1;
        }
        self.sign_block_offset = self.sign_block_offset + 32;
        proof {
            assert(page_data@ =~= sign_page(entries));
        }
        self.disk_manager.disk_write(address, page_data);
        proof {
            assert(self@ == ready.signed(entries));
        }
    }

    /// Writes the 32 pages of a batch, each to the physical page that serves
    /// its address.
    fn store_pages(&mut self, data: &Vec<(u32, [u8; 4096])>)
        requires
            old(self).inv(),
            data@.len() == 32,
            old(self)@.accepts(as_pending(data@)),
            forall|k: int|
                0 <= k < 32 ==> is_zero_page(
                    #[trigger] old(self)@.disk[old(self)@.page_addr(as_pending(data@)[k].0)],
                ),
        ensures
            final(self).inv(),
            final(self)@ == old(self)@.stored(as_pending(data@)),
            final(self).speeds() == old(self).speeds(),
    {
        let ghost entries = as_pending(data@);
        let ghost m = self@;
        proof {
            lemma_batch_places(m, entries);
            lemma_stored_layout(m, entries);
        }
        let mut index: usize = 0;
        while index < 32
            invariant
                index <= 32,
                data@.len() == 32,
                entries == as_pending(data@),
                m == old(self)@,
                m.inv(),
                m.accepts(entries),
                self.wf(),
                self.speeds() == old(self).speeds(),
                self@ == (TlModel {
                    disk: write_pages(m.disk, m.remap, entries, index as nat),
                    ..m
                }),
                forall|k: int|
                    0 <= k < 32 ==> is_zero_page(#[trigger] m.disk[m.page_addr(entries[k].0)]),
                forall|j: int|
                    0 <= j < entries.len() ==> 0 <= m.page_addr((#[trigger] entries[j]).0)
                        < m.disk.len(),
                forall|i: int, j: int|
                    0 <= i < j < entries.len() ==> m.page_addr((#[trigger] entries[i]).0)
                        != m.page_addr((#[trigger] entries[j]).0),
            decreases 32 - index,
        {
            let address: u32 = data[index].0;
            let block_no: u32 = address / 128;
            let offset: u32 = address % 128;
            let map_block_no: u32 = self.transfer(block_no);
            proof {
                assert(entries[index as int].0 == address);
                lemma_page_addr_in_range(m, address);
                lemma_write_pages_frame(m.disk, m.remap, entries, index as nat);
                let a = m.page_addr(address);
                assert forall|j: int| 0 <= j < index implies page_addr_in(
                    m.remap,
                    (#[trigger] entries[j]).0,
                ) != a by {
                    assert(m.page_addr(entries[j].0) != m.page_addr(entries[index as int].0));
                }
                assert(write_pages(m.disk, m.remap, entries, index as nat)[a] == m.disk[a]);
                assert(is_zero_page(m.disk[m.page_addr(entries[index as int].0)]));
            }
            let map_address: u32 = map_block_no * 128 + offset;
            self.disk_manager.disk_write(map_address, data[index].1);
            index = index + 1;
        }
    }

    /// Buffers a write of `data` to logical page `address`, as if the clock
    /// read `now` seconds since the epoch. The 32nd pending write commits the
    /// batch: the policy selects the scheme, the signatures are written, then
    /// the pages, and the buffer is emptied. A refusal leaves everything as it
    /// was.
    pub fn write_at(&mut self, address: u32, data: [u8; 4096], now: Option<u64>) -> (r: Result<
        (),
        FlashError,
    >)
        requires
            old(self).inv(),
            address / 128 <= old(self)@.use_max,
            old(self)@.write_is_clean(address, data@),
        ensures
            final(self).inv(),
            old(self)@.sealed() ==> final(self)@.sealed(),
            speed_follows(old(self).speeds().1, final(self).speeds().1, 128),
            final(self).speeds().0 == old(self).speeds().0,
            old(self)@.write_holds(
                address,
                data@,
                select_scheme(
                    old(self)@.err_block_num,
                    old(self)@.block_num,
                    old(self)@.last_err_time,
                    now,
                ),
                r,
                final(self)@,
            ),
            r is Ok ==> final(self)@.logical_page(address) == data@ && old(self)@.same_but_page(
                final(self)@,
                address,
            ),
            r is Err ==> final(self)@ == old(self)@,
    {
        proof {
            let m = self@;
            let scheme = select_scheme(m.err_block_num, m.block_num, m.last_err_time, now);
            lemma_put_accepts(m, address, data@);
            if m.sealed() && m.write_result(address, data@, CheckType::Crc32) is Ok {
                lemma_write_keeps_sealed(m, address, data@, CheckType::Crc32);
            }
            if m.write_result(address, data@, scheme) is Ok {
                lemma_write_then_read(m, address, data@, scheme);
                let after = m.write_result(address, data@, scheme)->Ok_0;
                assert forall|l: u32| l != address && l / 128 <= m.use_max implies #[trigger] after.logical_page(
                    l,
                ) == m.logical_page(l) by {
                    lemma_write_keeps_other_pages(m, address, data@, scheme, l);
                }
            }
        }
        let completes: bool = !self.write_cache.contains_address(address)
            && self.write_cache.cache.len() == 31;
        if !completes {
            self.write_cache.write(address, data);
            proof {
                lemma_pending_put_elements(old(self)@.pending, address, data@);
                assert(self@ == (TlModel {
                    pending: old(self)@.pending_after(address, data@),
                    ..old(self)@
                }));
            }
            return Ok(());
        }
        if self.choose_sign_type(now) == CheckType::Ecc {
            return Err(FlashError::UnimplementedScheme);
        }
        if self.sign_block_offset / 32 == 127 {
            match self.find_next_block() {
                None => {
                    return Err(FlashError::NoSpareBlock);
                },
                Some(spare) => {
                    proof {
                        lemma_next_spare_unique(self@, spare);
                    }
                },
            }
        }
        let mut batch = self.write_cache.get_all();
        batch.push((address, data));
        let ghost entries = self@.pending_after(address, data@);
        proof {
            assert(as_pending(batch@) =~= entries);
        }
        self.write_sign(&batch);
        proof {
            let ready = old(self)@.ready_for_batch();
            lemma_signed_layout(old(self)@, entries, ready.sign_block);
            lemma_batch_places(ready, entries);
            assert forall|k: int| 0 <= k < 32 implies is_zero_page(
                #[trigger] self@.disk[self@.page_addr(entries[k].0)],
            ) by {
                assert(self@.page_addr(entries[k].0) == ready.page_addr(entries[k].0));
                assert(is_zero_page(ready.disk[ready.page_addr(entries[k].0)]));
            }
        }
        let start_time = wall_clock();
        self.store_pages(&batch);
        let end_time = wall_clock();
        self.update_write_speed(32 * 4, micros_between(&start_time, &end_time));
        self.write_cache.sync();
        proof {
            assert(self@.pending =~= Seq::<(u32, Seq<u8>)>::empty());
            assert(self@ == (TlModel {
                pending: Seq::<(u32, Seq<u8>)>::empty(),
                ..old(self)@.committed(entries)
            }));
        }
        Ok(())
    }

    /// Buffers a write of `data` to logical page `address`; the 32nd pending
    /// write commits the batch. The wall clock is read for the scheme policy:
    /// whichever scheme it leads to, the write does what `write_at` does
    /// under that scheme.
    pub fn write(&mut self, address: u32, data: [u8; 4096]) -> (r: Result<(), FlashError>)
        requires
            old(self).inv(),
            address / 128 <= old(self)@.use_max,
            old(self)@.write_is_clean(address, data@),
        ensures
            final(self).inv(),
            old(self)@.sealed() ==> final(self)@.sealed(),
            speed_follows(old(self).speeds().1, final(self).speeds().1, 128),
            final(self).speeds().0 == old(self).speeds().0,
            old(self)@.write_holds(address, data@, CheckType::Crc32, r, final(self)@) || old(
                self,
            )@.write_holds(address, data@, CheckType::Ecc, r, final(self)@),
            r is Ok ==> final(self)@.logical_page(address) == data@ && old(self)@.same_but_page(
                final(self)@,
                address,
            ),
            r is Err ==> final(self)@ == old(self)@,
    {
        let now = seconds_now();
        self.write_at(address, data, now)
    }

    /// Writes the 128 pages of `data` to logical block `block_no` past the
    /// buffer, as if the clock read `now` seconds since the epoch: four
    /// batches of 32, each signed and then written. A refusal leaves
    /// everything as it was.
    pub fn write_block_direct_at(
        &mut self,
        block_no: u32,
        data: Array1<[u8; 4096]>,
        now: Option<u64>,
    ) -> (r: Result<(), FlashError>)
        requires
            old(self).inv(),
            block_no <= old(self)@.use_max,
            data@.len() == 128,
            old(self)@.direct_is_clean(block_no, page_views(data@)),
        ensures
            final(self).inv(),
            old(self)@.sealed() ==> final(self)@.sealed(),
            speed_follows(old(self).speeds().1, final(self).speeds().1, 512),
            final(self).speeds().0 == old(self).speeds().0,
            old(self)@.direct_holds(
                block_no,
                page_views(data@),
                select_scheme(
                    old(self)@.err_block_num,
                    old(self)@.block_num,
                    old(self)@.last_err_time,
                    now,
                ),
                r,
                final(self)@,
            ),
            r is Ok ==> old(self)@.same_but_block(final(self)@, block_no) && final(self)@.pending
                == old(self)@.pending,
            r is Ok && old(self)@.block_is_settled(block_no) ==> final(self)@.read_pages(block_no)
                == page_views(data@),
            r is Err ==> final(self)@ == old(self)@,
    {
        proof {
            let m = self@;
            let pages = page_views(data@);
            if m.direct_result(block_no, pages, CheckType::Crc32) is Ok {
                assert forall|l: u32| l / 128 != block_no && l / 128 <= m.use_max implies #[trigger] m.direct_committed(
                    block_no,
                    pages,
                    4,
                ).logical_page(l) == m.logical_page(l) by {
                    lemma_direct_keeps_other_blocks(m, block_no, pages, 4, l);
                }
                lemma_direct_lands(m, block_no, pages, 4);
                if m.block_is_settled(block_no) {
                    lemma_direct_then_read(m, block_no, pages, CheckType::Crc32);
                }
            }
        }
        if self.choose_sign_type(now) == CheckType::Ecc {
            return Err(FlashError::UnimplementedScheme);
        }
        if self.sign_block_offset + 32 * 4 > SIGN_ROLL {
            match self.find_next_block() {
                None => {
                    return Err(FlashError::NoSpareBlock);
                },
                Some(spare) => {
                    proof {
                        lemma_next_spare_unique(self@, spare);
                    }
                },
            }
        }
        let ghost pages = page_views(data@);
        proof {
            assert((block_no + 1) * 128 <= (self@.max + 1) * 128);
            if self@.sealed() {
                lemma_direct_keeps_sealed(self@, block_no, pages, 4);
            }
        }
        let start_time = wall_clock();
        let mut i: u32 = 0;
        while i < 4
            invariant
                i <= 4,
                data@.len() == 128,
                pages == page_views(data@),
                self.inv(),
                block_no <= self@.use_max,
                self@.use_max == old(self)@.use_max,
                (block_no + 1) * 128 <= u32::MAX,
                self@ == old(self)@.direct_committed(block_no, pages, i as nat),
                self.speeds() == old(self).speeds(),
                self@.sign_offset + 32 * (4 - i) > SIGN_ROLL ==> self@.has_spare(),
                forall|g: nat|
                    g < 4 ==> (#[trigger] old(self)@.direct_committed(
                        block_no,
                        pages,
                        g,
                    )).batch_is_clean(direct_group(block_no, pages, g as int)),
            decreases 4 - i,
        {
            let mut group_data: Vec<(u32, [u8; 4096])> = Vec::new();
            let mut j: u32 = 0;
            while j < 32
                invariant
                    j <= 32,
                    i < 4,
                    data@.len() == 128,
                    (block_no + 1) * 128 <= u32::MAX,
                    group_data@.len() == j,
                    forall|k: int|
                        0 <= k < j ==> (#[trigger] group_data@[k]).0 == block_no * 128 + i * 32 + k
                            && group_data@[k].1 == data@[i * 32 + k],
                decreases 32 - j,
            {
                let index: u32 = i * 32 + j;
                group_data.push((block_no * 128 + index, data.get(index)));
                j = j + 1;
            }
            let ghost before = self@;
            let ghost entries = direct_group(block_no, pages, i as int);
            proof {
                assert(as_pending(group_data@) =~= entries);
                assert(before == old(self)@.direct_committed(block_no, pages, i as nat));
                assert(before.batch_is_clean(entries));
                assert forall|a: int, b: int| 0 <= a < b < entries.len() implies (
                #[trigger] entries[a]).0 != (#[trigger] entries[b]).0 by {}
                assert forall|k: int| 0 <= k < entries.len() implies (#[trigger] entries[k]).0 / 128
                    <= before.use_max && entries[k].1.len() == 4096 by {
                    assert(entries[k].0 / 128 == block_no);
                }
                if before.rolls_over() {
                    assert(before.sign_offset + 32 * (4 - i) > SIGN_ROLL);
                }
            }
            let ghost spare = before.ready_for_batch().sign_block;
            self.write_sign(&group_data);
            proof {
                let ready = before.ready_for_batch();
                if before.rolls_over() {
                    assert(before.is_next_spare(before.next_spare())) by {
                        let b = choose|b: u32| before.is_spare(b);
                        lemma_least_spare(before, b);
                    }
                }
                lemma_signed_layout(before, entries, spare);
                lemma_batch_places(ready, entries);
                assert forall|k: int| 0 <= k < 32 implies is_zero_page(
                    #[trigger] self@.disk[self@.page_addr(entries[k].0)],
                ) by {
                    assert(self@.page_addr(entries[k].0) == ready.page_addr(entries[k].0));
                    assert(is_zero_page(ready.disk[ready.page_addr(entries[k].0)]));
                }
            }
            self.store_pages(&group_data);
            proof {
                assert(self@ == before.committed(entries));
                if !before.rolls_over() {
                    if self@.sign_offset + 32 * (4 - (i + 1)) > SIGN_ROLL {
                        let b = choose|b: u32| before.is_spare(b);
                        assert(self@.is_spare(b));
                    }
                }
            }
            i = i + 1;
        }
        let end_time = wall_clock();
        self.update_write_speed(512, micros_between(&start_time, &end_time));
        Ok(())
    }

    /// Writes the 128 pages of `data` to logical block `block_no` past the
    /// buffer. The wall clock is read for the scheme policy: whichever scheme
    /// it leads to, the write does what `write_block_direct_at` does under
    /// that scheme.
    pub fn write_block_direct(&mut self, block_no: u32, data: Array1<[u8; 4096]>) -> (r: Result<
        (),
        FlashError,
    >)
        requires
            old(self).inv(),
            block_no <= old(self)@.use_max,
            data@.len() == 128,
            old(self)@.direct_is_clean(block_no, page_views(data@)),
        ensures
            final(self).inv(),
            old(self)@.sealed() ==> final(self)@.sealed(),
            speed_follows(old(self).speeds().1, final(self).speeds().1, 512),
            final(self).speeds().0 == old(self).speeds().0,
            old(self)@.direct_holds(
                block_no,
                page_views(data@),
                CheckType::Crc32,
                r,
                final(self)@,
            ) || old(self)@.direct_holds(
                block_no,
                page_views(data@),
                CheckType::Ecc,
                r,
                final(self)@,
            ),
            r is Ok ==> old(self)@.same_but_block(final(self)@, block_no) && final(self)@.pending
                == old(self)@.pending,
            r is Ok && old(self)@.block_is_settled(block_no) ==> final(self)@.read_pages(block_no)
                == page_views(data@),
            r is Err ==> final(self)@ == old(self)@,
    {
        let now = seconds_now();
        self.write_block_direct_at(block_no, data, now)
    }

    /// Erases logical block `block_no`: drops its pending writes, forgets the
    /// signatures of its pages, and zeroes the physical block that serves it.
    pub fn erase(&mut self, block_no: u32)
        requires
            old(self).inv(),
            block_no <= old(self)@.use_max,
        ensures
            final(self).inv(),
            old(self)@.sealed() ==> final(self)@.sealed(),
            final(self).speeds() == old(self).speeds(),
            final(self)@ == old(self)@.erased_block(block_no),
            final(self)@.block_is_blank(block_no),
            final(self)@.block_is_settled(block_no),
            final(self)@.block_passes(block_no),
            old(self)@.same_but_block(final(self)@, block_no),
    {
        let ghost m = self@;
        proof {
            lemma_erase_then_read(m, block_no);
            assert forall|l: u32| l / 128 != block_no && l / 128 <= m.use_max implies #[trigger] m.erased_block(
                block_no,
            ).logical_page(l) == m.logical_page(l) by {
                lemma_erase_keeps_other_blocks(m, block_no, l);
            }
            lemma_phys_in_range(m, block_no);
            lemma_erased_inv(m, block_no);
            assert((block_no + 1) * 128 <= (m.max + 1) * 128);
            if m.sealed() {
                lemma_erase_keeps_sealed(m, block_no);
            }
        }
        let start_index: u32 = block_no * 128;
        proof {
            assert(m.sign_block_of.remove_keys(lpa_range(start_index as int, 0)) =~= m.sign_block_of);
            assert(m.sign_offset_of.remove_keys(lpa_range(start_index as int, 0))
                =~= m.sign_offset_of);
        }
        let mut k: u32 = 0;
        while k < 128
            invariant
                k <= 128,
                m == old(self)@,
                start_index == block_no * 128,
                start_index + 128 <= u32::MAX,
                self.disk_manager.wf(),
                self.write_cache.wf(),
                !self.write_cache.sync,
                self.read_speed <= SPEED_LIMIT,
                self.write_speed <= SPEED_LIMIT,
                self.speeds() == old(self).speeds(),
                self@ == (TlModel {
                    pending: discard_range(m.pending, start_index, k as nat),
                    sign_block_of: m.sign_block_of.remove_keys(lpa_range(start_index as int, k as int)),
                    sign_offset_of: m.sign_offset_of.remove_keys(
                        lpa_range(start_index as int, k as int),
                    ),
                    ..m
                }),
            decreases 128 - k,
        {
            let index: u32 = start_index + k;
            self.write_cache.recall_write(index);
            self.sign_block_map.remove(&index);
            self.sign_offset_map.remove(&index);
            proof {
                assert(self@.sign_block_of =~= m.sign_block_of.remove_keys(
                    lpa_range(start_index as int, k + 1),
                ));
                assert(self@.sign_offset_of =~= m.sign_offset_of.remove_keys(
                    lpa_range(start_index as int, k + 1),
                ));
            }
            k = k + 1;
        }
        let map_block_no: u32 = self.transfer(block_no);
        self.disk_manager.disk_erase(map_block_no);
        proof {
            assert(self@ == m.erased_block(block_no));
        }
    }

    /// Takes over what the reserved block `block_no`, read as `data`, holds:
    /// the entries of a mapping block, or the signatures of a signature block.
    fn init_with_block(&mut self, block_no: u32, data: Array1<[u8; 4096]>)
        requires
            old(self).wf(),
            data@.len() == 128,
            page_views(data@) == block_pages(old(self)@.disk, block_no as int),
        ensures
            final(self).wf(),
            final(self)@ == old(self)@.scanned_block(block_no),
            final(self).speeds() == old(self).speeds(),
    {
        let ghost m = self@;
        let ghost block = page_views(data@);
        let block_type = judge_block_type(&data);
        match block_type {
            BlockType::MappingTable => {
                let mut iter = MapDataRegion::new(&data);
                let mut next = iter.next();
                let ghost mut k: nat = 0;
                while next.is_some()
                    invariant
                        iter.wf(),
                        iter.block() == block,
                        self.wf(),
                        self.speeds() == old(self).speeds(),
                        k <= 65535,
                        forall|j: int| 0 <= j < k ==> #[trigger] map_entry(block, j) != (0u32, 0u32),
                        self@ == m.with_mappings(block, k),
                        next is Some ==> k < 65535 && iter.position() == k + 1 && next->0
                            == map_entry(block, k as int) && map_entry(block, k as int) != (
                            0u32,
                            0u32,
                        ),
                        next is None ==> k == 65535 || map_entry(block, k as int) == (0u32, 0u32),
                    decreases 65535 - k,
                {
                    let entry = next.unwrap();
                    self.map_v_table.insert(entry.0, entry.1);
                    self.used_table.insert(entry.1, true);
                    proof {
                        assert(self@.used =~= m.with_mappings(block, k).used.insert(entry.1));
                        k = k + 1;
                    }
                    next = iter.next();
                }
                self.used_table.insert(block_no, true);
                self.table_block_no = block_no;
                proof {
                    lemma_map_entry_count_unique(block, k as int);
                    assert(self@.used =~= m.with_mappings(block, k).used.insert(block_no));
                }
            },
            BlockType::Signature => {
                let mut iter = SignDataRegion::new(&data);
                let mut next = iter.next();
                let mut len: u32 = 0;
                while next.is_some()
                    invariant
                        iter.wf(),
                        iter.block() == block,
                        self.wf(),
                        self.speeds() == old(self).speeds(),
                        len <= 4096,
                        forall|s: int| 0 <= s < len ==> !is_blank_slot(#[trigger] sign_slot(block, s)),
                        self@ == m.with_signatures(block, block_no, len as nat),
                        next is Some ==> len < 4096 && iter.position() == len + 1 && next->0@
                            == sign_slot(block, len as int) && !is_blank_slot(
                            sign_slot(block, len as int),
                        ),
                        next is None ==> len == 4096 || is_blank_slot(sign_slot(block, len as int)),
                    decreases 4096 - len,
                {
                    let entry: [u8; 128] = next.unwrap();
                    let signature = slot_to_vec(&entry);
                    let address: u32 = CheckCenter::extract_address(&signature);
                    self.sign_block_map.insert(address, block_no);
                    self.sign_offset_map.insert(address, len);
                    len = len + 1;
                    next = iter.next();
                }
                self.used_table.insert(block_no, true);
                self.sign_block_no = block_no;
                self.sign_block_offset = len;
                proof {
                    lemma_sign_slot_count_unique(block, len as int);
                    assert(self@.used =~= m.with_signatures(block, block_no, len as nat).used.insert(
                        block_no,
                    ));
                }
            },
            _ => {},
        }
    }

    /// Start-up: examines every block of the reserved region, lowest first,
    /// and takes over the mapping table and the signatures found there.
    pub fn init(&mut self)
        requires
            old(self).wf(),
            old(self)@.use_max < old(self)@.max ==> (old(self)@.max + 1) * 128 <= old(
                self,
            )@.disk.len(),
        ensures
            final(self).wf(),
            final(self)@ == old(self)@.started(),
            final(self).speeds() == old(self).speeds(),
            final(self)@.inv() ==> final(self).inv(),
    {
        if self.use_max_block_no >= self.max_block_no {
            return ;
        }
        let ghost m = self@;
        let count: u32 = self.max_block_no - self.use_max_block_no;
        let first: u32 = self.use_max_block_no + 1;
        let mut n: u32 = 0;
        while n < count
            invariant
                n <= count,
                m == old(self)@,
                m.use_max < m.max,
                count == m.max - m.use_max,
                first == m.use_max + 1,
                (m.max + 1) * 128 <= m.disk.len(),
                self.wf(),
                self.speeds() == old(self).speeds(),
                self@.disk == m.disk,
                self@ == m.scanned(n as nat),
            decreases count - n,
        {
            let block_no: u32 = first + n;
            proof {
                assert((block_no + 1) * 128 <= (m.max + 1) * 128);
            }
            let raw = self.disk_manager.disk_read(block_no);
            let data = transfer(&raw);
            proof {
                assert(page_views(data@) =~= block_pages(self@.disk, block_no as int));
            }
            self.init_with_block(block_no, data);
            proof {
                lemma_scanned_block_keeps_disk(m.scanned(n as nat), block_no);
            }
            n = n + 1;
        }
    }
}

/// The bytes of a signature slot as a vector.
fn slot_to_vec(slot: &[u8; 128]) -> (v: Vec<u8>)
    ensures
        v@ == slot@,
{
    let mut v: Vec<u8> = Vec::new();
    let mut i: usize = 0;
    while i < 128
        invariant
            i <= 128,
            v@.len() == i,
            forall|j: int| 0 <= j < i ==> v@[j] == slot@[j],
        decreases 128 - i,
    {
        v.push(slot[i]);
        i = i + 1;
    }
    assert(v@ =~= slot@);
    v
}

} // verus!
