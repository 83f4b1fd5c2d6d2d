//! The table of block states: for each block of the user region, the state
//! of its pages, the next free page, and its wear figures.

use vstd::prelude::*;
use crate::gc::gc_define::PageUsedStatus;
use crate::util::clock::seconds_now;

verus! {

/// The wear figures of one block, as the block information table stores
/// them.
#[derive(Clone, Copy, Debug, PartialEq, Eq, Structural)]
pub struct BITSegement {
    pub last_erase_time: u64,
    pub erase_count: u32,
    pub average_age: u32,
}

/// What is known of one block.
pub struct BlockInfo {
    pub block_no: u32,
    /// The next free page of the block.
    pub reserved_offset: u32,
    /// The pages from `reserved_offset` to the end of the block.
    pub reserved_size: u32,
    pub page_states: [PageUsedStatus; 128],
    pub last_erase_time: u64,
    pub erase_count: u32,
    pub average_age: u32,
}

/// The number of live pages among the first `k` of `states`.
pub open spec fn busy_count(states: Seq<PageUsedStatus>, k: nat) -> nat
    decreases k,
{
    if k == 0 {
        0
    } else {
        busy_count(states, (k - 1) as nat) + (if states[k - 1] is Busy {
            1nat
        } else {
            0nat
        })
    }
}

impl BlockInfo {
    /// The next free page lies within the block, and `reserved_size` counts
    /// the pages from there on.
    pub open spec fn wf(&self) -> bool {
        &&& self.reserved_offset <= 128
        &&& self.reserved_size == 128 - self.reserved_offset
    }

    /// The live pages of the block: its utilisation, in 128ths.
    pub open spec fn utilize(&self) -> nat {
        busy_count(self.page_states@, 128)
    }

    /// A block without written pages.
    pub fn new(block_no: u32) -> (info: BlockInfo)
        ensures
            info.wf(),
            info.block_no == block_no,
            info.reserved_offset == 0,
            forall|i: int| 0 <= i < 128 ==> info.page_states@[i] == PageUsedStatus::Clean,
            info.last_erase_time == 0,
            info.erase_count == 0,
            info.average_age == 0,
    {
        BlockInfo {
            block_no,
            reserved_offset: 0,
            reserved_size: 128,
            page_states: [PageUsedStatus::Clean; 128],
            last_erase_time: 0,
            erase_count: 0,
            average_age: 0,
        }
    }

    /// The utilisation of the block: its live pages, out of 128.
    pub fn get_utilize_ratio(&self) -> (busy: u32)
        ensures
            busy == self.utilize(),
            busy <= 128,
    {
        let mut busy: u32 = 0;
        let mut i: usize = 0;
        while i < 128
            invariant
                i <= 128,
                busy == busy_count(self.page_states@, i as nat),
                busy <= i,
            decreases 128 - i,
        {
            match self.page_states[i] {
                PageUsedStatus::Busy(_) => {
                    busy = busy + 1;
                },
                _ => {},
            }
            i = i + 1;
        }
        busy
    }
}

/// The blocks `0 .. size` of the user region.
pub struct BlockTable {
    pub size: u32,
    pub table: Vec<BlockInfo>,
}

/// The state of a block after page `offset` was set to `status`: the page
/// has the new state, and where a clean page became live, the next free page
/// lies past it.
pub open spec fn page_set(info: BlockInfo, offset: int, status: PageUsedStatus) -> BlockInfo {
    let advanced = info.page_states@[offset] is Clean && status is Busy && info.reserved_offset
        <= offset;
    BlockInfo {
        page_states: vstd::array::spec_array_update(info.page_states, offset, status),
        reserved_offset: if advanced {
            (offset + 1) as u32
        } else {
            info.reserved_offset
        },
        reserved_size: if advanced {
            (128 - (offset + 1)) as u32
        } else {
            info.reserved_size
        },
        ..info
    }
}

impl BlockTable {
    /// The table lists `size` blocks, block `i` in place `i`, each sound, and
    /// every page address fits in 32 bits.
    pub open spec fn wf(&self) -> bool {
        &&& self.table@.len() == self.size
        &&& self.size * 128 <= u32::MAX
        &&& forall|i: int|
            0 <= i < self.size ==> (#[trigger] self.table@[i]).block_no == i && self.table@[i].wf()
    }

    /// A table of `size` blocks without written pages.
    pub fn new(size: u32) -> (table: BlockTable)
        requires
            size * 128 <= u32::MAX,
        ensures
            table.wf(),
            table.size == size,
            forall|i: int, j: int|
                0 <= i < size && 0 <= j < 128 ==> #[trigger] table.table@[i].page_states@[j]
                    == PageUsedStatus::Clean,
            forall|i: int|
                0 <= i < size ==> (#[trigger] table.table@[i]).reserved_offset == 0
                    && table.table@[i].average_age == 0 && table.table@[i].erase_count == 0
                    && table.table@[i].last_erase_time == 0,
    {
        let mut table: Vec<BlockInfo> = Vec::new();
        let mut i: u32 = 0;
        while i < size
            invariant
                i <= size,
                table@.len() == i,
                forall|k: int|
                    0 <= k < i ==> (#[trigger] table@[k]).block_no == k && table@[k].wf()
                        && table@[k].reserved_offset == 0 && table@[k].average_age == 0
                        && table@[k].erase_count == 0 && table@[k].last_erase_time == 0,
                forall|k: int, j: int|
                    0 <= k < i && 0 <= j < 128 ==> #[trigger] table@[k].page_states@[j]
                        == PageUsedStatus::Clean,
            decreases size - i,
        {
            table.push(BlockInfo::new(i));
            i = i + 1;
        }
        BlockTable { size, table }
    }

    /// The state of logical page `address`.
    pub fn get_page(&self, address: u32) -> (status: PageUsedStatus)
        requires
            self.wf(),
            address / 128 < self.size,
        ensures
            status == self.table@[address as int / 128].page_states@[address as int % 128],
    {
        self.table[(address / 128) as usize].page_states[(address % 128) as usize]
    }

    /// Sets the state of logical page `address`. Where a clean page at or
    /// past the next free page becomes live, the next free page moves past
    /// it.
    pub fn set_page(&mut self, address: u32, status: PageUsedStatus)
        requires
            old(self).wf(),
            address / 128 < old(self).size,
        ensures
            final(self).wf(),
            final(self).size == old(self).size,
            final(self).table@[address as int / 128].page_states@ == old(self).table@[address as int
                / 128].page_states@.update(address as int % 128, status),
            final(self).table@ == old(self).table@.update(
                address as int / 128,
                final(self).table@[address as int / 128],
            ),
            final(self).table@[address as int / 128].reserved_offset == page_set(
                old(self).table@[address as int / 128],
                address as int % 128,
                status,
            ).reserved_offset,
            final(self).table@[address as int / 128].reserved_size == page_set(
                old(self).table@[address as int / 128],
                address as int % 128,
                status,
            ).reserved_size,
            final(self).table@[address as int / 128].last_erase_time == old(self).table@[address as int
                / 128].last_erase_time,
            final(self).table@[address as int / 128].erase_count == old(self).table@[address as int
                / 128].erase_count,
            final(self).table@[address as int / 128].average_age == old(self).table@[address as int
                / 128].average_age,
    {
        let block: usize = (address / 128) as usize;
        let offset: u32 = address % 128;
        let mut states: [PageUsedStatus; 128] = self.table[block].page_states;
        let was_clean: bool = match states[offset as usize] {
            PageUsedStatus::Clean => true,
            _ => false,
        };
        let becomes_busy: bool = match status {
            PageUsedStatus::Busy(_) => true,
            _ => false,
        };
        states[offset as usize] = status;
        let old_offset: u32 = self.table[block].reserved_offset;
        let advanced: bool = was_clean && becomes_busy && old_offset <= offset;
        let info = BlockInfo {
            block_no: self.table[block].block_no,
            reserved_offset: if advanced {
                offset + 1
            } else {
                old_offset
            },
            reserved_size: if advanced {
                128 - (offset + 1)
            } else {
                self.table[block].reserved_size
            },
            page_states: states,
            last_erase_time: self.table[block].last_erase_time,
            erase_count: self.table[block].erase_count,
            average_age: self.table[block].average_age,
        };
        self.table[block] = info;
    }

    /// What is known of block `block_no`.
    pub fn get_block_info(&self, block_no: u32) -> (info: &BlockInfo)
        requires
            self.wf(),
            block_no < self.size,
        ensures
            *info == self.table@[block_no as int],
    {
        &self.table[block_no as usize]
    }

    /// Sets the time of the last erase of block `block_no`.
    pub fn set_last_erase_time(&mut self, block_no: u32, last_erase_time: u64)
        requires
            old(self).wf(),
            block_no < old(self).size,
        ensures
            final(self).wf(),
            final(self).size == old(self).size,
            final(self).table@ == old(self).table@.update(
                block_no as int,
                (BlockInfo { last_erase_time, ..old(self).table@[block_no as int] }),
            ),
    {
        let old_info = &self.table[block_no as usize];
        let info = BlockInfo {
            block_no: old_info.block_no,
            reserved_offset: old_info.reserved_offset,
            reserved_size: old_info.reserved_size,
            page_states: old_info.page_states,
            last_erase_time,
            erase_count: old_info.erase_count,
            average_age: old_info.average_age,
        };
        self.table[block_no as usize] = info;
    }

    /// Sets the erase count of block `block_no`.
    pub fn set_erase_count(&mut self, block_no: u32, erase_count: u32)
        requires
            old(self).wf(),
            block_no < old(self).size,
        ensures
            final(self).wf(),
            final(self).size == old(self).size,
            final(self).table@ == old(self).table@.update(
                block_no as int,
                (BlockInfo { erase_count, ..old(self).table@[block_no as int] }),
            ),
    {
        let old_info = &self.table[block_no as usize];
        let info = BlockInfo {
            block_no: old_info.block_no,
            reserved_offset: old_info.reserved_offset,
            reserved_size: old_info.reserved_size,
            page_states: old_info.page_states,
            last_erase_time: old_info.last_erase_time,
            erase_count,
            average_age: old_info.average_age,
        };
        self.table[block_no as usize] = info;
    }

    /// Sets the average age of the pages of block `block_no`.
    pub fn set_average_age(&mut self, block_no: u32, average_age: u32)
        requires
            old(self).wf(),
            block_no < old(self).size,
        ensures
            final(self).wf(),
            final(self).size == old(self).size,
            final(self).table@ == old(self).table@.update(
                block_no as int,
                (BlockInfo { average_age, ..old(self).table@[block_no as int] }),
            ),
    {
        let old_info = &self.table[block_no as usize];
        let info = BlockInfo {
            block_no: old_info.block_no,
            reserved_offset: old_info.reserved_offset,
            reserved_size: old_info.reserved_size,
            page_states: old_info.page_states,
            last_erase_time: old_info.last_erase_time,
            erase_count: old_info.erase_count,
            average_age,
        };
        self.table[block_no as usize] = info;
    }

    /// Records an erase of block `block_no` at time `now`, in seconds since
    /// the epoch: every page clean, the whole block free, one more erase
    /// counted.
    pub fn erase_block_at(&mut self, block_no: u32, now: u64)
        requires
            old(self).wf(),
            block_no < old(self).size,
            old(self).table@[block_no as int].erase_count < u32::MAX,
        ensures
            final(self).wf(),
            final(self).size == old(self).size,
            final(self).table@ == old(self).table@.update(
                block_no as int,
                final(self).table@[block_no as int],
            ),
            forall|j: int|
                0 <= j < 128 ==> final(self).table@[block_no as int].page_states@[j]
                    == PageUsedStatus::Clean,
            final(self).table@[block_no as int].reserved_offset == 0,
            final(self).table@[block_no as int].reserved_size == 128,
            final(self).table@[block_no as int].last_erase_time == now,
            final(self).table@[block_no as int].erase_count == old(self).table@[block_no as int].erase_count
                + 1,
            final(self).table@[block_no as int].average_age == old(self).table@[block_no as int].average_age,
            final(self).table@[block_no as int].block_no == block_no,
    {
        let old_info = &self.table[block_no as usize];
        let info = BlockInfo {
            block_no: old_info.block_no,
            reserved_offset: 0,
            reserved_size: 128,
            page_states: [PageUsedStatus::Clean; 128],
            last_erase_time: now,
            erase_count: old_info.erase_count + 1,
            average_age: old_info.average_age,
        };
        self.table[block_no as usize] = info;
    }

    /// Records an erase of block `block_no` at the time that the wall clock
    /// reads; a clock before the epoch counts as the epoch.
    pub fn erase_block(&mut self, block_no: u32)
        requires
            old(self).wf(),
            block_no < old(self).size,
            old(self).table@[block_no as int].erase_count < u32::MAX,
        ensures
            final(self).wf(),
            final(self).size == old(self).size,
            final(self).table@ == old(self).table@.update(
                block_no as int,
                final(self).table@[block_no as int],
            ),
            forall|j: int|
                0 <= j < 128 ==> final(self).table@[block_no as int].page_states@[j]
                    == PageUsedStatus::Clean,
            final(self).table@[block_no as int].reserved_offset == 0,
            final(self).table@[block_no as int].reserved_size == 128,
            final(self).table@[block_no as int].erase_count == old(self).table@[block_no as int].erase_count
                + 1,
            final(self).table@[block_no as int].average_age == old(self).table@[block_no as int].average_age,
            final(self).table@[block_no as int].block_no == block_no,
    {
        let now: u64 = match seconds_now() {
            Some(t) => t,
            None => 0,
        };
        self.erase_block_at(block_no, now);
    }
}

} // verus!
