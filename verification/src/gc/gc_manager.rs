//! The garbage collector's planner. It reads the block table, picks a victim
//! block, and lays out the plan that reclaims it: a move for each run of live
//! pages that belong to one inode, then the erase of the victim. It changes
//! no block itself; the executor of the plan does.

use vstd::prelude::*;
use crate::gc::block_table::{BITSegement, BlockInfo, BlockTable};
use crate::gc::gc_define::{GCStrategy, PageUsedStatus, COLDAGEKEY, HOTAGEKEY};
use crate::gc::gc_event::{EraseGCEvent, GCEvent, GCEventGroup, MoveGCEvent};

verus! {

/// The blocks of the table that `GCManager::new` makes.
pub const GC_BLOCKS: u32 = 8;

/// A run of live pages of one inode within a block: the pages from `start`
/// to `start + size`, counted within the block.
#[derive(Clone, Copy, Debug, PartialEq, Eq, Structural)]
pub struct Run {
    pub ino: u32,
    pub size: u32,
    pub start: u32,
}

/// Page `p` of the block lies in the run.
pub open spec fn run_holds(r: Run, p: int) -> bool {
    r.start <= p < r.start + r.size
}

/// The run is a stretch of pages that are live for its inode, and no longer
/// stretch is: the page before it and the page after it, where there is one,
/// are not live for that inode.
pub open spec fn is_run(states: Seq<PageUsedStatus>, r: Run) -> bool {
    &&& r.size >= 1
    &&& r.start + r.size <= 128
    &&& forall|p: int| r.start <= p < r.start + r.size ==> states[p] == PageUsedStatus::Busy(r.ino)
    &&& (r.start == 0 || states[r.start - 1] != PageUsedStatus::Busy(r.ino))
    &&& (r.start + r.size == 128 || states[r.start + r.size] != PageUsedStatus::Busy(r.ino))
}

/// Page `p` lies in one of the runs.
pub open spec fn covered(runs: Seq<Run>, p: int) -> bool {
    exists|i: int| 0 <= i < runs.len() && run_holds(#[trigger] runs[i], p)
}

/// `runs` lists the runs of live pages of a block, in page order: each is a
/// run, they follow one another without overlap, and every live page lies in
/// one of them.
pub open spec fn is_run_list(states: Seq<PageUsedStatus>, runs: Seq<Run>) -> bool {
    &&& forall|i: int| 0 <= i < runs.len() ==> is_run(states, #[trigger] runs[i])
    &&& forall|i: int, j: int|
        0 <= i < j < runs.len() ==> (#[trigger] runs[i]).start + runs[i].size <= (
        #[trigger] runs[j]).start
    &&& forall|p: int| 0 <= p < 128 && states[p] is Busy ==> #[trigger] covered(runs, p)
}

/// The block has room for `size` pages and is not the one to leave out.
pub open spec fn fits(info: BlockInfo, size: u32, except: Option<u32>) -> bool {
    info.reserved_size >= size && (except is None || info.block_no != except->0)
}

/// Block `i` is the first of the table that fits.
pub open spec fn is_first_fit(table: Seq<BlockInfo>, size: u32, except: Option<u32>, i: int) -> bool {
    &&& 0 <= i < table.len()
    &&& fits(table[i], size, except)
    &&& forall|j: int| 0 <= j < i ==> !fits(#[trigger] table[j], size, except)
}

/// Some block of the table fits.
pub open spec fn has_fit(table: Seq<BlockInfo>, size: u32, except: Option<u32>) -> bool {
    exists|i: int| 0 <= i < table.len() && fits(#[trigger] table[i], size, except)
}

/// The next free page of the first block that fits.
pub open spec fn first_fit_addr(table: Seq<BlockInfo>, size: u32, except: Option<u32>) -> int {
    let i = choose|i: int| is_first_fit(table, size, except, i);
    table[i].block_no * 128 + table[i].reserved_offset
}

/// The first block that fits is unique.
pub proof fn lemma_first_fit_unique(
    table: Seq<BlockInfo>,
    size: u32,
    except: Option<u32>,
    i: int,
)
    requires
        is_first_fit(table, size, except, i),
    ensures
        has_fit(table, size, except),
        first_fit_addr(table, size, except) == table[i].block_no * 128 + table[i].reserved_offset,
{
    let c = choose|c: int| is_first_fit(table, size, except, c);
    assert(is_first_fit(table, size, except, c));
    if c < i {
        assert(!fits(table[c], size, except));
    } else if i < c {
        assert(!fits(table[i], size, except));
    }
}

/// Block `v` is the victim: no block of the table has a lower utilisation,
/// and every block before it has a higher one.
pub open spec fn is_victim(table: Seq<BlockInfo>, v: int) -> bool {
    &&& 0 <= v < table.len()
    &&& forall|j: int|
        0 <= j < table.len() ==> table[v].utilize() <= (#[trigger] table[j]).utilize()
    &&& forall|j: int| 0 <= j < v ==> table[v].utilize() < (#[trigger] table[j]).utilize()
}

/// The victim of the table: the first of the blocks whose utilisation is
/// lowest.
pub open spec fn victim(table: Seq<BlockInfo>) -> int {
    choose|v: int| is_victim(table, v)
}

/// The victim is unique.
pub proof fn lemma_victim_unique(table: Seq<BlockInfo>, v: int)
    requires
        is_victim(table, v),
    ensures
        victim(table) == v,
{
    let c = victim(table);
    assert(is_victim(table, c));
    if c < v {
        assert(table[v].utilize() < table[c].utilize());
        assert(table[c].utilize() <= table[v].utilize());
    } else if v < c {
        assert(table[c].utilize() < table[v].utilize());
        assert(table[v].utilize() <= table[c].utilize());
    }
}

/// The class of a block by the average age of its pages: 0 for hot (younger
/// than a day), 2 for cold (older than fourteen days), 1 for the rest.
pub open spec fn age_class(age: u32) -> int {
    if age > COLDAGEKEY {
        2
    } else if age < HOTAGEKEY {
        0
    } else {
        1
    }
}

/// The blocks of class `class` among the first `k` of the table, in table
/// order.
pub open spec fn blocks_of_class(table: Seq<BlockInfo>, k: nat, class: int) -> Seq<u32>
    decreases k,
{
    if k == 0 {
        Seq::empty()
    } else {
        let rest = blocks_of_class(table, (k - 1) as nat, class);
        if age_class(table[k - 1].average_age) == class {
            rest.push((k - 1) as u32)
        } else {
            rest
        }
    }
}

/// The runs that the moves of a plan for block `victim` describe.
pub open spec fn plan_runs(events: Seq<GCEvent>, victim: u32) -> Seq<Run> {
    Seq::new(
        (events.len() - 1) as nat,
        |i: int|
            Run {
                ino: events[i]->Move_0.ino,
                size: events[i]->Move_0.size,
                start: (events[i]->Move_0.o_address - victim * 128) as u32,
            },
    )
}

/// `events` is the plan that reclaims block `victim`: one move for each run
/// of live pages of the victim, in page order, each to the next free page of
/// the first other block that has room for the run, and then the erase of
/// the victim. The steps are numbered from 0.
pub open spec fn is_plan(table: Seq<BlockInfo>, victim: u32, events: Seq<GCEvent>) -> bool {
    let n = events.len() - 1;
    &&& events.len() >= 1
    &&& events[n] == GCEvent::Erase(EraseGCEvent { index: n as u32, block_no: victim })
    &&& forall|i: int|
        0 <= i < n ==> (#[trigger] events[i]) is Move && events[i]->Move_0.index == i
            && events[i]->Move_0.o_address >= victim * 128 && has_fit(
            table,
            events[i]->Move_0.size,
            Some(victim),
        ) && events[i]->Move_0.d_address == first_fit_addr(
            table,
            events[i]->Move_0.size,
            Some(victim),
        )
    &&& is_run_list(table[victim as int].page_states@, plan_runs(events, victim))
}

/// Every run of live pages of block `victim` finds room in another block.
pub open spec fn plan_fits(table: Seq<BlockInfo>, victim: u32) -> bool {
    forall|r: Run|
        is_run(table[victim as int].page_states@, r) ==> has_fit(table, #[trigger] r.size, Some(victim))
}

/// The garbage collector's planner.
pub struct GCManager {
    need_sync: bool,
    hot_blocks: Vec<u32>,
    normal_blocks: Vec<u32>,
    cold_blocks: Vec<u32>,
    block_table: BlockTable,
}

impl GCManager {
    /// The block table.
    pub closed spec fn table(&self) -> Seq<BlockInfo> {
        self.block_table.table@
    }

    /// The hot, the normal and the cold blocks, as last classified.
    pub closed spec fn classes(&self) -> (Seq<u32>, Seq<u32>, Seq<u32>) {
        (self.hot_blocks@, self.normal_blocks@, self.cold_blocks@)
    }

    /// The blocks are still to be classified.
    pub closed spec fn needs_sync(&self) -> bool {
        self.need_sync
    }

    /// The block table is sound.
    pub closed spec fn wf(&self) -> bool {
        self.block_table.wf()
    }

    /// The table lists each block in its place, each with its free pages
    /// counted from its next free page, and every page address fits in 32
    /// bits.
    pub proof fn lemma_wf_table(&self)
        requires
            self.wf(),
        ensures
            self.table().len() * 128 <= u32::MAX,
            forall|i: int|
                0 <= i < self.table().len() ==> (#[trigger] self.table()[i]).block_no == i
                    && self.table()[i].wf(),
    {
    }

    /// A planner over a table of eight blocks without written pages, not yet
    /// classified.
    pub fn new() -> (manager: GCManager)
        ensures
            manager.wf(),
            manager.needs_sync(),
            manager.classes() == (Seq::<u32>::empty(), Seq::<u32>::empty(), Seq::<u32>::empty()),
            manager.table().len() == GC_BLOCKS,
            forall|i: int, j: int|
                0 <= i < GC_BLOCKS && 0 <= j < 128 ==> #[trigger] manager.table()[i].page_states@[j]
                    == PageUsedStatus::Clean,
            forall|i: int|
                0 <= i < GC_BLOCKS ==> (#[trigger] manager.table()[i]).reserved_offset == 0
                    && manager.table()[i].reserved_size == 128 && manager.table()[i].block_no == i
                    && manager.table()[i].average_age == 0 && manager.table()[i].erase_count == 0
                    && manager.table()[i].last_erase_time == 0,
    {
        GCManager {
            need_sync: true,
            hot_blocks: Vec::new(),
            normal_blocks: Vec::new(),
            cold_blocks: Vec::new(),
            block_table: BlockTable::new(8),
        }
    }

    /// The next free page of the first block that has room for `size` pages,
    /// if any has.
    pub fn find_next_pos_to_write(&self, size: u32) -> (r: Option<u32>)
        requires
            self.wf(),
        ensures
            r is Some <==> has_fit(self.table(), size, None),
            r is Some ==> r->0 == first_fit_addr(self.table(), size, None),
    {
        self.first_fit(size, None)
    }

    /// The next free page of the first block that has room for `size` pages
    /// and is not `except`, if any is.
    fn first_fit(&self, size: u32, except: Option<u32>) -> (r: Option<u32>)
        requires
            self.wf(),
        ensures
            r is Some <==> has_fit(self.table(), size, except),
            r is Some ==> r->0 == first_fit_addr(self.table(), size, except),
    {
        let mut i: usize = 0;
        while i < self.block_table.table.len()
            invariant
                self.wf(),
                i <= self.block_table.table@.len(),
                forall|j: int| 0 <= j < i ==> !fits(#[trigger] self.table()[j], size, except),
            decreases self.block_table.table@.len() - i,
        {
            let block = &self.block_table.table[i];
            let left_out: bool = match except {
                Some(no) => block.block_no == no,
                None => false,
            };
            if block.reserved_size >= size && !left_out {
                proof {
                    lemma_first_fit_unique(self.table(), size, except, i as int);
                    assert(self.table()[i as int].block_no == i && self.table()[i as int].wf());
                }
                let offset: u32 = block.reserved_offset;
                return Some(block.block_no * 128 + offset);
            }
            i = i + 1;
        }
        None
    }

    /// The plan that reclaims the victim block. The blocks are classified
    /// first, where they were not yet.
    pub fn new_gc_event(&mut self, strategy: GCStrategy) -> (group: GCEventGroup)
        requires
            old(self).wf(),
            old(self).table().len() > 0,
            plan_fits(old(self).table(), victim(old(self).table()) as u32),
        ensures
            final(self).wf(),
            final(self).table() == old(self).table(),
            is_plan(old(self).table(), victim(old(self).table()) as u32, group.events@),
            !final(self).needs_sync(),
            final(self).classes() == old(self).classes_after_sync(),
    {
        self.sync();
        let block_no: u32 = self.choose_gc_block(strategy);
        self.generate_gc_group(block_no)
    }

    /// Whether the plan that reclaims the victim block can be laid out: every
    /// run of live pages of the victim finds room in another block.
    pub fn can_plan(&self) -> (r: bool)
        requires
            self.wf(),
            self.table().len() > 0,
        ensures
            r == plan_fits(self.table(), victim(self.table()) as u32),
    {
        let block_no: u32 = self.choose_gc_block(GCStrategy::Forward);
        let runs = self.collect_runs(block_no);
        let ghost states = self.table()[block_no as int].page_states@;
        let mut i: usize = 0;
        while i < runs.len()
            invariant
                self.wf(),
                i <= runs@.len(),
                block_no == victim(self.table()),
                block_no < self.table().len(),
                states == self.table()[block_no as int].page_states@,
                is_run_list(states, runs@),
                forall|k: int|
                    0 <= k < i ==> has_fit(self.table(), (#[trigger] runs@[k]).size, Some(block_no)),
            decreases runs@.len() - i,
        {
            if self.find_next_pos_to_write_except(runs[i].size, block_no).is_none() {
                proof {
                    assert(is_run(states, runs@[i as int]));
                }
                return false;
            }
            i = i + 1;
        }
        proof {
            assert forall|r: Run| is_run(states, r) implies has_fit(
                self.table(),
                #[trigger] r.size,
                Some(block_no),
            ) by {
                lemma_run_is_listed(states, runs@, r);
                let k = choose|k: int| 0 <= k < runs@.len() && runs@[k] == r;
                assert(has_fit(self.table(), runs@[k].size, Some(block_no)));
            }
        }
        true
    }

    /// The state of logical page `address`.
    pub fn get_page(&self, address: u32) -> (status: PageUsedStatus)
        requires
            self.wf(),
            address / 128 < self.table().len(),
        ensures
            status == self.table()[address as int / 128].page_states@[address as int % 128],
    {
        self.block_table.get_page(address)
    }

    /// Sets the state of logical page `address`. Where a clean page at or
    /// past the next free page of its block becomes live, the next free page
    /// moves past it.
    pub fn set_page(&mut self, address: u32, status: PageUsedStatus)
        requires
            old(self).wf(),
            address / 128 < old(self).table().len(),
        ensures
            final(self).wf(),
            final(self).needs_sync() == old(self).needs_sync(),
            final(self).classes() == old(self).classes(),
            final(self).table() == old(self).table().update(
                address as int / 128,
                final(self).table()[address as int / 128],
            ),
            final(self).table()[address as int / 128].page_states@ == old(self).table()[address as int
                / 128].page_states@.update(address as int % 128, status),
            final(self).table()[address as int / 128].reserved_offset
                == crate::gc::block_table::page_set(
                old(self).table()[address as int / 128],
                address as int % 128,
                status,
            ).reserved_offset,
            final(self).table()[address as int / 128].reserved_size
                == crate::gc::block_table::page_set(
                old(self).table()[address as int / 128],
                address as int % 128,
                status,
            ).reserved_size,
            final(self).table()[address as int / 128].average_age == old(self).table()[address as int
                / 128].average_age,
            final(self).table()[address as int / 128].erase_count == old(self).table()[address as int
                / 128].erase_count,
            final(self).table()[address as int / 128].last_erase_time == old(self).table()[address as int
                / 128].last_erase_time,
    {
        self.block_table.set_page(address, status);
    }

    /// What is known of block `block_no`.
    pub fn get_block_info(&self, block_no: u32) -> (info: &BlockInfo)
        requires
            self.wf(),
            block_no < self.table().len(),
        ensures
            *info == self.table()[block_no as int],
    {
        self.block_table.get_block_info(block_no)
    }

    /// Sets the wear figures of block `block_no` from its segment of the
    /// block information table.
    pub fn set_block_info(&mut self, block_no: u32, segment: BITSegement)
        requires
            old(self).wf(),
            block_no < old(self).table().len(),
        ensures
            final(self).wf(),
            final(self).needs_sync() == old(self).needs_sync(),
            final(self).classes() == old(self).classes(),
            final(self).table() == old(self).table().update(
                block_no as int,
                (BlockInfo {
                    last_erase_time: segment.last_erase_time,
                    erase_count: segment.erase_count,
                    average_age: segment.average_age,
                    ..old(self).table()[block_no as int]
                }),
            ),
    {
        self.block_table.set_last_erase_time(block_no, segment.last_erase_time);
        self.block_table.set_erase_count(block_no, segment.erase_count);
        self.block_table.set_average_age(block_no, segment.average_age);
        assert(self.table() =~= old(self).table().update(
            block_no as int,
            (BlockInfo {
                last_erase_time: segment.last_erase_time,
                erase_count: segment.erase_count,
                average_age: segment.average_age,
                ..old(self).table()[block_no as int]
            }),
        ));
    }

    /// Records an erase of block `block_no` at the time that the wall clock
    /// reads: every page clean, the whole block free, one more erase counted.
    pub fn erase_block(&mut self, block_no: u32)
        requires
            old(self).wf(),
            block_no < old(self).table().len(),
            old(self).table()[block_no as int].erase_count < u32::MAX,
        ensures
            final(self).wf(),
            final(self).needs_sync() == old(self).needs_sync(),
            final(self).classes() == old(self).classes(),
            final(self).table() == old(self).table().update(
                block_no as int,
                final(self).table()[block_no as int],
            ),
            forall|j: int|
                0 <= j < 128 ==> final(self).table()[block_no as int].page_states@[j]
                    == PageUsedStatus::Clean,
            final(self).table()[block_no as int].reserved_offset == 0,
            final(self).table()[block_no as int].reserved_size == 128,
            final(self).table()[block_no as int].erase_count == old(self).table()[block_no as int].erase_count
                + 1,
            final(self).table()[block_no as int].average_age == old(self).table()[block_no as int].average_age,
    {
        self.block_table.erase_block(block_no);
    }

    /// The classes after the blocks were classified, where they were still
    /// to be: each class gains its blocks, in table order.
    pub open spec fn classes_after_sync(&self) -> (Seq<u32>, Seq<u32>, Seq<u32>) {
        if self.needs_sync() {
            (
                self.classes().0 + blocks_of_class(self.table(), self.table().len(), 0),
                self.classes().1 + blocks_of_class(self.table(), self.table().len(), 1),
                self.classes().2 + blocks_of_class(self.table(), self.table().len(), 2),
            )
        } else {
            self.classes()
        }
    }

    /// The runs of live pages of block `block_no`, in page order.
    fn collect_runs(&self, block_no: u32) -> (runs: Vec<Run>)
        requires
            self.wf(),
            block_no < self.table().len(),
        ensures
            is_run_list(self.table()[block_no as int].page_states@, runs@),
            runs@.len() <= 128,
    {
        let ghost states = self.table()[block_no as int].page_states@;
        let start_index: u32 = block_no * 128;
        let mut used_entries: Vec<Run> = Vec::new();
        let mut last_entry: Option<(u32, u32)> = None;
        let mut size: u32 = 0;
        let mut p: u32 = 0;
        while p < 128
            invariant
                p <= 128,
                self.wf(),
                block_no < self.table().len(),
                start_index == block_no * 128,
                states == self.table()[block_no as int].page_states@,
                used_entries@.len() <= p,
                forall|i: int|
                    0 <= i < used_entries@.len() ==> is_run(states, #[trigger] used_entries@[i]),
                forall|i: int, j: int|
                    0 <= i < j < used_entries@.len() ==> (#[trigger] used_entries@[i]).start
                        + used_entries@[i].size <= (#[trigger] used_entries@[j]).start,
                last_entry is Some ==> {
                    let opened = last_entry->0;
                    let ino = opened.0;
                    let start = opened.1;
                    &&& start < p
                    &&& size == p - start
                    &&& used_entries@.len() <= start
                    &&& forall|q: int| start <= q < p ==> states[q] == PageUsedStatus::Busy(ino)
                    &&& (start == 0 || states[start - 1] != PageUsedStatus::Busy(ino))
                    &&& forall|i: int|
                        0 <= i < used_entries@.len() ==> (#[trigger] used_entries@[i]).start
                            + used_entries@[i].size <= start
                    &&& forall|q: int|
                        0 <= q < start && states[q] is Busy ==> #[trigger] covered(used_entries@, q)
                },
                last_entry is None ==> {
                    &&& (p == 0 || !(states[p - 1] is Busy))
                    &&& forall|i: int|
                        0 <= i < used_entries@.len() ==> (#[trigger] used_entries@[i]).start
                            + used_entries@[i].size <= p
                    &&& forall|q: int|
                        0 <= q < p && states[q] is Busy ==> #[trigger] covered(used_entries@, q)
                },
            decreases 128 - p,
        {
            let status = self.block_table.get_page(start_index + p);
            assert(status == states[p as int]);
            let ghost before = used_entries@;
            match status {
                PageUsedStatus::Busy(ino) => {
                    match last_entry {
                        Some((current, start)) => {
                            if current == ino {
                                size = size + 1;
                            } else {
                                let run = Run { ino: current, size, start };
                                used_entries.push(run);
                                last_entry = Some((ino, p));
                                size = 1;
                                proof {
                                    lemma_push_run(states, before, run, p as int);
                                }
                            }
                        },
                        None => {
                            last_entry = Some((ino, p));
                            size = 1;
                        },
                    }
                },
                _ => {
                    match last_entry {
                        Some((current, start)) => {
                            let run = Run { ino: current, size, start };
                            used_entries.push(run);
                            last_entry = None;
                            size = 0;
                            proof {
                                lemma_push_run(states, before, run, p as int);
                                assert forall|q: int|
                                    0 <= q < p + 1 && states[q] is Busy implies #[trigger] covered(
                                    used_entries@,
                                    q,
                                ) by {
                                    assert(q < p);
                                }
                            }
                        },
                        None => {},
                    }
                },
            }
            p = p + 1;
        }
        match last_entry {
            Some((current, start)) => {
                let ghost before = used_entries@;
                let run = Run { ino: current, size, start };
                used_entries.push(run);
                proof {
                    lemma_push_run(states, before, run, 128);
                }
            },
            None => {},
        }
        used_entries
    }

    /// The plan that reclaims block `block_no`.
    fn generate_gc_group(&self, block_no: u32) -> (group: GCEventGroup)
        requires
            self.wf(),
            block_no < self.table().len(),
            plan_fits(self.table(), block_no),
        ensures
            is_plan(self.table(), block_no, group.events@),
    {
        let used_entries = self.collect_runs(block_no);
        let ghost states = self.table()[block_no as int].page_states@;
        let start_index: u32 = block_no * 128;
        let mut gc_group = GCEventGroup::new();
        let mut index: u32 = 0;
        while (index as usize) < used_entries.len()
            invariant
                self.wf(),
                block_no < self.table().len(),
                start_index == block_no * 128,
                plan_fits(self.table(), block_no),
                states == self.table()[block_no as int].page_states@,
                is_run_list(states, used_entries@),
                used_entries@.len() <= 128,
                index <= used_entries@.len(),
                gc_group.events@.len() == index,
                forall|i: int|
                    0 <= i < index ==> (#[trigger] gc_group.events@[i]) is Move
                        && gc_group.events@[i]->Move_0.index == i && gc_group.events@[i]->Move_0.ino
                        == used_entries@[i].ino && gc_group.events@[i]->Move_0.size
                        == used_entries@[i].size && gc_group.events@[i]->Move_0.o_address
                        == start_index + used_entries@[i].start && has_fit(
                        self.table(),
                        used_entries@[i].size,
                        Some(block_no),
                    ) && gc_group.events@[i]->Move_0.d_address == first_fit_addr(
                        self.table(),
                        used_entries@[i].size,
                        Some(block_no),
                    ),
            decreases used_entries@.len() - index,
        {
            let entry: Run = used_entries[index as usize];
            proof {
                assert(is_run(states, used_entries@[index as int]));
                assert(has_fit(self.table(), entry.size, Some(block_no)));
            }
            let d_address: u32 = match self.find_next_pos_to_write_except(entry.size, block_no) {
                Some(address) => address,
                None => 0,
            };
            let event = MoveGCEvent {
                index,
                ino: entry.ino,
                size: entry.size,
                o_address: start_index + entry.start,
                d_address,
            };
            gc_group.events.push(GCEvent::Move(event));
            index = index + 1;
        }
        let event = EraseGCEvent { index, block_no };
        gc_group.events.push(GCEvent::Erase(event));
        proof {
            assert(plan_runs(gc_group.events@, block_no) =~= used_entries@);
        }
        gc_group
    }

    /// The victim block: the first of the blocks whose utilisation is
    /// lowest, whatever the strategy.
    fn choose_gc_block(&self, strategy: GCStrategy) -> (block_no: u32)
        requires
            self.wf(),
            self.table().len() > 0,
        ensures
            block_no == victim(self.table()),
            block_no < self.table().len(),
    {
        let mut best: u32 = 0;
        let mut best_ratio: u32 = self.block_table.get_block_info(0).get_utilize_ratio();
        let mut i: u32 = 1;
        while i < self.block_table.size
            invariant
                self.wf(),
                1 <= i <= self.table().len(),
                best < i,
                best_ratio == self.table()[best as int].utilize(),
                forall|j: int| 0 <= j < i ==> best_ratio <= (#[trigger] self.table()[j]).utilize(),
                forall|j: int| 0 <= j < best ==> best_ratio < (#[trigger] self.table()[j]).utilize(),
            decreases self.table().len() - i,
        {
            let ratio: u32 = self.block_table.get_block_info(i).get_utilize_ratio();
            if ratio < best_ratio {
                best = i;
                best_ratio = ratio;
            }
            i = i + 1;
        }
        proof {
            assert(is_victim(self.table(), best as int));
            lemma_victim_unique(self.table(), best as int);
        }
        best
    }

    /// The next free page of the first block other than `block_no` that has
    /// room for `size` pages, if any has.
    fn find_next_pos_to_write_except(&self, size: u32, block_no: u32) -> (r: Option<u32>)
        requires
            self.wf(),
        ensures
            r is Some <==> has_fit(self.table(), size, Some(block_no)),
            r is Some ==> r->0 == first_fit_addr(self.table(), size, Some(block_no)),
    {
        self.first_fit(size, Some(block_no))
    }

    /// Classifies the blocks by the average age of their pages, where that
    /// was still to be done.
    fn sync(&mut self)
        requires
            old(self).wf(),
        ensures
            final(self).wf(),
            final(self).table() == old(self).table(),
            !final(self).needs_sync(),
            final(self).classes() == old(self).classes_after_sync(),
    {
        if self.need_sync {
            let mut index: u32 = 0;
            while index < self.block_table.size
                invariant
                    self.wf(),
                    index <= self.table().len(),
                    self.table() == old(self).table(),
                    self.hot_blocks@ == old(self).hot_blocks@ + blocks_of_class(
                        self.table(),
                        index as nat,
                        0,
                    ),
                    self.normal_blocks@ == old(self).normal_blocks@ + blocks_of_class(
                        self.table(),
                        index as nat,
                        1,
                    ),
                    self.cold_blocks@ == old(self).cold_blocks@ + blocks_of_class(
                        self.table(),
                        index as nat,
                        2,
                    ),
                decreases self.table().len() - index,
            {
                let age: u32 = self.block_table.get_block_info(index).average_age;
                if age > COLDAGEKEY {
                    self.cold_blocks.push(index);
                } else if age < HOTAGEKEY {
                    self.hot_blocks.push(index);
                } else {
                    self.normal_blocks.push(index);
                }
                index = index + 1;
            }
            self.need_sync = false;
        }
    }
}

/// The list of the runs of a block holds every run of the block.
pub proof fn lemma_run_is_listed(states: Seq<PageUsedStatus>, runs: Seq<Run>, r: Run)
    requires
        is_run_list(states, runs),
        is_run(states, r),
    ensures
        exists|k: int| 0 <= k < runs.len() && #[trigger] runs[k] == r,
{
    assert(states[r.start as int] == PageUsedStatus::Busy(r.ino));
    assert(covered(runs, r.start as int));
    let k = choose|k: int| 0 <= k < runs.len() && run_holds(#[trigger] runs[k], r.start as int);
    let q = runs[k];
    assert(is_run(states, q));
    assert(states[r.start as int] == PageUsedStatus::Busy(q.ino));
    assert(q.ino == r.ino);
    if q.start < r.start {
        assert(states[r.start - 1] == PageUsedStatus::Busy(q.ino));
    }
    assert(q.start == r.start);
    if q.size < r.size {
        assert(states[q.start + q.size] == PageUsedStatus::Busy(r.ino));
    } else if r.size < q.size {
        assert(states[r.start + r.size] == PageUsedStatus::Busy(q.ino));
    }
    assert(q == r);
}

/// Closing a run at page `end` extends a list of runs by it: what lay in a
/// run before still does, and so do the pages of the new run.
proof fn lemma_push_run(states: Seq<PageUsedStatus>, before: Seq<Run>, run: Run, end: int)
    requires
        run.size >= 1,
        run.start + run.size == end,
        end <= 128,
        forall|q: int| run.start <= q < end ==> states[q] == PageUsedStatus::Busy(run.ino),
        run.start == 0 || states[run.start - 1] != PageUsedStatus::Busy(run.ino),
        end == 128 || states[end] != PageUsedStatus::Busy(run.ino),
        forall|i: int| 0 <= i < before.len() ==> is_run(states, #[trigger] before[i]),
        forall|i: int, j: int|
            0 <= i < j < before.len() ==> (#[trigger] before[i]).start + before[i].size <= (
            #[trigger] before[j]).start,
        forall|i: int| 0 <= i < before.len() ==> (#[trigger] before[i]).start + before[i].size <= run.start,
        forall|q: int| 0 <= q < run.start && states[q] is Busy ==> #[trigger] covered(before, q),
    ensures
        forall|i: int|
            0 <= i < before.push(run).len() ==> is_run(states, #[trigger] before.push(run)[i]),
        forall|i: int, j: int|
            0 <= i < j < before.push(run).len() ==> (#[trigger] before.push(run)[i]).start
                + before.push(run)[i].size <= (#[trigger] before.push(run)[j]).start,
        forall|i: int|
            0 <= i < before.push(run).len() ==> (#[trigger] before.push(run)[i]).start
                + before.push(run)[i].size <= end,
        forall|q: int| 0 <= q < end && states[q] is Busy ==> #[trigger] covered(before.push(run), q),
{
    let after = before.push(run);
    assert forall|q: int| 0 <= q < end && states[q] is Busy implies #[trigger] covered(after, q) by {
        if q < run.start {
            assert(covered(before, q));
            let i = choose|i: int| 0 <= i < before.len() && run_holds(#[trigger] before[i], q);
            assert(run_holds(after[i], q));
        } else {
            assert(run_holds(after[before.len() as int], q));
        }
    }
}

} // verus!
