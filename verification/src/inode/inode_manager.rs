//! The table of inodes in use. Each slot holds an inode and counts the
//! references to it; a slot with no reference is free.

use vstd::prelude::*;
use crate::inode::inode::InodeStat;

verus! {

/// The slots of the table.
pub const INODE_SLOTS: usize = 30;

/// An inode in memory: its attributes, with the count of references to it in
/// `ref_cnt`.
#[derive(Clone, Copy)]
pub struct Inode {
    pub ino: u32,
    pub ref_cnt: u8,
    pub stat: InodeStat,
}

/// What a look-up of an inode number found.
#[derive(Clone, Copy, Debug, PartialEq, Eq, Structural)]
pub enum InodeLookup {
    /// The inode is in the slot of this number; the look-up counts as one
    /// more reference.
    Found(usize),
    /// The inode is not in the table; the slot of this number is free to
    /// receive it.
    Load(usize),
}

/// Slot `i` is the first free slot.
pub open spec fn is_first_free(slots: Seq<Inode>, i: int) -> bool {
    &&& 0 <= i < slots.len()
    &&& slots[i].ref_cnt == 0
    &&& forall|j: int| 0 <= j < i ==> (#[trigger] slots[j]).ref_cnt != 0
}

/// Some slot is free.
pub open spec fn has_free(slots: Seq<Inode>) -> bool {
    exists|i: int| 0 <= i < slots.len() && (#[trigger] slots[i]).ref_cnt == 0
}

/// Slot `i` is the first that holds inode `ino` in use.
pub open spec fn is_first_holder(slots: Seq<Inode>, ino: u32, i: int) -> bool {
    &&& 0 <= i < slots.len()
    &&& slots[i].ref_cnt > 0
    &&& slots[i].ino == ino
    &&& forall|j: int| 0 <= j < i ==> !((#[trigger] slots[j]).ref_cnt > 0 && slots[j].ino == ino)
}

/// Some slot holds inode `ino` in use.
pub open spec fn holds(slots: Seq<Inode>, ino: u32) -> bool {
    exists|i: int| 0 <= i < slots.len() && (#[trigger] slots[i]).ref_cnt > 0 && slots[i].ino == ino
}

/// The table of inodes in use.
pub struct InodeManager {
    size: usize,
    capacity: usize,
    inode_buffer: Vec<Inode>,
}

impl View for InodeManager {
    type V = Seq<Inode>;

    /// The slots of the table.
    closed spec fn view(&self) -> Seq<Inode> {
        self.inode_buffer@
    }
}

impl InodeManager {
    /// The table has its 30 slots.
    pub closed spec fn wf(&self) -> bool {
        &&& self.capacity == INODE_SLOTS
        &&& self.size == 0
        &&& self.inode_buffer@.len() == INODE_SLOTS
    }

    /// A table of 30 free slots.
    pub fn new() -> (manager: InodeManager)
        ensures
            manager.wf(),
            manager@.len() == INODE_SLOTS,
            forall|i: int|
                0 <= i < INODE_SLOTS ==> (#[trigger] manager@[i]).ref_cnt == 0 && manager@[i].ino == 0,
    {
        let blank = Inode {
            ino: 0,
            ref_cnt: 0,
            stat: InodeStat {
                file_type: crate::inode::inode::InodeFileType::File,
                ino: 0,
                size: 0,
                uid: 0,
                gid: 0,
                ref_cnt: 0,
                n_link: 0,
                mode: 0,
                last_accessed: (0, 0),
                last_modified: (0, 0),
                last_metadata_changed: (0, 0),
            },
        };
        let mut buf: Vec<Inode> = Vec::new();
        let mut i: usize = 0;
        while i < 30
            invariant
                i <= 30,
                buf@.len() == i,
                blank.ref_cnt == 0,
                blank.ino == 0,
                forall|j: int| 0 <= j < i ==> (#[trigger] buf@[j]).ref_cnt == 0 && buf@[j].ino == 0,
            decreases 30 - i,
        {
            buf.push(blank);
            i = i + 1;
        }
        InodeManager { size: 0, capacity: 30, inode_buffer: buf }
    }

    /// The size figure of the table; it stays 0.
    pub fn get_size(&self) -> (size: u32)
        requires
            self.wf(),
        ensures
            size == 0,
    {
        self.size as u32
    }

    /// The number of slots.
    pub fn get_capacity(&self) -> (capacity: u32)
        requires
            self.wf(),
        ensures
            capacity == INODE_SLOTS,
    {
        self.capacity as u32
    }

    /// The first free slot, if there is one.
    fn first_free(&self) -> (r: Option<usize>)
        requires
            self.wf(),
        ensures
            r is Some <==> has_free(self@),
            r is Some ==> is_first_free(self@, r->0 as int),
    {
        let mut index: usize = 0;
        while index < self.inode_buffer.len()
            invariant
                index <= self.inode_buffer@.len(),
                forall|j: int| 0 <= j < index ==> (#[trigger] self.inode_buffer@[j]).ref_cnt != 0,
            decreases self.inode_buffer@.len() - index,
        {
            if self.inode_buffer[index].ref_cnt == 0 {
                return Some(index);
            }
            index = index + 1;
        }
        None
    }

    /// Takes the newly allocated `inode` into the first free slot, with one
    /// reference, and hands out the slot.
    pub fn i_alloc(&mut self, inode: Inode) -> (r: Option<usize>)
        requires
            old(self).wf(),
            has_free(old(self)@),
        ensures
            final(self).wf(),
            r is Some,
            is_first_free(old(self)@, r->0 as int),
            final(self)@ == old(self)@.update(r->0 as int, (Inode { ref_cnt: 1, ..inode })),
    {
        match self.first_free() {
            Some(index) => {
                let mut inode = inode;
                inode.ref_cnt = 1;
                self.inode_buffer[index] = inode;
                Some(index)
            },
            None => None,
        }
    }

    /// Looks inode `ino` up. Where a slot holds it in use, the first such
    /// slot gets one more reference and is handed out. Otherwise the first
    /// free slot is named, for `i_load` to fill once the inode was fetched.
    pub fn i_get(&mut self, ino: u32) -> (r: InodeLookup)
        requires
            old(self).wf(),
            holds(old(self)@, ino) || has_free(old(self)@),
            forall|i: int|
                0 <= i < old(self)@.len() && (#[trigger] old(self)@[i]).ino == ino ==> old(
                    self,
                )@[i].ref_cnt < 255,
        ensures
            final(self).wf(),
            holds(old(self)@, ino) ==> r is Found && is_first_holder(
                old(self)@,
                ino,
                r->Found_0 as int,
            ) && final(self)@ == old(self)@.update(
                r->Found_0 as int,
                (Inode {
                    ref_cnt: (old(self)@[r->Found_0 as int].ref_cnt + 1) as u8,
                    ..old(self)@[r->Found_0 as int]
                }),
            ),
            !holds(old(self)@, ino) ==> r is Load && is_first_free(old(self)@, r->Load_0 as int)
                && final(self)@ == old(self)@,
    {
        let mut index: usize = 0;
        while index < self.inode_buffer.len()
            invariant
                self.wf(),
                self@ == old(self)@,
                forall|i: int|
                    0 <= i < self@.len() && (#[trigger] self@[i]).ino == ino ==> self@[i].ref_cnt
                        < 255,
                index <= self.inode_buffer@.len(),
                forall|j: int|
                    0 <= j < index ==> !((#[trigger] self.inode_buffer@[j]).ref_cnt > 0
                        && self.inode_buffer@[j].ino == ino),
            decreases self.inode_buffer@.len() - index,
        {
            if self.inode_buffer[index].ref_cnt > 0 && self.inode_buffer[index].ino == ino {
                let mut inode = self.inode_buffer[index];
                inode.ref_cnt = inode.ref_cnt + 1;
                self.inode_buffer[index] = inode;
                return InodeLookup::Found(index);
            }
            index = index + 1;
        }
        match self.first_free() {
            Some(slot) => InodeLookup::Load(slot),
            None => InodeLookup::Load(0),
        }
    }

    /// Takes the fetched `inode` into the free slot `slot`, with one
    /// reference.
    pub fn i_load(&mut self, slot: usize, inode: Inode)
        requires
            old(self).wf(),
            slot < old(self)@.len(),
            old(self)@[slot as int].ref_cnt == 0,
        ensures
            final(self).wf(),
            final(self)@ == old(self)@.update(slot as int, (Inode { ref_cnt: 1, ..inode })),
    {
        let mut inode = inode;
        inode.ref_cnt = 1;
        self.inode_buffer[slot] = inode;
    }

    /// The inode in slot `handle`.
    pub fn inode(&self, handle: usize) -> (inode: Inode)
        requires
            self.wf(),
            handle < self@.len(),
        ensures
            inode == self@[handle as int],
    {
        self.inode_buffer[handle]
    }

    /// Replaces the attributes of the inode in slot `handle`.
    pub fn modify_stat(&mut self, handle: usize, stat: InodeStat)
        requires
            old(self).wf(),
            handle < old(self)@.len(),
        ensures
            final(self).wf(),
            final(self)@ == old(self)@.update(
                handle as int,
                (Inode { stat, ..old(self)@[handle as int] }),
            ),
    {
        let mut inode = self.inode_buffer[handle];
        inode.stat = stat;
        self.inode_buffer[handle] = inode;
    }

    /// One more reference to the inode in slot `handle`.
    pub fn i_dup(&mut self, handle: usize) -> (r: usize)
        requires
            old(self).wf(),
            handle < old(self)@.len(),
            old(self)@[handle as int].ref_cnt < 255,
        ensures
            final(self).wf(),
            r == handle,
            final(self)@ == old(self)@.update(
                handle as int,
                (Inode {
                    ref_cnt: (old(self)@[handle as int].ref_cnt + 1) as u8,
                    ..old(self)@[handle as int]
                }),
            ),
    {
        let mut inode = self.inode_buffer[handle];
        inode.ref_cnt = inode.ref_cnt + 1;
        self.inode_buffer[handle] = inode;
        handle
    }

    /// One reference less to the inode in slot `handle`; with the last one
    /// gone the slot is free.
    pub fn i_put(&mut self, handle: usize)
        requires
            old(self).wf(),
            handle < old(self)@.len(),
        ensures
            final(self).wf(),
            final(self)@ == old(self)@.update(
                handle as int,
                (Inode {
                    ref_cnt: (if old(self)@[handle as int].ref_cnt > 0 {
                        (old(self)@[handle as int].ref_cnt - 1) as u8
                    } else {
                        0u8
                    }),
                    ..old(self)@[handle as int]
                }),
            ),
    {
        let mut inode = self.inode_buffer[handle];
        if inode.ref_cnt > 0 {
            inode.ref_cnt = inode.ref_cnt - 1;
        }
        self.inode_buffer[handle] = inode;
        assert(self@ =~= old(self)@.update(
            handle as int,
            (Inode {
                ref_cnt: (if old(self)@[handle as int].ref_cnt > 0 {
                    (old(self)@[handle as int].ref_cnt - 1) as u8
                } else {
                    0u8
                }),
                ..old(self)@[handle as int]
            }),
        ));
    }
}

} // verus!
