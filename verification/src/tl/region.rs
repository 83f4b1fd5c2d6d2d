//! Cursors over the two kinds of block that start-up reads: the entries of a
//! mapping block and the signatures of a signature block. A cursor hands out
//! items until it meets a terminator or the end of the block.

use vstd::prelude::*;
use crate::tl::model::{map_entry, sign_slot, is_blank_slot};
use crate::util::array::Array1;
use crate::util::page::{Page, page_views, from_be_bytes};

verus! {

/// A cursor over the entries of a mapping block. The entries start at byte 8
/// and take eight bytes each.
pub struct MapDataRegion<'a> {
    count: u32,
    data: &'a Array1<[u8; 4096]>,
}

impl<'a> MapDataRegion<'a> {
    /// The block that the cursor reads.
    pub closed spec fn block(&self) -> Seq<Seq<u8>> {
        page_views(self.data@)
    }

    /// The entry that the cursor will read next, counted from 0.
    pub closed spec fn position(&self) -> int {
        (self.count - 8) / 8
    }

    /// The cursor stands on an entry, or at the end of a block of 128 pages.
    pub closed spec fn wf(&self) -> bool {
        &&& self.data@.len() == 128
        &&& 8 <= self.count <= 524288
        &&& self.count % 8 == 0
    }

    /// A cursor on the first entry of `data`.
    pub fn new(data: &'a Array1<[u8; 4096]>) -> (region: MapDataRegion<'a>)
        requires
            data@.len() == 128,
        ensures
            region.wf(),
            region.block() == page_views(data@),
            region.position() == 0,
    {
        MapDataRegion { count: 8, data }
    }

    /// The byte at `at` of the block.
    fn byte(&self, at: u32) -> (b: u8)
        requires
            self.wf(),
            at < 524288,
        ensures
            b == self.block()[at as int / 4096][at as int % 4096],
    {
        let page: Page = self.data.get(at / 4096);
        page[(at % 4096) as usize]
    }

    /// Reads the entry under the cursor and steps past it. The terminator
    /// `(0, 0)` and the end of the block give `None`; past the terminator the
    /// cursor goes on where it stands.
    pub fn next(&mut self) -> (r: Option<(u32, u32)>)
        requires
            old(self).wf(),
        ensures
            final(self).wf(),
            final(self).block() == old(self).block(),
            old(self).position() < 65535 ==> final(self).position() == old(self).position() + 1,
            old(self).position() >= 65535 ==> final(self).position() == old(self).position(),
            r == (if old(self).position() < 65535 && map_entry(
                old(self).block(),
                old(self).position(),
            ) != (0u32, 0u32) {
                Some(map_entry(old(self).block(), old(self).position()))
            } else {
                None
            }),
    {
        if self.count < 128 * 4096 {
            let at: u32 = self.count;
            let lba: u32 = from_be_bytes(
                self.byte(at),
                self.byte(at + 1),
                self.byte(at + 2),
                self.byte(at + 3),
            );
            let pba: u32 = from_be_bytes(
                self.byte(at + 4),
                self.byte(at + 5),
                self.byte(at + 6),
                self.byte(at + 7),
            );
            self.count = self.count + 8;
            proof {
                let k = old(self).position();
                assert(8 + 8 * k == at);
                assert(at as int % 4096 + 7 < 4096);
                assert((at + 7) as int / 4096 == at as int / 4096);
                assert((lba, pba) == map_entry(self.block(), k));
            }
            if lba == 0 && pba == 0 {
                None
            } else {
                Some((lba, pba))
            }
        } else {
            None
        }
    }
}

/// A cursor over the signatures of a signature block: 4096 slots of 128
/// bytes.
pub struct SignDataRegion<'a> {
    count: u32,
    data: &'a Array1<[u8; 4096]>,
}

impl<'a> SignDataRegion<'a> {
    /// The block that the cursor reads.
    pub closed spec fn block(&self) -> Seq<Seq<u8>> {
        page_views(self.data@)
    }

    /// The slot that the cursor will read next, counted from 0.
    pub closed spec fn position(&self) -> int {
        self.count as int / 128
    }

    /// The cursor stands on a slot, or at the end of a block of 128 pages.
    pub closed spec fn wf(&self) -> bool {
        &&& self.data@.len() == 128
        &&& self.count <= 524288
        &&& self.count % 128 == 0
    }

    /// A cursor on the first slot of `data`.
    pub fn new(data: &'a Array1<[u8; 4096]>) -> (region: SignDataRegion<'a>)
        requires
            data@.len() == 128,
        ensures
            region.wf(),
            region.block() == page_views(data@),
            region.position() == 0,
    {
        SignDataRegion { count: 0, data }
    }

    /// Reads the slot under the cursor and steps past it. A blank slot and
    /// the end of the block give `None`; past a blank slot the cursor goes on
    /// where it stands.
    pub fn next(&mut self) -> (r: Option<[u8; 128]>)
        requires
            old(self).wf(),
        ensures
            final(self).wf(),
            final(self).block() == old(self).block(),
            old(self).position() < 4096 ==> final(self).position() == old(self).position() + 1,
            old(self).position() >= 4096 ==> final(self).position() == old(self).position(),
            r is Some <==> old(self).position() < 4096 && !is_blank_slot(
                sign_slot(old(self).block(), old(self).position()),
            ),
            r is Some ==> r->0@ == sign_slot(old(self).block(), old(self).position()),
    {
        if self.count < 128 * 4096 {
            let mut data: [u8; 128] = [0u8; 128];
            let page: Page = self.data.get(self.count / 4096);
            let start: usize = (self.count % 4096) as usize;
            let mut blank: bool = true;
            let ghost mut witness: int = 0;
            let mut i: usize = 0;
            while i < 128
                invariant
                    i <= 128,
                    start + 128 <= 4096,
                    forall|j: int| 0 <= j < i ==> data@[j] == page@[start + j],
                    blank ==> forall|j: int| 0 <= j < i ==> data@[j] == 0u8,
                    !blank ==> 0 <= witness < i && data@[witness] != 0u8,
                decreases 128 - i,
            {
                data[i] = page[start + i];
                if data[i] != 0 {
                    blank = false;
                    proof {
                        witness = i as int;
                    }
                }
                i = i + 1;
            }
            proof {
                let s = old(self).position();
                assert(self.count as int / 4096 == s / 32);
                assert(start == (s % 32) * 128);
                assert(data@ =~= sign_slot(self.block(), s));
            }
            self.count = self.count + 128;
            if blank {
                None
            } else {
                Some(data)
            }
        } else {
            None
        }
    }
}

} // verus!
