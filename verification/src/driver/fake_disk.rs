//! A device held in memory.

use vstd::prelude::*;
use crate::util::page::{Page, zero_page, is_zero_page, page_is_zero};

verus! {

/// The pages of block `block_no` of a medium.
pub open spec fn block_pages(pages: Seq<Seq<u8>>, block_no: int) -> Seq<Seq<u8>> {
    pages.subrange(block_no * 128, block_no * 128 + 128)
}

/// The medium after block `block_no` is erased.
pub open spec fn erased(pages: Seq<Seq<u8>>, block_no: int) -> Seq<Seq<u8>> {
    Seq::new(
        pages.len(),
        |i: int|
            if block_no * 128 <= i < block_no * 128 + 128 {
                zero_page()
            } else {
                pages[i]
            },
    )
}

/// A medium of `size` pages in blocks of 128, all zero when made.
pub struct FakeDisk {
    pub size: u32,
    pub block_num: u32,
    pub data: Vec<[u8; 4096]>,
}

impl FakeDisk {
    /// What each page of the medium holds.
    pub open spec fn pages(&self) -> Seq<Seq<u8>> {
        Seq::new(self.data@.len(), |i: int| self.data@[i]@)
    }

    /// The fields agree: `size` pages, in `block_num` whole blocks.
    pub open spec fn wf(&self) -> bool {
        &&& self.data@.len() == self.size
        &&& self.size % 128 == 0
        &&& self.block_num == self.size / 128
    }

    /// A zeroed medium of `size` pages.
    pub fn new(size: u32) -> (disk: FakeDisk)
        requires
            size % 128 == 0,
        ensures
            disk.wf(),
            disk.size == size,
            forall|i: int| 0 <= i < size ==> is_zero_page(#[trigger] disk.pages()[i]),
    {
        let mut data: Vec<[u8; 4096]> = Vec::new();
        let mut i: u32 = 0;
        while i < size
            invariant
                i <= size,
                data@.len() == i,
                forall|j: int| 0 <= j < i ==> is_zero_page(#[trigger] data@[j]@),
            decreases size - i,
        {
            let page: Page = [0u8; 4096];
            assert(is_zero_page(page@));
            data.push(page);
            i = i + 1;
        }
        let block_num: u32 = size / 128;
        FakeDisk { size, data, block_num }
    }

    /// The 128 pages of block `block_no`.
    pub fn fake_disk_read(&self, block_no: u32) -> (block: [[u8; 4096]; 128])
        requires
            self.wf(),
            block_no < self.block_num,
        ensures
            forall|i: int| 0 <= i < 128 ==> (#[trigger] block@[i])@ == self.pages()[block_no * 128 + i],
    {
        let mut block: [[u8; 4096]; 128] = [[0u8; 4096]; 128];
        let start: usize = block_no as usize * 128;
        let mut i: usize = 0;
        while i < 128
            invariant
                i <= 128,
                self.wf(),
                block_no < self.block_num,
                start == block_no * 128,
                forall|j: int| 0 <= j < i ==> (#[trigger] block@[j])@ == self.pages()[start + j],
            decreases 128 - i,
        {
            block[i] = self.data[start + i];
            i = i + 1;
        }
        block
    }

    /// Writes `data` to the page at `address`, which must be clean.
    pub fn fake_disk_write(&mut self, address: u32, data: [u8; 4096])
        requires
            old(self).wf(),
            address < old(self).size,
            is_zero_page(old(self).pages()[address as int]),
        ensures
            final(self).wf(),
            final(self).size == old(self).size,
            final(self).pages() == old(self).pages().update(address as int, data@),
    {
        self.data[address as usize] = data;
        assert(self.pages() =~= old(self).pages().update(address as int, data@));
    }

    /// Whether the page at `address` is clean, so that it may be written.
    pub fn page_is_clean(&self, address: u32) -> (clean: bool)
        requires
            self.wf(),
            address < self.size,
        ensures
            clean == is_zero_page(self.pages()[address as int]),
    {
        page_is_zero(&self.data[address as usize])
    }

    /// Zeroes the 128 pages of block `block_no`.
    pub fn fake_disk_erase(&mut self, block_no: u32)
        requires
            old(self).wf(),
            block_no < old(self).block_num,
        ensures
            final(self).wf(),
            final(self).size == old(self).size,
            final(self).pages() == erased(old(self).pages(), block_no as int),
    {
        let start: usize = block_no as usize * 128;
        let mut i: usize = 0;
        while i < 128
            invariant
                i <= 128,
                self.wf(),
                self.size == old(self).size,
                block_no < self.block_num,
                start == block_no * 128,
                old(self).data@.len() == self.size,
                forall|j: int|
                    0 <= j < self.size ==> (#[trigger] self.data@[j])@ == (if start <= j < start + i {
                        zero_page()
                    } else {
                        old(self).data@[j]@
                    }),
            decreases 128 - i,
        {
            let page: Page = [0u8; 4096];
            assert(page@ =~= zero_page());
            self.data[start + i] = page;
            i = i + 1;
        }
        assert(self.pages() =~= erased(old(self).pages(), block_no as int));
    }
}

} // verus!
