//! The device as the upper layers see it: one interface over either backend.

use vstd::prelude::*;
use crate::driver::disk::DiskDriver;
use crate::driver::fake_disk::{FakeDisk, erased};
use crate::util::page::is_zero_page;

verus! {

/// The blocks of the medium that `DiskManager::new` makes in memory.
pub const VIRTUAL_BLOCKS: u32 = 32;

/// Holds the backend in use: the medium in memory when `is_virtual`, a
/// hardware handle otherwise.
pub struct DiskManager {
    pub is_virtual: bool,
    pub driver: Option<DiskDriver>,
    pub fake_disk: Option<FakeDisk>,
}

impl DiskManager {
    /// The manager holds a medium in memory whose fields agree.
    pub open spec fn wf(&self) -> bool {
        &&& self.is_virtual
        &&& self.fake_disk is Some
        &&& self.fake_disk->0.wf()
    }

    /// What each page of the medium holds.
    pub open spec fn pages(&self) -> Seq<Seq<u8>> {
        self.fake_disk->0.pages()
    }

    /// The number of blocks of the medium.
    pub open spec fn block_num(&self) -> nat {
        self.fake_disk->0.block_num as nat
    }

    /// With `is_virtual`, a zeroed medium of 32 blocks in memory; without, a
    /// hardware handle.
    pub fn new(is_virtual: bool) -> (manager: DiskManager)
        ensures
            manager.is_virtual == is_virtual,
            is_virtual ==> manager.wf() && manager.block_num() == VIRTUAL_BLOCKS
                && manager.pages().len() == VIRTUAL_BLOCKS * 128
                && forall|i: int|
                0 <= i < VIRTUAL_BLOCKS * 128 ==> is_zero_page(#[trigger] manager.pages()[i]),
            !is_virtual ==> manager.driver is Some && manager.fake_disk is None,
    {
        if is_virtual {
            let disk = FakeDisk::new(VIRTUAL_BLOCKS * 128);
            DiskManager { is_virtual, driver: None, fake_disk: Some(disk) }
        } else {
            DiskManager { is_virtual, driver: Some(DiskDriver::new()), fake_disk: None }
        }
    }

    /// The 128 pages of block `block_no`.
    pub fn disk_read(&self, block_no: u32) -> (block: [[u8; 4096]; 128])
        requires
            self.wf(),
            block_no < self.block_num(),
        ensures
            forall|i: int| 0 <= i < 128 ==> (#[trigger] block@[i])@ == self.pages()[block_no * 128 + i],
    {
        match &self.fake_disk {
            Some(disk) => disk.fake_disk_read(block_no),
            None => [[0u8; 4096]; 128],
        }
    }

    /// Writes `data` to the page at `address`, which must be clean.
    pub fn disk_write(&mut self, address: u32, data: [u8; 4096])
        requires
            old(self).wf(),
            address < old(self).pages().len(),
            is_zero_page(old(self).pages()[address as int]),
        ensures
            final(self).wf(),
            final(self).block_num() == old(self).block_num(),
            final(self).pages() == old(self).pages().update(address as int, data@),
    {
        match &mut self.fake_disk {
            Some(disk) => disk.fake_disk_write(address, data),
            None => {},
        }
    }

    /// Whether the page at `address` is clean, so that it may be written.
    pub fn page_is_clean(&self, address: u32) -> (clean: bool)
        requires
            self.wf(),
            address < self.pages().len(),
        ensures
            clean == is_zero_page(self.pages()[address as int]),
    {
        match &self.fake_disk {
            Some(disk) => disk.page_is_clean(address),
            None => false,
        }
    }

    /// Zeroes the 128 pages of block `block_no`.
    pub fn disk_erase(&mut self, block_no: u32)
        requires
            old(self).wf(),
            block_no < old(self).block_num(),
        ensures
            final(self).wf(),
            final(self).block_num() == old(self).block_num(),
            final(self).pages() == erased(old(self).pages(), block_no as int),
    {
        match &mut self.fake_disk {
            Some(disk) => disk.fake_disk_erase(block_no),
            None => {},
        }
    }
}

} // verus!
