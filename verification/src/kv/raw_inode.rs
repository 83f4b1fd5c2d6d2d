//! An inode and the extents of its data, as stored.

use vstd::prelude::*;

verus! {

/// One extent of an inode's data.
#[derive(Copy, Clone)]
pub struct RawEntry {
    pub len: u32,
    pub size: u32,
    pub offset: u32,
    pub address: u32,
}

/// An inode as stored: its attributes and the extents of its data.
pub struct RawInode {
    pub ino: u32,
    pub uid: u32,
    pub gid: u32,
    pub size: u32,
    pub n_link: u8,
    pub ref_cnt: u8,
    /// 0 for a file, 1 for a directory.
    pub file_type: u8,
    pub mode: u16,
    pub last_accessed: (i64, u32),
    pub last_modified: (i64, u32),
    pub last_metadata_changed: (i64, u32),
    pub data: Vec<RawEntry>,
}

} // verus!
