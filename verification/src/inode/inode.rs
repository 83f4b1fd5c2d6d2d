//! The attributes of an inode.

use vstd::prelude::*;

verus! {

/// What an inode is.
#[derive(Clone, Copy, Debug, PartialEq, Eq, Structural)]
pub enum InodeFileType {
    File,
    Directory,
}

/// The attributes of an inode. Times are seconds and nanoseconds from the
/// epoch.
#[derive(Clone, Copy, Debug, PartialEq, Eq)]
pub struct InodeStat {
    pub file_type: InodeFileType,
    pub ino: u32,
    pub size: u32,
    pub uid: u32,
    pub gid: u32,
    pub ref_cnt: u8,
    pub n_link: u8,
    pub mode: u16,
    pub last_accessed: (i64, u32),
    pub last_modified: (i64, u32),
    pub last_metadata_changed: (i64, u32),
}

} // verus!
