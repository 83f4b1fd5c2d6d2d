//! The attributes that the facade reports for an inode.

use vstd::prelude::*;
use crate::fuse::permission::{as_file_kind, creation_gid, creation_mode, file_kind_of};
use crate::inode::inode::{InodeFileType, InodeStat};

verus! {

/// The size in bytes of the blocks in which attributes count a file.
pub const ATTR_BLOCK_SIZE: u32 = 512;

/// The attributes of a file as the facade reports them. Times are seconds
/// and nanoseconds from the epoch.
#[derive(Clone, Copy, Debug, PartialEq, Eq)]
pub struct FileAttributes {
    pub ino: u64,
    pub size: u64,
    pub blocks: u64,
    pub atime: (i64, u32),
    pub mtime: (i64, u32),
    pub ctime: (i64, u32),
    pub crtime: (i64, u32),
    pub kind: InodeFileType,
    pub perm: u16,
    pub nlink: u32,
    pub uid: u32,
    pub gid: u32,
    pub rdev: u32,
    pub flags: u32,
    pub blksize: u32,
    pub padding: u32,
}

/// The attributes of an inode with attributes `stat`: its size counted in
/// whole blocks of 512 bytes, rounded up; no device, no flags, and the epoch
/// as its creation time.
pub open spec fn attributes_of(stat: InodeStat) -> FileAttributes {
    FileAttributes {
        ino: stat.ino as u64,
        size: stat.size as u64,
        blocks: ((stat.size + 511) / 512) as u64,
        atime: stat.last_accessed,
        mtime: stat.last_modified,
        ctime: stat.last_metadata_changed,
        crtime: (0i64, 0u32),
        kind: stat.file_type,
        perm: stat.mode,
        nlink: stat.n_link as u32,
        uid: stat.uid,
        gid: stat.gid,
        rdev: 0,
        flags: 0,
        blksize: 512,
        padding: 0,
    }
}

/// The attributes that the facade reports for an inode with attributes
/// `stat`.
pub fn transfer_stat_to_attr(stat: InodeStat) -> (attr: FileAttributes)
    requires
        stat.size + 512 <= u32::MAX,
    ensures
        attr == attributes_of(stat),
{
    FileAttributes {
        ino: stat.ino as u64,
        size: stat.size as u64,
        blocks: ((stat.size + 512 - 1) / 512) as u64,
        atime: stat.last_accessed,
        mtime: stat.last_modified,
        ctime: stat.last_metadata_changed,
        crtime: (0, 0),
        kind: stat.file_type,
        perm: stat.mode,
        nlink: stat.n_link as u32,
        uid: stat.uid,
        gid: stat.gid,
        rdev: 0,
        flags: 0,
        blksize: 512,
        padding: 0,
    }
}

/// The size of a directory that holds nothing but its own two entries.
pub const EMPTY_DIRECTORY_SIZE: u32 = 28;

/// The attributes of the root directory at its making, at time `now`: a
/// directory of mode `0o777` that belongs to root, with two links and no
/// content.
pub open spec fn root_attributes(ino: u32, now: (i64, u32)) -> InodeStat {
    InodeStat {
        file_type: InodeFileType::Directory,
        ino,
        size: 0,
        uid: 0,
        gid: 0,
        ref_cnt: 0,
        n_link: 2,
        mode: 0o777,
        last_accessed: now,
        last_modified: now,
        last_metadata_changed: now,
    }
}

/// The attributes of the root directory at its making.
pub fn root_stat(ino: u32, now: (i64, u32)) -> (stat: InodeStat)
    ensures
        stat == root_attributes(ino, now),
{
    InodeStat {
        file_type: InodeFileType::Directory,
        ino,
        size: 0,
        uid: 0,
        gid: 0,
        ref_cnt: 0,
        n_link: 2,
        mode: 0o777,
        last_accessed: now,
        last_modified: now,
        last_metadata_changed: now,
    }
}

/// The attributes of a new file or directory of type bits and permissions
/// `mode`, made at time `now` by caller `uid`/`gid` in the directory with
/// attributes `parent`: no content, one link for a file that `mknod` or
/// `create` makes, the mode without its set-id bits, the parent's group where
/// the parent passes it on, and `opens` opens.
pub fn new_node_stat(
    ino: u32,
    mode: u32,
    uid: u32,
    gid: u32,
    parent: &InodeStat,
    now: (i64, u32),
    opens: u8,
) -> (stat: InodeStat)
    requires
        file_kind_of(mode) is Some,
    ensures
        stat == (InodeStat {
            file_type: file_kind_of(mode)->0,
            ino,
            size: 0,
            uid,
            gid: if parent.mode & 0x400 != 0 {
                parent.gid
            } else {
                gid
            },
            ref_cnt: opens,
            n_link: 1,
            mode: (mode & !0xC00u32 & 0xFFFF) as u16,
            last_accessed: now,
            last_modified: now,
            last_metadata_changed: now,
        }),
{
    InodeStat {
        file_type: as_file_kind(mode),
        ino,
        size: 0,
        uid,
        gid: creation_gid(parent, gid),
        ref_cnt: opens,
        n_link: 1,
        mode: creation_mode(mode),
        last_accessed: now,
        last_modified: now,
        last_metadata_changed: now,
    }
}

/// The attributes of a new directory of permissions `mode`, made at time
/// `now` by caller `uid`/`gid` in the directory with attributes `parent`: two
/// links, no content, no open.
pub fn new_directory_stat(
    ino: u32,
    mode: u32,
    uid: u32,
    gid: u32,
    parent: &InodeStat,
    now: (i64, u32),
) -> (stat: InodeStat)
    ensures
        stat == (InodeStat {
            file_type: InodeFileType::Directory,
            ino,
            size: 0,
            uid,
            gid: if parent.mode & 0x400 != 0 {
                parent.gid
            } else {
                gid
            },
            ref_cnt: 0,
            n_link: 2,
            mode: (mode & !0xC00u32 & 0xFFFF) as u16,
            last_accessed: now,
            last_modified: now,
            last_metadata_changed: now,
        }),
{
    InodeStat {
        file_type: InodeFileType::Directory,
        ino,
        size: 0,
        uid,
        gid: creation_gid(parent, gid),
        ref_cnt: 0,
        n_link: 2,
        mode: creation_mode(mode),
        last_accessed: now,
        last_modified: now,
        last_metadata_changed: now,
    }
}

/// The attributes of a directory after an entry was added to it or removed
/// from it at time `now`.
pub fn touch_directory(stat: InodeStat, now: (i64, u32)) -> (r: InodeStat)
    ensures
        r == (InodeStat { last_modified: now, last_metadata_changed: now, ..stat }),
{
    let mut r = stat;
    r.last_modified = now;
    r.last_metadata_changed = now;
    r
}

/// The attributes of an inode after a link to it was made at time `now`.
pub fn link_added(stat: InodeStat, now: (i64, u32)) -> (r: InodeStat)
    requires
        stat.n_link < 255,
    ensures
        r == (InodeStat {
            n_link: (stat.n_link + 1) as u8,
            last_metadata_changed: now,
            ..stat
        }),
{
    let mut r = stat;
    r.n_link = r.n_link + 1;
    r.last_metadata_changed = now;
    r
}

/// The attributes of a file after a link to it was removed at time `now`.
/// With no link left the file is to be deleted.
pub fn link_removed(stat: InodeStat, now: (i64, u32)) -> (r: InodeStat)
    requires
        stat.n_link > 0,
    ensures
        r == (InodeStat {
            n_link: (stat.n_link - 1) as u8,
            last_metadata_changed: now,
            ..stat
        }),
{
    let mut r = stat;
    r.n_link = r.n_link - 1;
    r.last_metadata_changed = now;
    r
}

/// The attributes of a directory after it was removed at time `now`: no
/// link is left.
pub fn directory_removed(stat: InodeStat, now: (i64, u32)) -> (r: InodeStat)
    ensures
        r == (InodeStat { n_link: 0, last_metadata_changed: now, ..stat }),
{
    let mut r = stat;
    r.n_link = 0;
    r.last_metadata_changed = now;
    r
}

/// Whether a directory of `size` bytes holds nothing but its own two
/// entries, so that it may be removed.
pub fn directory_is_empty(size: u32) -> (r: bool)
    ensures
        r == (size <= EMPTY_DIRECTORY_SIZE),
{
    size <= EMPTY_DIRECTORY_SIZE
}

/// The attributes of an inode after one more open.
pub fn opened(stat: InodeStat) -> (r: InodeStat)
    requires
        stat.ref_cnt < 255,
    ensures
        r == (InodeStat { ref_cnt: (stat.ref_cnt + 1) as u8, ..stat }),
{
    let mut r = stat;
    r.ref_cnt = r.ref_cnt + 1;
    r
}

/// The attributes of an inode after one open was closed.
pub fn released(stat: InodeStat) -> (r: InodeStat)
    requires
        stat.ref_cnt > 0,
    ensures
        r == (InodeStat { ref_cnt: (stat.ref_cnt - 1) as u8, ..stat }),
{
    let mut r = stat;
    r.ref_cnt = r.ref_cnt - 1;
    r
}

} // verus!
