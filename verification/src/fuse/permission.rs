//! Who may do what: the access check, the mode and group of a new inode, and
//! the rights that a file handle carries.

use vstd::prelude::*;
use crate::inode::inode::{InodeFileType, InodeStat};

verus! {

/// The bit of a file handle that grants reading.
pub const FILE_HANDLE_READ_BIT: u64 = 0x8000_0000_0000_0000;

/// The bit of a file handle that grants writing.
pub const FILE_HANDLE_WRITE_BIT: u64 = 0x4000_0000_0000_0000;

/// `libc::S_IFMT`: the bits of a mode that hold the file type, `0o170000`.
#[verifier::external_body]
fn s_ifmt() -> (bits: u32)
    ensures
        bits == 0xF000,
{
    libc::S_IFMT as u32
}

/// `libc::S_IFREG`: the file type of a regular file, `0o100000`.
#[verifier::external_body]
fn s_ifreg() -> (bits: u32)
    ensures
        bits == 0x8000,
{
    libc::S_IFREG as u32
}

/// `libc::S_IFDIR`: the file type of a directory, `0o040000`.
#[verifier::external_body]
fn s_ifdir() -> (bits: u32)
    ensures
        bits == 0x4000,
{
    libc::S_IFDIR as u32
}

/// `libc::S_ISUID`: the set-user-id bit of a mode, `0o4000`.
#[verifier::external_body]
fn s_isuid() -> (bits: u32)
    ensures
        bits == 0x800,
{
    libc::S_ISUID as u32
}

/// `libc::S_ISGID`: the set-group-id bit of a mode, `0o2000`.
#[verifier::external_body]
fn s_isgid() -> (bits: u32)
    ensures
        bits == 0x400,
{
    libc::S_ISGID as u32
}

/// `libc::F_OK`: the access mask that asks only whether the file exists, 0.
#[verifier::external_body]
fn f_ok() -> (mask: i32)
    ensures
        mask == 0,
{
    libc::F_OK
}

/// `libc::X_OK`: the access mask that asks for execution, 1.
#[verifier::external_body]
fn x_ok() -> (mask: i32)
    ensures
        mask == 1,
{
    libc::X_OK
}

/// `libc::S_ISVTX`: the sticky bit of a mode, `0o1000`.
#[verifier::external_body]
fn s_isvtx() -> (bits: u32)
    ensures
        bits == 0x200,
{
    libc::S_ISVTX as u32
}

/// `libc::R_OK`: the access mask that asks for reading, 4.
#[verifier::external_body]
fn r_ok() -> (mask: i32)
    ensures
        mask == 4,
{
    libc::R_OK
}

/// `libc::W_OK`: the access mask that asks for writing, 2.
#[verifier::external_body]
fn w_ok() -> (mask: i32)
    ensures
        mask == 2,
{
    libc::W_OK
}

/// How an open asks to use the file.
#[derive(Clone, Copy, Debug, PartialEq, Eq, Structural)]
pub enum AccessMode {
    ReadOnly,
    WriteOnly,
    ReadWrite,
    /// None of the three.
    Other,
}

/// Why an open is turned down before the file is looked at.
#[derive(Clone, Copy, Debug, PartialEq, Eq, Structural)]
pub enum OpenRefusal {
    /// The open asks to truncate a file that it opens for reading only.
    Access,
    /// The access mode is none of the three.
    Invalid,
}

/// What an open may do, if it is well-formed: the access mask to check for
/// it, and whether its handle reads and writes.
pub open spec fn rights_of_open(mode: AccessMode, truncates: bool) -> Result<
    (i32, bool, bool),
    OpenRefusal,
> {
    match mode {
        AccessMode::ReadOnly => if truncates {
            Err(OpenRefusal::Access)
        } else {
            Ok((4i32, true, false))
        },
        AccessMode::WriteOnly => Ok((2i32, false, true)),
        AccessMode::ReadWrite => Ok((6i32, true, true)),
        AccessMode::Other => Err(OpenRefusal::Invalid),
    }
}

/// The access mask to check for an open, and whether its handle reads and
/// writes. An open for reading only that asks to truncate, and an open with
/// no access mode, are turned down.
pub fn open_rights(mode: AccessMode, truncates: bool) -> (r: Result<(i32, bool, bool), OpenRefusal>)
    ensures
        r == rights_of_open(mode, truncates),
{
    match mode {
        AccessMode::ReadOnly => {
            if truncates {
                Err(OpenRefusal::Access)
            } else {
                Ok((r_ok(), true, false))
            }
        },
        AccessMode::WriteOnly => Ok((w_ok(), false, true)),
        AccessMode::ReadWrite => {
            let both: i32 = r_ok() | w_ok();
            assert(4i32 | 2i32 == 6i32) by (bit_vector);
            Ok((both, true, true))
        },
        AccessMode::Other => Err(OpenRefusal::Invalid),
    }
}

/// Whether the sticky bit of the parent keeps caller `uid` from removing an
/// entry: the bit is set, and the caller is neither root nor the owner of the
/// parent nor the owner of the entry.
pub fn sticky_denies(parent_mode: u16, parent_uid: u32, inode_uid: u32, uid: u32) -> (r: bool)
    ensures
        r == (parent_mode & 0x200 != 0 && uid != 0 && uid != parent_uid && uid != inode_uid),
{
    let bit: u16 = s_isvtx() as u16;
    parent_mode & bit != 0 && uid != 0 && uid != parent_uid && uid != inode_uid
}

/// The mode that a caller `uid` may ask for: root's as it is, anyone else's
/// without the set-user-id and set-group-id bits.
pub fn requested_mode(mode: u32, uid: u32) -> (r: u32)
    ensures
        r == (if uid != 0 {
            mode & !0xC00u32
        } else {
            mode
        }),
{
    if uid != 0 {
        let strip: u32 = s_isuid() | s_isgid();
        assert(strip == 0xC00u32) by (bit_vector)
            requires
                strip == 0x800u32 | 0x400u32,
        ;
        mode & !strip
    } else {
        mode
    }
}

/// The mode that a new directory gets from the mode asked for: a parent with
/// the set-group-id bit passes the bit on.
pub fn inherited_mode(mode: u32, parent_mode: u16) -> (r: u32)
    ensures
        r == (if parent_mode & 0x400 != 0 {
            mode | 0x400u32
        } else {
            mode
        }),
{
    let bit: u32 = s_isgid();
    if parent_mode & (bit as u16) != 0 {
        mode | bit
    } else {
        mode
    }
}

/// The file type that the type bits of `mode` name, if it is one that the
/// file system stores.
pub open spec fn file_kind_of(mode: u32) -> Option<InodeFileType> {
    if mode & 0xF000 == 0x8000 {
        Some(InodeFileType::File)
    } else if mode & 0xF000 == 0x4000 {
        Some(InodeFileType::Directory)
    } else {
        None
    }
}

/// The file type that the type bits of `mode` name: a regular file or a
/// directory.
pub fn as_file_kind(mode: u32) -> (kind: InodeFileType)
    requires
        file_kind_of(mode) is Some,
    ensures
        Some(kind) == file_kind_of(mode),
{
    let kind_bits: u32 = mode & s_ifmt();
    if kind_bits == s_ifreg() {
        InodeFileType::File
    } else {
        InodeFileType::Directory
    }
}

/// Whether the type bits of `mode` name a file type that the file system
/// stores.
pub fn is_file_kind(mode: u32) -> (r: bool)
    ensures
        r == file_kind_of(mode) is Some,
{
    let kind_bits: u32 = mode & s_ifmt();
    kind_bits == s_ifreg() || kind_bits == s_ifdir()
}

/// The group of an inode made in `parent` by a caller of group `gid`: the
/// parent's group where the parent has its set-group-id bit, the caller's
/// otherwise.
pub fn creation_gid(parent: &InodeStat, gid: u32) -> (r: u32)
    ensures
        r == (if parent.mode & 0x400 != 0 {
            parent.gid
        } else {
            gid
        }),
{
    let bit: u16 = s_isgid() as u16;
    if parent.mode & bit != 0 {
        return parent.gid;
    }
    gid
}

/// The mode of a new inode: `mode` without its set-user-id and set-group-id
/// bits, cut to 16 bits.
pub fn creation_mode(mode: u32) -> (r: u16)
    ensures
        r == (mode & !0xC00u32 & 0xFFFF) as u16,
{
    let strip: u32 = s_isuid() | s_isgid();
    assert(strip == 0xC00u32) by (bit_vector)
        requires
            strip == 0x800u32 | 0x400u32,
    ;
    let kept: u32 = mode & !strip & 0xFFFF;
    assert(kept <= 0xFFFF) by (bit_vector)
        requires
            kept == mode & !strip & 0xFFFF,
    ;
    kept as u16
}

/// Whether the handle grants reading.
pub fn check_file_handle_read(file_handle: u64) -> (r: bool)
    ensures
        r == (file_handle & FILE_HANDLE_READ_BIT != 0),
{
    (file_handle & FILE_HANDLE_READ_BIT) != 0
}

/// Whether the handle grants writing.
pub fn check_file_handle_write(file_handle: u64) -> (r: bool)
    ensures
        r == (file_handle & FILE_HANDLE_WRITE_BIT != 0),
{
    (file_handle & FILE_HANDLE_WRITE_BIT) != 0
}

/// The handle with number `counter` and the given rights.
pub open spec fn file_handle_of(counter: u64, read: bool, write: bool) -> u64 {
    let with_read = if read {
        counter | FILE_HANDLE_READ_BIT
    } else {
        counter
    };
    if write {
        with_read | FILE_HANDLE_WRITE_BIT
    } else {
        with_read
    }
}

/// The handle with number `counter` that grants reading if `read` and
/// writing if `write`. The number must leave the two rights bits free.
pub fn allocate_file_handle(counter: u64, read: bool, write: bool) -> (fh: u64)
    requires
        counter < FILE_HANDLE_WRITE_BIT,
    ensures
        fh == file_handle_of(counter, read, write),
        (fh & FILE_HANDLE_READ_BIT != 0) == read,
        (fh & FILE_HANDLE_WRITE_BIT != 0) == write,
        fh & 0x3FFF_FFFF_FFFF_FFFF == counter,
{
    let mut fh: u64 = counter;
    if read {
        fh = fh | FILE_HANDLE_READ_BIT;
    }
    if write {
        fh = fh | FILE_HANDLE_WRITE_BIT;
    }
    assert(counter < 0x4000_0000_0000_0000u64 ==> {
        &&& (counter | 0x8000_0000_0000_0000u64) & 0x8000_0000_0000_0000u64 != 0
        &&& (counter | 0x8000_0000_0000_0000u64) & 0x4000_0000_0000_0000u64 == 0
        &&& (counter | 0x4000_0000_0000_0000u64) & 0x4000_0000_0000_0000u64 != 0
        &&& (counter | 0x4000_0000_0000_0000u64) & 0x8000_0000_0000_0000u64 == 0
        &&& (counter | 0x8000_0000_0000_0000u64 | 0x4000_0000_0000_0000u64)
            & 0x8000_0000_0000_0000u64 != 0
        &&& (counter | 0x8000_0000_0000_0000u64 | 0x4000_0000_0000_0000u64)
            & 0x4000_0000_0000_0000u64 != 0
        &&& counter & 0x8000_0000_0000_0000u64 == 0
        &&& counter & 0x4000_0000_0000_0000u64 == 0
        &&& counter & 0x3FFF_FFFF_FFFF_FFFFu64 == counter
        &&& (counter | 0x8000_0000_0000_0000u64) & 0x3FFF_FFFF_FFFF_FFFFu64 == counter
        &&& (counter | 0x4000_0000_0000_0000u64) & 0x3FFF_FFFF_FFFF_FFFFu64 == counter
        &&& (counter | 0x8000_0000_0000_0000u64 | 0x4000_0000_0000_0000u64)
            & 0x3FFF_FFFF_FFFF_FFFFu64 == counter
    }) by (bit_vector);
    fh
}

/// The permission bits of `file_mode` that apply to a caller: the owner's
/// for the owner, the group's for a member of the group, the others' for
/// anyone else.
pub open spec fn applicable_bits(
    file_uid: u32,
    file_gid: u32,
    file_mode: u16,
    uid: u32,
    gid: u32,
) -> i32 {
    if uid == file_uid {
        (file_mode as i32) >> 6
    } else if gid == file_gid {
        (file_mode as i32) >> 3
    } else {
        file_mode as i32
    }
}

/// Whether a caller `uid`/`gid` may access a file of owner `file_uid`, group
/// `file_gid` and mode `file_mode` in the ways that `access_mask` asks for.
/// The mask 0 asks only for existence and is always granted. Root may read
/// and write anything, and execute what anyone may execute. Anyone else is
/// granted what the applicable permission bits hold.
pub open spec fn access_granted(
    file_uid: u32,
    file_gid: u32,
    file_mode: u16,
    uid: u32,
    gid: u32,
    access_mask: i32,
) -> bool {
    if access_mask == 0 {
        true
    } else if uid == 0 {
        (access_mask & 1) & !(((file_mode as i32) >> 6) | ((file_mode as i32) >> 3) | (
        file_mode as i32)) == 0
    } else {
        access_mask & !applicable_bits(file_uid, file_gid, file_mode, uid, gid) == 0
    }
}

/// `mask` without the bits of `bits`.
fn without(mask: i32, bits: i32) -> (r: i32)
    ensures
        r == mask & !bits,
{
    mask & !bits
}

/// Whether the caller may access the file in the ways that `access_mask`
/// asks for.
pub fn check_access(
    file_uid: u32,
    file_gid: u32,
    file_mode: u16,
    uid: u32,
    gid: u32,
    access_mask: i32,
) -> (r: bool)
    ensures
        r == access_granted(file_uid, file_gid, file_mode, uid, gid, access_mask),
{
    let mut access_mask: i32 = access_mask;
    if access_mask == f_ok() {
        return true;
    }
    let file_mode: i32 = file_mode as i32;
    if uid == 0 {
        access_mask = access_mask & x_ok();
        let ghost start = access_mask;
        access_mask = without(access_mask, file_mode >> 6);
        access_mask = without(access_mask, file_mode >> 3);
        access_mask = without(access_mask, file_mode);
        assert(((start & !(file_mode >> 6)) & !(file_mode >> 3)) & !file_mode == start & !((
        file_mode >> 6) | (file_mode >> 3) | file_mode)) by (bit_vector);
        return access_mask == 0;
    }
    if uid == file_uid {
        access_mask = without(access_mask, file_mode >> 6);
    } else if gid == file_gid {
        access_mask = without(access_mask, file_mode >> 3);
    } else {
        access_mask = without(access_mask, file_mode);
    }
    access_mask == 0
}

} // verus!
