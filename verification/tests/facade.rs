use wondfs::fuse::fuse_helper::{
    directory_is_empty, directory_removed, link_added, link_removed, new_directory_stat,
    new_node_stat, opened, released, root_stat, touch_directory, transfer_stat_to_attr,
};
use wondfs::fuse::groups::{get_groups, starts_groups_line};
use wondfs::fuse::permission::{
    allocate_file_handle, as_file_kind, check_access, check_file_handle_read,
    check_file_handle_write, creation_gid, creation_mode, inherited_mode, is_file_kind,
    open_rights, requested_mode, sticky_denies, AccessMode, OpenRefusal, FILE_HANDLE_READ_BIT,
    FILE_HANDLE_WRITE_BIT,
};
use wondfs::inode::inode::{InodeFileType, InodeStat};
use wondfs::kv::raw_inode::{RawEntry, RawInode};

fn stat(mode: u16, gid: u32, size: u32) -> InodeStat {
    InodeStat {
        file_type: InodeFileType::Directory,
        ino: 12,
        size,
        uid: 1000,
        gid,
        ref_cnt: 0,
        n_link: 2,
        mode,
        last_accessed: (10, 1),
        last_modified: (20, 2),
        last_metadata_changed: (-30, 3),
    }
}

#[test]
fn file_kinds() {
    assert_eq!(as_file_kind(0o100644), InodeFileType::File);
    assert_eq!(as_file_kind(0o040755), InodeFileType::Directory);
    assert!(is_file_kind(0o100000));
    assert!(is_file_kind(0o040000));
    assert!(!is_file_kind(0o120777));
    assert!(!is_file_kind(0o644));
}

#[test]
fn creation_rules() {
    assert_eq!(creation_gid(&stat(0o2755, 50, 0), 7), 50);
    assert_eq!(creation_gid(&stat(0o755, 50, 0), 7), 7);
    assert_eq!(creation_mode(0o106755), 0o100755);
    assert_eq!(creation_mode(0o104644), 0o100644);
    assert_eq!(creation_mode(0o1777), 0o1777);
    assert_eq!(creation_mode(0x0001_0000 | 0o644), 0o644);
}

#[test]
fn file_handles() {
    assert!(check_file_handle_read(FILE_HANDLE_READ_BIT | 5));
    assert!(!check_file_handle_read(FILE_HANDLE_WRITE_BIT | 5));
    assert!(check_file_handle_write(FILE_HANDLE_WRITE_BIT | 5));
    assert!(!check_file_handle_write(5));
    assert_eq!(allocate_file_handle(5, true, false), (1 << 63) | 5);
    assert_eq!(allocate_file_handle(5, false, true), (1 << 62) | 5);
    assert_eq!(allocate_file_handle(5, true, true), (3 << 62) | 5);
    assert_eq!(allocate_file_handle(5, false, false), 5);
}

#[test]
fn access_rules() {
    // existence is granted to anyone
    assert!(check_access(1, 1, 0, 2, 2, 0));
    // the owner goes by the owner's bits
    assert!(check_access(1, 1, 0o600, 1, 9, 4 | 2));
    assert!(!check_access(1, 1, 0o600, 1, 9, 1));
    assert!(!check_access(1, 1, 0o077, 1, 1, 4));
    // a member of the group by the group's bits
    assert!(check_access(1, 5, 0o640, 2, 5, 4));
    assert!(!check_access(1, 5, 0o640, 2, 5, 2));
    // anyone else by the others' bits
    assert!(check_access(1, 5, 0o604, 2, 6, 4));
    assert!(!check_access(1, 5, 0o640, 2, 6, 4));
    // root reads and writes anything, and executes what anyone may execute
    assert!(check_access(1, 5, 0, 0, 0, 4 | 2));
    assert!(!check_access(1, 5, 0o666, 0, 0, 1));
    assert!(check_access(1, 5, 0o001, 0, 0, 1 | 4));
    assert!(check_access(1, 5, 0o010, 0, 0, 1));
}

#[test]
fn reported_attributes() {
    let attr = transfer_stat_to_attr(stat(0o755, 50, 1025));
    assert_eq!(attr.ino, 12);
    assert_eq!(attr.size, 1025);
    assert_eq!(attr.blocks, 3);
    assert_eq!(attr.atime, (10, 1));
    assert_eq!(attr.mtime, (20, 2));
    assert_eq!(attr.ctime, (-30, 3));
    assert_eq!(attr.crtime, (0, 0));
    assert_eq!(attr.kind, InodeFileType::Directory);
    assert_eq!(attr.perm, 0o755);
    assert_eq!(attr.nlink, 2);
    assert_eq!((attr.uid, attr.gid), (1000, 50));
    assert_eq!((attr.rdev, attr.flags, attr.blksize, attr.padding), (0, 0, 512, 0));
    assert_eq!(transfer_stat_to_attr(stat(0, 0, 0)).blocks, 0);
    assert_eq!(transfer_stat_to_attr(stat(0, 0, 512)).blocks, 1);
    assert_eq!(transfer_stat_to_attr(stat(0, 0, 513)).blocks, 2);
}

#[test]
fn raw_records() {
    let entry = RawEntry { len: 1, size: 2, offset: 3, address: 4 };
    let copy = entry;
    let inode = RawInode {
        ino: 1,
        uid: 2,
        gid: 3,
        size: 4,
        n_link: 1,
        ref_cnt: 0,
        file_type: 0,
        mode: 0o644,
        last_accessed: (0, 0),
        last_modified: (0, 0),
        last_metadata_changed: (0, 0),
        data: vec![entry, copy],
    };
    assert_eq!(inode.data.len(), 2);
    assert_eq!(inode.data[1].address, 4);
}

#[test]
fn open_rules() {
    assert_eq!(open_rights(AccessMode::ReadOnly, false), Ok((4, true, false)));
    assert_eq!(open_rights(AccessMode::ReadOnly, true), Err(OpenRefusal::Access));
    assert_eq!(open_rights(AccessMode::WriteOnly, false), Ok((2, false, true)));
    assert_eq!(open_rights(AccessMode::WriteOnly, true), Ok((2, false, true)));
    assert_eq!(open_rights(AccessMode::ReadWrite, true), Ok((6, true, true)));
    assert_eq!(open_rights(AccessMode::Other, false), Err(OpenRefusal::Invalid));
}

#[test]
fn sticky_bit_rule() {
    // the bit set: only root, the owner of the parent and the owner of the entry may remove
    assert!(sticky_denies(0o1777, 10, 20, 30));
    assert!(!sticky_denies(0o1777, 10, 20, 0));
    assert!(!sticky_denies(0o1777, 10, 20, 10));
    assert!(!sticky_denies(0o1777, 10, 20, 20));
    // the bit clear: no one is kept out
    assert!(!sticky_denies(0o0777, 10, 20, 30));
    assert!(!sticky_denies(0o6777, 10, 20, 30));
}

#[test]
fn mode_rules() {
    assert_eq!(requested_mode(0o106755, 1000), 0o100755);
    assert_eq!(requested_mode(0o106755, 0), 0o106755);
    assert_eq!(inherited_mode(0o755, 0o2755), 0o2755);
    assert_eq!(inherited_mode(0o755, 0o4755), 0o755);
    assert_eq!(inherited_mode(0o2700, 0o2755), 0o2700);
}

#[test]
fn groups_line() {
    assert!(starts_groups_line(b"Groups:\t4 24 27"));
    assert!(starts_groups_line(b"Groups:"));
    assert!(!starts_groups_line(b"Group:\t4"));
    assert!(!starts_groups_line(b"Gid:\t1000"));
    assert!(!starts_groups_line(b"groups:\t4"));
    assert_eq!(get_groups(b"Groups:\t4 24 27 1000 "), Some(vec![4, 24, 27, 1000]));
    assert_eq!(get_groups(b"Groups:\t"), Some(vec![]));
    assert_eq!(get_groups(b"Groups:\t  7   \t 8"), Some(vec![7, 8]));
    assert_eq!(get_groups(b"Groups: +5 007 4294967295"), Some(vec![5, 7, 4294967295]));
    assert_eq!(get_groups(b"Groups:x12"), Some(vec![12]));
}

#[test]
fn groups_line_that_is_malformed() {
    // too short to have a list
    assert_eq!(get_groups(b"Groups:"), None);
    assert_eq!(get_groups(b""), None);
    // a field that is no number
    assert_eq!(get_groups(b"Groups:\t4 x 5"), None);
    assert_eq!(get_groups(b"Groups:\t-4"), None);
    assert_eq!(get_groups(b"Groups:\t+"), None);
    assert_eq!(get_groups(b"Groups:\t4\t5"), None);
    assert_eq!(get_groups(b"Groups:\t12a"), None);
    // a number that does not fit in 32 bits
    assert_eq!(get_groups(b"Groups:\t4294967296"), None);
    assert_eq!(get_groups(b"Groups:\t99999999999999999999999"), None);
}

#[test]
fn stat_of_new_inodes() {
    let root = root_stat(1, (5, 6));
    assert_eq!(root.file_type, InodeFileType::Directory);
    assert_eq!((root.ino, root.size, root.uid, root.gid), (1, 0, 0, 0));
    assert_eq!((root.ref_cnt, root.n_link, root.mode), (0, 2, 0o777));
    assert_eq!(root.last_accessed, (5, 6));
    assert_eq!(root.last_modified, (5, 6));
    assert_eq!(root.last_metadata_changed, (5, 6));

    let parent = stat(0o2755, 50, 0);
    let file = new_node_stat(9, 0o106644, 7, 8, &parent, (1, 2), 1);
    assert_eq!(file.file_type, InodeFileType::File);
    assert_eq!((file.ino, file.size, file.uid, file.gid), (9, 0, 7, 50));
    assert_eq!((file.ref_cnt, file.n_link, file.mode), (1, 1, 0o100644));
    assert_eq!(file.last_modified, (1, 2));

    let plain_parent = stat(0o755, 50, 0);
    let dir = new_directory_stat(10, 0o755, 7, 8, &plain_parent, (3, 4));
    assert_eq!(dir.file_type, InodeFileType::Directory);
    assert_eq!((dir.ino, dir.size, dir.uid, dir.gid), (10, 0, 7, 8));
    assert_eq!((dir.ref_cnt, dir.n_link, dir.mode), (0, 2, 0o755));
    assert_eq!(dir.last_accessed, (3, 4));
}

#[test]
fn stat_changes() {
    let s = stat(0o755, 50, 100);
    let t = touch_directory(s, (7, 7));
    assert_eq!(t.last_modified, (7, 7));
    assert_eq!(t.last_metadata_changed, (7, 7));
    assert_eq!(t.last_accessed, (10, 1));
    assert_eq!(t.n_link, 2);

    let more = link_added(s, (8, 8));
    assert_eq!(more.n_link, 3);
    assert_eq!(more.last_metadata_changed, (8, 8));
    assert_eq!(more.last_modified, (20, 2));
    let less = link_removed(more, (9, 9));
    assert_eq!(less.n_link, 2);
    assert_eq!(less.last_metadata_changed, (9, 9));
    let gone = directory_removed(s, (9, 1));
    assert_eq!(gone.n_link, 0);
    assert_eq!(gone.last_metadata_changed, (9, 1));
    assert_eq!(gone.size, 100);

    assert_eq!(opened(s).ref_cnt, 1);
    assert_eq!(released(opened(s)).ref_cnt, 0);
    assert_eq!(opened(s).n_link, 2);

    assert!(directory_is_empty(0));
    assert!(directory_is_empty(28));
    assert!(!directory_is_empty(29));
}
