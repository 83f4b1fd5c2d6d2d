//! The rules that the file-system facade applies to requests: access checks,
//! creation modes, file handles, and the attributes it reports.

pub mod permission;
pub mod groups;
pub mod fuse_helper;
