//! Records as the key-value store holds them.

pub mod raw_inode;
