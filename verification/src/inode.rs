//! Inodes in memory.

pub mod inode;
pub mod inode_manager;
