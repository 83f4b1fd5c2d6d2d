//! The device: page read, page write-once, block erase.

pub mod disk;
pub mod fake_disk;
pub mod disk_manager;
