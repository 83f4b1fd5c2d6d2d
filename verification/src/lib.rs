//! A log-structured, flash-aware storage stack.
//!
//! The medium behaves like NAND flash: a page is written once between erases
//! of its block, and every page that reaches the medium is signed. The stack
//! is, bottom-up: a device ([`driver`]), a signature centre and a translation
//! layer ([`tl`]) fed through a write buffer ([`write_buf`]), a page cache
//! ([`buf`]) and a garbage collector ([`gc`]).
//!
//! Around the stack stand the rules of the file-system facade ([`fuse`]),
//! the table of inodes in use ([`inode`]), the records of the key-value
//! store ([`kv`]) and the choice of a codec ([`compress`]). [`util`] holds
//! what they share, and [`error`] the refusals that the stack reports.

pub mod error;
pub mod util;
pub mod driver;
pub mod write_buf;
pub mod tl;
pub mod buf;
pub mod gc;
pub mod compress;
pub mod kv;
pub mod inode;
pub mod fuse;
