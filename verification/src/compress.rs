//! Compression: which codec a piece of data gets.

pub mod compress;
