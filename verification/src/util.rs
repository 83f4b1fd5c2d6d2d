//! Helpers shared by every layer: page constants, fixed-size arrays, CRC-32C.

pub mod page;
pub mod array;
pub mod crc32;
pub mod clock;
pub mod lru_cache;
