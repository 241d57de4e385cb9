//! The binary encoding of revision-log records: little-endian fixed-width
//! integers, sequences prefixed by a 64-bit element count, and node ids as
//! twenty raw bytes.

pub mod entry;
pub mod header;
pub mod wire;
