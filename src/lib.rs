//! A write-ahead log: an append-only, checksummed sequence of binary records
//! addressed by a growing integer index, kept as the byte image of the log file.
//!
//! The image starts with the index of its first entry (eight bytes, little
//! endian) and continues with the entries, each of them
//! `[length: u64 LE][payload][crc32: u32 LE]`.

use vstd::prelude::*;

pub mod codec;
pub mod format;
pub mod checksum;
pub mod error;
pub mod log;
pub mod laws;

verus! {

} // verus!
