//! The CRC32 of a payload.

use vstd::prelude::*;

verus! {

/// The CRC32 (IEEE) checksum of a byte string.
pub uninterp spec fn crc32_of(data: Seq<u8>) -> u32;

/// Relies on `crc32fast::hash`: the CRC32 of the bytes given, which depends on
/// those bytes alone.
#[verifier::external_body]
pub(crate) fn checksum(data: &[u8], start: usize, end: usize) -> (r: u32)
    requires
        start <= end <= data@.len(),
    ensures
        r == crc32_of(data@.subrange(start as int, end as int)),
{
    crc32fast::hash(&data[start..end])
}

} // verus!
