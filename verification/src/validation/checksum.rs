//! The CRC-32 checksum.

use vstd::prelude::*;

verus! {

/// The CRC-32 checksum (IEEE 802.3) of a byte string, as `crc32fast` computes it.
pub uninterp spec fn crc32_ieee(bytes: Seq<u8>) -> u32;

/// `crc32fast::hash` returns the CRC-32 checksum of the bytes it is given: it
/// feeds them to a fresh hasher and finalizes it. The checksum depends on the
/// bytes alone, whichever implementation the crate picks for the processor.
pub assume_specification[ crc32fast::hash ](buf: &[u8]) -> (checksum: u32)
    ensures
        checksum == crc32_ieee(buf@),
;

/// The CRC-32 checksum of `bytes`.
pub fn crc32(bytes: &[u8]) -> (checksum: u32)
    ensures
        checksum == crc32_ieee(bytes@),
{
    crc32fast::hash(bytes)
}

} // verus!
