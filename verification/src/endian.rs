//! Fixed-width numbers as little-endian bytes, and signed numbers as their
//! two's complement bit patterns.

use vstd::prelude::*;
use vstd::arithmetic::div_mod::lemma_fundamental_div_mod_converse;

verus! {

/// The four bytes of `x`, least significant first.
pub open spec fn le_u32_bytes(x: u32) -> Seq<u8> {
    seq![
        (x % 256) as u8,
        (x / 256 % 256) as u8,
        (x / 65536 % 256) as u8,
        (x / 16777216 % 256) as u8,
    ]
}

/// The number that the first four of `bytes` denote, least significant first.
pub open spec fn le_u32(bytes: Seq<u8>) -> u32
    recommends
        bytes.len() >= 4,
{
    (bytes[0] as int + bytes[1] as int * 256 + bytes[2] as int * 65536 + bytes[3] as int
        * 16777216) as u32
}

/// The eight bytes of `x`, least significant first.
pub open spec fn le_u64_bytes(x: u64) -> Seq<u8> {
    le_u32_bytes((x % 0x1_0000_0000) as u32) + le_u32_bytes((x / 0x1_0000_0000) as u32)
}

/// The number that the first eight of `bytes` denote, least significant first.
pub open spec fn le_u64(bytes: Seq<u8>) -> u64
    recommends
        bytes.len() >= 8,
{
    (le_u32(bytes.subrange(0, 4)) as int + le_u32(bytes.subrange(4, 8)) as int * 0x1_0000_0000) as u64
}

/// The two's complement bit pattern of `x`.
pub open spec fn i64_bits(x: i64) -> u64 {
    if x >= 0 {
        x as u64
    } else {
        (x + 0x1_0000_0000_0000_0000) as u64
    }
}

/// The signed number whose two's complement bit pattern is `bits`.
pub open spec fn i64_of_bits(bits: u64) -> i64 {
    if bits < 0x8000_0000_0000_0000 {
        bits as i64
    } else {
        (bits - 0x1_0000_0000_0000_0000) as i64
    }
}

/// Reading back the four bytes of a number gives the number.
pub proof fn lemma_le_u32_of_bytes(x: u32)
    ensures
        le_u32_bytes(x).len() == 4,
        le_u32(le_u32_bytes(x)) == x,
{
}

/// Writing out the number that four bytes denote gives the bytes back.
pub proof fn lemma_le_u32_bytes_of(bytes: Seq<u8>)
    requires
        bytes.len() == 4,
    ensures
        le_u32_bytes(le_u32(bytes)) == bytes,
{
    let b0 = bytes[0] as int;
    let b1 = bytes[1] as int;
    let b2 = bytes[2] as int;
    let b3 = bytes[3] as int;
    let x = b0 + b1 * 256 + b2 * 65536 + b3 * 16777216;
    assert(le_u32(bytes) == x);
    lemma_fundamental_div_mod_converse(x, 256, b1 + b2 * 256 + b3 * 65536, b0);
    lemma_fundamental_div_mod_converse(x / 256, 256, b2 + b3 * 256, b1);
    lemma_fundamental_div_mod_converse(x / 65536, 256, b3, b2);
    assert(x / 65536 == x / 256 / 256);
    assert(x / 16777216 == x / 65536 / 256);
    assert(le_u32_bytes(le_u32(bytes)) =~= bytes);
}

/// Reading back the eight bytes of a number gives the number.
pub proof fn lemma_le_u64_of_bytes(x: u64)
    ensures
        le_u64_bytes(x).len() == 8,
        le_u64(le_u64_bytes(x)) == x,
{
    let lo = (x % 0x1_0000_0000) as u32;
    let hi = (x / 0x1_0000_0000) as u32;
    lemma_le_u32_of_bytes(lo);
    lemma_le_u32_of_bytes(hi);
    let b = le_u64_bytes(x);
    assert(b.subrange(0, 4) =~= le_u32_bytes(lo));
    assert(b.subrange(4, 8) =~= le_u32_bytes(hi));
}

/// Writing out the number that eight bytes denote gives the bytes back.
pub proof fn lemma_le_u64_bytes_of(bytes: Seq<u8>)
    requires
        bytes.len() == 8,
    ensures
        le_u64_bytes(le_u64(bytes)) == bytes,
{
    let lo = bytes.subrange(0, 4);
    let hi = bytes.subrange(4, 8);
    lemma_le_u32_bytes_of(lo);
    lemma_le_u32_bytes_of(hi);
    let x = le_u64(bytes);
    lemma_fundamental_div_mod_converse(
        x as int,
        0x1_0000_0000,
        le_u32(hi) as int,
        le_u32(lo) as int,
    );
    assert(le_u64_bytes(x) =~= bytes);
}

/// A signed number and its bit pattern determine each other.
pub proof fn lemma_i64_bits(x: i64, bits: u64)
    ensures
        i64_of_bits(i64_bits(x)) == x,
        i64_bits(i64_of_bits(bits)) == bits,
{
}

/// The four bytes of `x`, least significant first.
pub fn u32_to_le(x: u32) -> (bytes: [u8; 4])
    ensures
        bytes@ == le_u32_bytes(x),
{
    let bytes = [
        (x % 256) as u8,
        (x / 256 % 256) as u8,
        (x / 65536 % 256) as u8,
        (x / 16777216 % 256) as u8,
    ];
    proof {
        assert(bytes@ =~= le_u32_bytes(x));
    }
    bytes
}

/// The number that the four bytes of `bytes` from `at` on denote, least
/// significant first.
pub fn u32_from_le(bytes: &[u8], at: usize) -> (x: u32)
    requires
        at + 4 <= bytes@.len(),
    ensures
        x == le_u32(bytes@.subrange(at as int, at + 4)),
{
    let b0: u32 = bytes[at] as u32;
    let b1: u32 = bytes[at + 1] as u32;
    let b2: u32 = bytes[at + 2] as u32;
    let b3: u32 = bytes[at + 3] as u32;
    b0 + b1 * 256 + b2 * 65536 + b3 * 16777216
}

/// The eight bytes of `x`, least significant first.
pub fn u64_to_le(x: u64) -> (bytes: [u8; 8])
    ensures
        bytes@ == le_u64_bytes(x),
{
    let lo = u32_to_le((x % 0x1_0000_0000) as u32);
    let hi = u32_to_le((x / 0x1_0000_0000) as u32);
    let bytes = [lo[0], lo[1], lo[2], lo[3], hi[0], hi[1], hi[2], hi[3]];
    proof {
        assert(bytes@ =~= le_u64_bytes(x));
    }
    bytes
}

/// The number that the eight bytes of `bytes` from `at` on denote, least
/// significant first.
pub fn u64_from_le(bytes: &[u8], at: usize) -> (x: u64)
    requires
        at + 8 <= bytes@.len(),
    ensures
        x == le_u64(bytes@.subrange(at as int, at + 8)),
{
    proof {
        assert(bytes@.len() == bytes.len());
    }
    let lo = u32_from_le(bytes, at);
    let hi = u32_from_le(bytes, at + 4);
    proof {
        let whole = bytes@.subrange(at as int, at + 8);
        assert(whole.subrange(0, 4) =~= bytes@.subrange(at as int, at + 4));
        assert(whole.subrange(4, 8) =~= bytes@.subrange(at + 4, at + 8));
    }
    lo as u64 + hi as u64 * 0x1_0000_0000
}

/// The two's complement bit pattern of `x`.
pub fn i64_to_bits(x: i64) -> (bits: u64)
    ensures
        bits == i64_bits(x),
{
    if x >= 0 {
        x as u64
    } else {
        (x - i64::MIN) as u64 + 0x8000_0000_0000_0000
    }
}

/// The signed number whose two's complement bit pattern is `bits`.
pub fn i64_from_bits(bits: u64) -> (x: i64)
    ensures
        x == i64_of_bits(bits),
{
    if bits < 0x8000_0000_0000_0000 {
        bits as i64
    } else {
        (bits - 0x8000_0000_0000_0000) as i64 + i64::MIN
    }
}

} // verus!
