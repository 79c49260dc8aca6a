//! A growing byte buffer.

use vstd::prelude::*;
use crate::endian::{i64_bits, i64_to_bits, le_u32_bytes, le_u64_bytes, u32_to_le, u64_to_le};

verus! {

/// A growing byte buffer with little-endian writes.
pub struct ByteWriter {
    buf: Vec<u8>,
}

impl View for ByteWriter {
    type V = Seq<u8>;

    closed spec fn view(&self) -> Seq<u8> {
        self.buf@
    }
}

impl ByteWriter {
    /// An empty writer with room for `capacity` bytes.
    pub fn with_capacity(capacity: usize) -> (writer: ByteWriter)
        ensures
            writer@ == Seq::<u8>::empty(),
    {
        ByteWriter { buf: Vec::with_capacity(capacity) }
    }

    /// The bytes written so far.
    pub fn into_inner(self) -> (bytes: Vec<u8>)
        ensures
            bytes@ == self@,
    {
        self.buf
    }

    /// The bytes written so far.
    pub fn as_slice(&self) -> (bytes: &[u8])
        ensures
            bytes@ == self@,
    {
        self.buf.as_slice()
    }

    /// Appends one byte.
    pub fn write_u8(&mut self, value: u8)
        ensures
            final(self)@ == old(self)@.push(value),
    {
        self.buf.push(value);
    }

    /// Appends the four bytes of `value`, least significant first.
    pub fn write_u32_le(&mut self, value: u32)
        ensures
            final(self)@ == old(self)@ + le_u32_bytes(value),
    {
        let bytes = u32_to_le(value);
        self.buf.extend_from_slice(bytes.as_slice());
    }

    /// Appends the eight bytes of the two's complement of `value`, least
    /// significant first.
    pub fn write_i64_le(&mut self, value: i64)
        ensures
            final(self)@ == old(self)@ + le_u64_bytes(i64_bits(value)),
    {
        let bytes = u64_to_le(i64_to_bits(value));
        self.buf.extend_from_slice(bytes.as_slice());
    }

    /// Appends the eight bytes of a binary64 number given by its bit pattern,
    /// least significant first.
    pub fn write_f64_le(&mut self, bits: u64)
        ensures
            final(self)@ == old(self)@ + le_u64_bytes(bits),
    {
        let bytes = u64_to_le(bits);
        self.buf.extend_from_slice(bytes.as_slice());
    }

    /// Appends `bytes`.
    pub fn write_bytes(&mut self, bytes: &[u8])
        ensures
            final(self)@ == old(self)@ + bytes@,
    {
        self.buf.extend_from_slice(bytes);
    }
}

} // verus!
