//! A bounded cursor over a byte slice.

use vstd::prelude::*;
use vstd::slice::slice_subrange;
use crate::endian::{le_u32, u32_from_le};

verus! {

/// A cursor over a byte slice that never reads past its end.
#[derive(Clone, Copy)]
pub struct ByteReader<'a> {
    bytes: &'a [u8],
    pos: usize,
}

impl<'a> View for ByteReader<'a> {
    type V = Seq<u8>;

    /// The bytes not yet read.
    closed spec fn view(&self) -> Seq<u8> {
        self.bytes@.skip(self.pos as int)
    }
}

impl<'a> ByteReader<'a> {
    /// The cursor stands within the slice or at its end.
    #[verifier::type_invariant]
    spec fn in_bounds(self) -> bool {
        self.pos <= self.bytes@.len()
    }

    /// A reader at the start of `bytes`.
    pub fn new(bytes: &'a [u8]) -> (reader: ByteReader<'a>)
        ensures
            reader@ == bytes@,
    {
        let reader = ByteReader { bytes, pos: 0 };
        proof {
            assert(reader@ =~= bytes@);
        }
        reader
    }

    /// The number of bytes not yet read.
    pub fn remaining(&self) -> (n: usize)
        ensures
            n == self@.len(),
    {
        proof {
            use_type_invariant(self);
        }
        self.bytes.len() - self.pos
    }

    /// Reads one byte, or nothing if none is left.
    pub fn read_u8(&mut self) -> (value: Option<u8>)
        ensures
            match value {
                Some(b) => old(self)@.len() >= 1 && b == old(self)@[0] && final(self)@ == old(self)@.skip(1),
                None => old(self)@.len() < 1 && final(self)@ == old(self)@,
            },
    {
        proof {
            use_type_invariant(&*self);
        }
        if self.remaining() < 1 {
            return None;
        }
        let value = self.bytes[self.pos];
        self.pos += 1;
        proof {
            assert(self@ =~= old(self)@.skip(1));
        }
        Some(value)
    }

    /// Reads four bytes as a number, least significant first, or nothing if
    /// fewer than four are left.
    pub fn read_u32_le(&mut self) -> (value: Option<u32>)
        ensures
            match value {
                Some(x) => old(self)@.len() >= 4 && x == le_u32(old(self)@) && final(self)@ == old(self)@.skip(4),
                None => old(self)@.len() < 4 && final(self)@ == old(self)@,
            },
    {
        proof {
            use_type_invariant(&*self);
        }
        if self.remaining() < 4 {
            return None;
        }
        proof {
            assert(self.bytes@.len() == self.bytes.len());
        }
        let value = u32_from_le(self.bytes, self.pos);
        proof {
            assert(self.bytes@.subrange(self.pos as int, self.pos + 4) =~= self@.take(4));
            assert(le_u32(self@.take(4)) == le_u32(self@));
        }
        self.pos += 4;
        proof {
            assert(self@ =~= old(self)@.skip(4));
        }
        Some(value)
    }

    /// Reads `len` bytes, or nothing if fewer are left.
    pub fn read_bytes(&mut self, len: usize) -> (bytes: Option<&'a [u8]>)
        ensures
            match bytes {
                Some(b) => old(self)@.len() >= len && b@ == old(self)@.take(len as int) && final(self)@ == old(self)@.skip(len as int),
                None => old(self)@.len() < len && final(self)@ == old(self)@,
            },
    {
        proof {
            use_type_invariant(&*self);
        }
        if self.remaining() < len {
            return None;
        }
        proof {
            assert(self.bytes@.len() == self.bytes.len());
        }
        let end = self.pos + len;
        let out = slice_subrange(self.bytes, self.pos, end);
        proof {
            assert(out@ =~= old(self)@.take(len as int));
        }
        self.pos = end;
        proof {
            assert(self@ =~= old(self)@.skip(len as int));
        }
        Some(out)
    }
}

} // verus!
