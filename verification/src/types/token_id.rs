//! Token identities and their sixteen bytes.

use vstd::prelude::*;

verus! {

/// The number denoted by `bytes` read as base-256 digits, most significant first.
pub open spec fn be_value(bytes: Seq<u8>) -> nat
    decreases bytes.len(),
{
    if bytes.len() == 0 {
        0
    } else {
        be_value(bytes.drop_last()) * 256 + bytes.last() as nat
    }
}

/// The `len` least significant base-256 digits of `value`, most significant first.
pub open spec fn be_bytes(value: nat, len: nat) -> Seq<u8>
    decreases len,
{
    if len == 0 {
        Seq::empty()
    } else {
        be_bytes(value / 256, (len - 1) as nat).push((value % 256) as u8)
    }
}

/// 256 to the power `n`.
pub open spec fn pow256(n: nat) -> nat
    decreases n,
{
    if n == 0 {
        1
    } else {
        256 * pow256((n - 1) as nat)
    }
}

/// A digit string of length `n` denotes a number below 256^n.
proof fn lemma_be_value_bound(bytes: Seq<u8>)
    ensures
        be_value(bytes) < pow256(bytes.len()),
    decreases bytes.len(),
{
    if bytes.len() > 0 {
        lemma_be_value_bound(bytes.drop_last());
    }
}

/// `be_bytes` yields exactly `len` digits.
proof fn lemma_be_bytes_len(value: nat, len: nat)
    ensures
        be_bytes(value, len).len() == len,
    decreases len,
{
    if len > 0 {
        lemma_be_bytes_len(value / 256, (len - 1) as nat);
    }
}

/// Writing out the number that a digit string denotes gives the string back.
proof fn lemma_be_bytes_of_value(bytes: Seq<u8>)
    ensures
        be_bytes(be_value(bytes), bytes.len()) == bytes,
    decreases bytes.len(),
{
    if bytes.len() > 0 {
        let init = bytes.drop_last();
        lemma_be_bytes_of_value(init);
        let v = be_value(bytes);
        assert(v / 256 == be_value(init));
        assert(v % 256 == bytes.last() as nat);
        assert(be_bytes(v, bytes.len()) =~= bytes);
    } else {
        assert(be_bytes(be_value(bytes), 0) =~= bytes);
    }
}

/// Reading back the `len` digits of a number below 256^len gives the number.
proof fn lemma_be_value_of_bytes(value: nat, len: nat)
    requires
        value < pow256(len),
    ensures
        be_value(be_bytes(value, len)) == value,
    decreases len,
{
    if len > 0 {
        let rest = be_bytes(value / 256, (len - 1) as nat);
        lemma_be_value_of_bytes(value / 256, (len - 1) as nat);
        lemma_be_bytes_len(value / 256, (len - 1) as nat);
        let s = be_bytes(value, len);
        assert(s.drop_last() =~= rest);
        assert(s.last() == (value % 256) as u8);
    }
}

/// 256^16 is 2^128.
proof fn lemma_pow256_16()
    ensures
        pow256(16) == 0x1_0000_0000_0000_0000_0000_0000_0000_0000,
{
    reveal_with_fuel(pow256, 17);
}

/// Sixteen fresh random bytes in the layout of a version-4 UUID.
///
/// Calls `uuid::Uuid::new_v4` and hands out the bytes of the identifier it made.
/// Nothing is claimed of the random bits. What is claimed is what `new_v4` fixes
/// in every identifier: the high half of byte 6 is the version, 4, and the two
/// top bits of byte 8 are the variant, binary 10. The call aborts the program if
/// the operating system cannot supply random bytes.
#[verifier::external_body]
fn random_v4_bytes() -> (bytes: [u8; 16])
    ensures
        bytes@[6] / 16 == 4,
        bytes@[8] / 64 == 2,
{
    uuid::Uuid::new_v4().into_bytes()
}

/// A 128-bit token identity.
///
/// The identity is held as the number that its sixteen wire bytes denote,
/// most significant byte first.
#[derive(Debug, Clone, Copy, PartialEq, Eq, Hash, Structural)]
pub struct TokenId {
    value: u128,
}

impl View for TokenId {
    type V = u128;

    closed spec fn view(&self) -> u128 {
        self.value
    }
}

impl TokenId {
    /// The sixteen bytes of this identity in wire order.
    pub open spec fn spec_bytes(self) -> Seq<u8> {
        be_bytes(self@ as nat, 16)
    }

    /// The identity whose wire bytes are `bytes`.
    pub closed spec fn of_bytes(bytes: Seq<u8>) -> TokenId {
        TokenId { value: be_value(bytes) as u128 }
    }

    /// Sixteen bytes and the identity made of them determine each other.
    pub proof fn lemma_of_bytes(bytes: Seq<u8>, id: TokenId)
        ensures
            bytes.len() == 16 ==> TokenId::of_bytes(bytes).spec_bytes() == bytes,
            id.spec_bytes().len() == 16,
            TokenId::of_bytes(id.spec_bytes()) == id,
    {
        lemma_pow256_16();
        if bytes.len() == 16 {
            lemma_be_value_bound(bytes);
            lemma_be_bytes_of_value(bytes);
        }
        lemma_be_bytes_len(id@ as nat, 16);
        lemma_be_value_of_bytes(id@ as nat, 16);
    }

    /// Two identities with the same number are the same identity.
    pub proof fn lemma_view_injective(a: TokenId, b: TokenId)
        ensures
            a@ == b@ <==> a == b,
    {
    }

    /// Two identities with the same bytes are the same identity.
    pub proof fn lemma_bytes_injective(a: TokenId, b: TokenId)
        ensures
            a.spec_bytes() == b.spec_bytes() <==> a == b,
    {
        lemma_pow256_16();
        lemma_be_value_of_bytes(a@ as nat, 16);
        lemma_be_value_of_bytes(b@ as nat, 16);
    }

    /// A fresh random identity, laid out as a version-4 UUID.
    pub fn new() -> (id: TokenId)
        ensures
            id.spec_bytes()[6] / 16 == 4,
            id.spec_bytes()[8] / 64 == 2,
    {
        TokenId::from_bytes(random_v4_bytes())
    }

    /// The identity whose wire bytes are `bytes`.
    pub fn from_bytes(bytes: [u8; 16]) -> (id: TokenId)
        ensures
            id.spec_bytes() == bytes@,
            id@ == be_value(bytes@),
            id == TokenId::of_bytes(bytes@),
    {
        let mut acc: u128 = 0;
        let mut i: usize = 0;
        while i < 16
            invariant
                i <= 16,
                acc == be_value(bytes@.take(i as int)),
            decreases 16 - i,
        {
            proof {
                lemma_be_value_bound(bytes@.take(i as int));
                lemma_pow256_16();
                reveal_with_fuel(pow256, 17);
                assert(bytes@.take(i + 1).drop_last() =~= bytes@.take(i as int));
            }
            acc = acc * 256 + bytes[i] as u128;
            i += 1;
        }
        proof {
            assert(bytes@.take(16) =~= bytes@);
            lemma_be_bytes_of_value(bytes@);
        }
        TokenId { value: acc }
    }

    /// The identity with the given number.
    pub fn from_u128(value: u128) -> (id: TokenId)
        ensures
            id@ == value,
    {
        TokenId { value }
    }

    /// The number of this identity: its wire bytes read most significant first.
    pub fn as_u128(&self) -> (value: u128)
        ensures
            value == self@,
    {
        self.value
    }

    /// The sixteen bytes of this identity in wire order.
    pub fn as_bytes(&self) -> (bytes: [u8; 16])
        ensures
            bytes@ == self.spec_bytes(),
    {
        let mut out: [u8; 16] = [0u8; 16];
        let mut rest: u128 = self.value;
        let mut i: usize = 16;
        let ghost full = self.spec_bytes();
        proof {
            lemma_be_bytes_len(self.value as nat, 16);
            assert(full.take(16) =~= full);
        }
        while i > 0
            invariant
                i <= 16,
                full.len() == 16,
                forall|j: int| i <= j < 16 ==> out@[j] == full[j],
                be_bytes(rest as nat, i as nat) == full.take(i as int),
            decreases i,
        {
            proof {
                let shorter = be_bytes(rest as nat / 256, (i - 1) as nat);
                lemma_be_bytes_len(rest as nat / 256, (i - 1) as nat);
                assert(full.take(i as int)[i - 1] == (rest % 256) as u8);
                assert(shorter =~= full.take(i - 1));
            }
            i -= 1;
            out[i] = (rest % 256) as u8;
            rest = rest / 256;
        }
        proof {
            assert(out@ =~= full);
        }
        out
    }
}

} // verus!
