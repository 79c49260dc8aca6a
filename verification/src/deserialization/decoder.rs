//! The decoding of a payload under a type marker, as a function on bytes and
//! as the code that computes it.

use vstd::prelude::*;
use vstd::string::StringSliceAdditionalSpecFns;
use vstd::utf8::{decode_utf8, encode_utf8_decode_utf8, valid_utf8};
use crate::constants::{
    TYPE_ARRAY, TYPE_BOOL_FALSE, TYPE_BOOL_TRUE, TYPE_F64, TYPE_INT64, TYPE_NULL, TYPE_OBJECT,
    TYPE_REF, TYPE_STRING,
};
use crate::endian::{i64_from_bits, i64_of_bits, le_u32, le_u64, u64_from_le};
use crate::types::reference::{TokenRef, TokenRefStrength};
use crate::types::token_id::TokenId;
use crate::codec::lemma_parse_keys_distinct;
use crate::types::value::{entries_insert, keys_distinct_below, ObjectMap, Value, ValueView};
use super::deserializer::DeserializeError;
use super::reader::ByteReader;

verus! {

/// The error of `core::str::from_utf8`. It is carried through and never
/// looked into.
#[verifier::external_type_specification]
#[verifier::external_body]
pub struct ExUtf8Error(core::str::Utf8Error);

/// `core::str::from_utf8` accepts exactly the byte strings that are UTF-8, and
/// the string slice it returns is made of the bytes it was given.
pub assume_specification[ core::str::from_utf8 ](v: &[u8]) -> (text: Result<
    &str,
    core::str::Utf8Error,
>)
    ensures
        text is Ok <==> valid_utf8(v@),
        text matches Ok(s) ==> s.spec_bytes() == v@,
;

/// What a payload with the given type marker decodes to.
pub open spec fn parse_value(marker: u8, payload: Seq<u8>) -> Result<ValueView, DeserializeError>
    decreases payload.len(), 1nat,
{
    if marker == TYPE_NULL {
        if payload.len() != 0 {
            Err(DeserializeError::InvalidLength)
        } else {
            Ok(ValueView::Null)
        }
    } else if marker == TYPE_BOOL_FALSE {
        if payload.len() != 0 {
            Err(DeserializeError::InvalidLength)
        } else {
            Ok(ValueView::Bool(false))
        }
    } else if marker == TYPE_BOOL_TRUE {
        if payload.len() != 0 {
            Err(DeserializeError::InvalidLength)
        } else {
            Ok(ValueView::Bool(true))
        }
    } else if marker == TYPE_INT64 {
        if payload.len() != 8 {
            Err(DeserializeError::InvalidLength)
        } else {
            Ok(ValueView::Int(i64_of_bits(le_u64(payload))))
        }
    } else if marker == TYPE_F64 {
        if payload.len() != 8 {
            Err(DeserializeError::InvalidLength)
        } else {
            Ok(ValueView::Float(le_u64(payload)))
        }
    } else if marker == TYPE_STRING {
        if valid_utf8(payload) {
            Ok(ValueView::String(decode_utf8(payload)))
        } else {
            Err(DeserializeError::InvalidUtf8)
        }
    } else if marker == TYPE_REF {
        if payload.len() != 17 {
            Err(DeserializeError::InvalidLength)
        } else if payload[0] == 0 {
            Ok(
                ValueView::Ref(
                    TokenRef::of(TokenId::of_bytes(payload.subrange(1, 17)), TokenRefStrength::Strong),
                ),
            )
        } else if payload[0] == 1 {
            Ok(
                ValueView::Ref(
                    TokenRef::of(TokenId::of_bytes(payload.subrange(1, 17)), TokenRefStrength::Weak),
                ),
            )
        } else {
            Err(DeserializeError::InvalidReferenceStrength)
        }
    } else if marker == TYPE_ARRAY {
        parse_array(payload)
    } else if marker == TYPE_OBJECT {
        parse_object(payload)
    } else {
        Err(DeserializeError::UnknownTypeMarker(marker))
    }
}

/// What an array payload decodes to: a count, then that many framed items,
/// then nothing.
pub open spec fn parse_array(payload: Seq<u8>) -> Result<ValueView, DeserializeError>
    decreases payload.len(), 0nat,
{
    if payload.len() < 4 {
        Err(DeserializeError::Truncated)
    } else {
        match parse_items(payload.skip(4), le_u32(payload) as nat, Seq::empty()) {
            Ok(items) => Ok(ValueView::Array(items)),
            Err(e) => Err(e),
        }
    }
}

/// What `input` decodes to as `n` framed items, added to `acc` in turn.
pub open spec fn parse_items(input: Seq<u8>, n: nat, acc: Seq<ValueView>) -> Result<
    Seq<ValueView>,
    DeserializeError,
>
    decreases input.len(), 0nat,
{
    if n == 0 {
        if input.len() == 0 {
            Ok(acc)
        } else {
            Err(DeserializeError::TrailingBytes)
        }
    } else if input.len() < 5 {
        Err(DeserializeError::Truncated)
    } else {
        let len = le_u32(input.subrange(1, 5)) as int;
        if input.len() - 5 < len {
            Err(DeserializeError::Truncated)
        } else {
            match parse_value(input[0], input.subrange(5, 5 + len)) {
                Err(e) => Err(e),
                Ok(item) => parse_items(input.skip(5 + len), (n - 1) as nat, acc.push(item)),
            }
        }
    }
}

/// What an object payload decodes to: a count, then that many framed entries,
/// then nothing. Of two entries with one key the later one stays.
pub open spec fn parse_object(payload: Seq<u8>) -> Result<ValueView, DeserializeError>
    decreases payload.len(), 0nat,
{
    if payload.len() < 4 {
        Err(DeserializeError::Truncated)
    } else {
        match parse_entries(payload.skip(4), le_u32(payload) as nat, Seq::empty()) {
            Ok(entries) => Ok(ValueView::Object(entries)),
            Err(e) => Err(e),
        }
    }
}

/// What `input` decodes to as `n` framed entries, set in `acc` in turn.
pub open spec fn parse_entries(
    input: Seq<u8>,
    n: nat,
    acc: Seq<(Seq<char>, ValueView)>,
) -> Result<Seq<(Seq<char>, ValueView)>, DeserializeError>
    decreases input.len(), 0nat,
{
    if n == 0 {
        if input.len() == 0 {
            Ok(acc)
        } else {
            Err(DeserializeError::TrailingBytes)
        }
    } else if input.len() < 4 {
        Err(DeserializeError::Truncated)
    } else {
        let key_len = le_u32(input) as int;
        if input.len() - 4 < key_len {
            Err(DeserializeError::Truncated)
        } else {
            let key = input.subrange(4, 4 + key_len);
            let rest = input.skip(4 + key_len);
            if !valid_utf8(key) {
                Err(DeserializeError::InvalidUtf8)
            } else if rest.len() < 5 {
                Err(DeserializeError::Truncated)
            } else {
                let len = le_u32(rest.subrange(1, 5)) as int;
                if rest.len() - 5 < len {
                    Err(DeserializeError::Truncated)
                } else {
                    match parse_value(rest[0], rest.subrange(5, 5 + len)) {
                        Err(e) => Err(e),
                        Ok(value) => parse_entries(
                            rest.skip(5 + len),
                            (n - 1) as nat,
                            entries_insert(acc, decode_utf8(key), value),
                        ),
                    }
                }
            }
        }
    }
}

/// `parse_items` by cases, one step unfolded.
proof fn lemma_parse_items_step(input: Seq<u8>, n: nat, acc: Seq<ValueView>)
    ensures
        parse_items(input, n, acc) == if n == 0 {
            if input.len() == 0 {
                Ok::<Seq<ValueView>, DeserializeError>(acc)
            } else {
                Err(DeserializeError::TrailingBytes)
            }
        } else if input.len() < 5 {
            Err(DeserializeError::Truncated)
        } else {
            let len = le_u32(input.subrange(1, 5)) as int;
            if input.len() - 5 < len {
                Err(DeserializeError::Truncated)
            } else {
                match parse_value(input[0], input.subrange(5, 5 + len)) {
                    Err(e) => Err(e),
                    Ok(item) => parse_items(input.skip(5 + len), (n - 1) as nat, acc.push(item)),
                }
            }
        },
{
}

/// `parse_entries` by cases, one step unfolded.
proof fn lemma_parse_entries_step(input: Seq<u8>, n: nat, acc: Seq<(Seq<char>, ValueView)>)
    ensures
        parse_entries(input, n, acc) == if n == 0 {
            if input.len() == 0 {
                Ok::<Seq<(Seq<char>, ValueView)>, DeserializeError>(acc)
            } else {
                Err(DeserializeError::TrailingBytes)
            }
        } else if input.len() < 4 {
            Err(DeserializeError::Truncated)
        } else {
            let key_len = le_u32(input) as int;
            if input.len() - 4 < key_len {
                Err(DeserializeError::Truncated)
            } else {
                let key = input.subrange(4, 4 + key_len);
                let rest = input.skip(4 + key_len);
                if !valid_utf8(key) {
                    Err(DeserializeError::InvalidUtf8)
                } else if rest.len() < 5 {
                    Err(DeserializeError::Truncated)
                } else {
                    let len = le_u32(rest.subrange(1, 5)) as int;
                    if rest.len() - 5 < len {
                        Err(DeserializeError::Truncated)
                    } else {
                        match parse_value(rest[0], rest.subrange(5, 5 + len)) {
                            Err(e) => Err(e),
                            Ok(value) => parse_entries(
                                rest.skip(5 + len),
                                (n - 1) as nat,
                                entries_insert(acc, decode_utf8(key), value),
                            ),
                        }
                    }
                }
            }
        },
{
}

/// The text that `bytes` hold, if they are UTF-8.
fn text_of(bytes: &[u8]) -> (text: Option<String>)
    ensures
        match text {
            Some(s) => valid_utf8(bytes@) && s@ == decode_utf8(bytes@),
            None => !valid_utf8(bytes@),
        },
{
    match core::str::from_utf8(bytes) {
        Ok(s) => {
            proof {
                encode_utf8_decode_utf8(s@);
            }
            Some(s.to_owned())
        },
        Err(_) => None,
    }
}

/// Decodes the payload of a value with the given type marker.
///
/// The payload must be consumed exactly. Each way in which it can be
/// malformed has its own error.
pub fn decode_value(type_marker: u8, payload: &[u8]) -> (value: Result<Value, DeserializeError>)
    ensures
        match value {
            Ok(v) => parse_value(type_marker, payload@) == Ok::<ValueView, DeserializeError>(v@)
                && keys_distinct_below(v@),
            Err(e) => parse_value(type_marker, payload@) == Err::<ValueView, DeserializeError>(e),
        },
    decreases payload@.len(), 1nat,
{
    if type_marker == TYPE_NULL {
        if payload.len() != 0 {
            return Err(DeserializeError::InvalidLength);
        }
        Ok(Value::Null)
    } else if type_marker == TYPE_BOOL_FALSE {
        if payload.len() != 0 {
            return Err(DeserializeError::InvalidLength);
        }
        Ok(Value::Bool(false))
    } else if type_marker == TYPE_BOOL_TRUE {
        if payload.len() != 0 {
            return Err(DeserializeError::InvalidLength);
        }
        Ok(Value::Bool(true))
    } else if type_marker == TYPE_INT64 {
        if payload.len() != 8 {
            return Err(DeserializeError::InvalidLength);
        }
        let bits = u64_from_le(payload, 0);
        proof {
            assert(payload@.subrange(0, 8) =~= payload@);
        }
        Ok(Value::Int(i64_from_bits(bits)))
    } else if type_marker == TYPE_F64 {
        if payload.len() != 8 {
            return Err(DeserializeError::InvalidLength);
        }
        let bits = u64_from_le(payload, 0);
        proof {
            assert(payload@.subrange(0, 8) =~= payload@);
        }
        Ok(Value::Float(bits))
    } else if type_marker == TYPE_STRING {
        match text_of(payload) {
            Some(s) => Ok(Value::String(s)),
            None => Err(DeserializeError::InvalidUtf8),
        }
    } else if type_marker == TYPE_REF {
        if payload.len() != 17 {
            return Err(DeserializeError::InvalidLength);
        }
        let strength = if payload[0] == 0 {
            TokenRefStrength::Strong
        } else if payload[0] == 1 {
            TokenRefStrength::Weak
        } else {
            return Err(DeserializeError::InvalidReferenceStrength);
        };
        let id = TokenId::from_bytes(id_at(payload, 1));
        Ok(Value::Ref(TokenRef::with_strength(id, strength)))
    } else if type_marker == TYPE_ARRAY {
        decode_array(payload)
    } else if type_marker == TYPE_OBJECT {
        decode_object(payload)
    } else {
        Err(DeserializeError::UnknownTypeMarker(type_marker))
    }
}

/// The sixteen bytes of `bytes` from `at` on.
pub fn id_at(bytes: &[u8], at: usize) -> (id: [u8; 16])
    requires
        at + 16 <= bytes@.len(),
    ensures
        id@ == bytes@.subrange(at as int, at + 16),
{
    let mut id: [u8; 16] = [0u8; 16];
    let mut i: usize = 0;
    while i < 16
        invariant
            i <= 16,
            at + 16 <= bytes@.len(),
            forall|j: int| 0 <= j < i ==> id@[j] == bytes@[at + j],
        decreases 16 - i,
    {
        proof {
            assert(bytes@.len() == bytes.len());
        }
        id[i] = bytes[at + i];
        i += 1;
    }
    proof {
        assert(id@ =~= bytes@.subrange(at as int, at + 16));
    }
    id
}

/// Decodes an array payload: a count, then that many framed items, then
/// nothing.
#[verifier::rlimit(40)]
fn decode_array(payload: &[u8]) -> (value: Result<Value, DeserializeError>)
    ensures
        match value {
            Ok(v) => parse_array(payload@) == Ok::<ValueView, DeserializeError>(v@)
                && keys_distinct_below(v@),
            Err(e) => parse_array(payload@) == Err::<ValueView, DeserializeError>(e),
        },
    decreases payload@.len(), 0nat,
{
    let mut reader = ByteReader::new(payload);
    let count = match reader.read_u32_le() {
        Some(c) => c,
        None => {
            return Err(DeserializeError::Truncated);
        },
    };
    let mut items: Vec<Value> = Vec::new();
    let ghost mut acc: Seq<ValueView> = Seq::empty();
    let ghost whole = parse_items(payload@.skip(4), count as nat, Seq::empty());
    let mut done: u32 = 0;
    while done < count
        invariant
            done <= count,
            payload@.len() >= 4,
            reader@.len() <= payload@.len() - 4,
            acc.len() == items@.len(),
            forall|j: int| 0 <= j < items@.len() ==> items@[j]@ == #[trigger] acc[j],
            whole == parse_items(reader@, (count - done) as nat, acc),
            parse_array(payload@) == match whole {
                Ok(items) => Ok::<ValueView, DeserializeError>(ValueView::Array(items)),
                Err(e) => Err(e),
            },
        decreases count - done,
    {
        let ghost input = reader@;
        proof {
            lemma_parse_items_step(input, (count - done) as nat, acc);
        }
        let type_marker = match reader.read_u8() {
            Some(m) => m,
            None => {
                return Err(DeserializeError::Truncated);
            },
        };
        let len = match reader.read_u32_le() {
            Some(l) => l,
            None => {
                return Err(DeserializeError::Truncated);
            },
        };
        proof {
            assert(input.skip(1).subrange(0, 4) =~= input.subrange(1, 5));
            assert(le_u32(input.skip(1)) == le_u32(input.subrange(1, 5)));
        }
        let item_payload = match reader.read_bytes(len as usize) {
            Some(p) => p,
            None => {
                return Err(DeserializeError::Truncated);
            },
        };
        proof {
            assert(item_payload@ =~= input.subrange(5, 5 + len));
            assert(reader@ =~= input.skip(5 + len));
        }
        let item = match decode_value(type_marker, item_payload) {
            Ok(v) => v,
            Err(e) => {
                return Err(e);
            },
        };
        proof {
            acc = acc.push(item@);
        }
        items.push(item);
        done += 1;
    }
    proof {
        lemma_parse_items_step(reader@, 0, acc);
    }
    if reader.remaining() != 0 {
        return Err(DeserializeError::TrailingBytes);
    }
    let value = Value::Array(items);
    proof {
        value.lemma_array_view();
        assert(value@->Array_0 =~= acc);
        lemma_parse_keys_distinct(TYPE_ARRAY, payload@);
    }
    Ok(value)
}

/// Decodes an object payload: a count, then that many framed entries, then
/// nothing. Of two entries with one key the later one stays.
#[verifier::rlimit(40)]
fn decode_object(payload: &[u8]) -> (value: Result<Value, DeserializeError>)
    ensures
        match value {
            Ok(v) => parse_object(payload@) == Ok::<ValueView, DeserializeError>(v@)
                && keys_distinct_below(v@),
            Err(e) => parse_object(payload@) == Err::<ValueView, DeserializeError>(e),
        },
    decreases payload@.len(), 0nat,
{
    let mut reader = ByteReader::new(payload);
    let count = match reader.read_u32_le() {
        Some(c) => c,
        None => {
            return Err(DeserializeError::Truncated);
        },
    };
    let mut map = ObjectMap::new();
    let ghost whole = parse_entries(payload@.skip(4), count as nat, Seq::empty());
    let mut done: u32 = 0;
    while done < count
        invariant
            done <= count,
            payload@.len() >= 4,
            reader@.len() <= payload@.len() - 4,
            whole == parse_entries(reader@, (count - done) as nat, map@),
            parse_object(payload@) == match whole {
                Ok(entries) => Ok::<ValueView, DeserializeError>(ValueView::Object(entries)),
                Err(e) => Err(e),
            },
        decreases count - done,
    {
        let ghost input = reader@;
        proof {
            lemma_parse_entries_step(input, (count - done) as nat, map@);
        }
        let key_len = match reader.read_u32_le() {
            Some(l) => l,
            None => {
                return Err(DeserializeError::Truncated);
            },
        };
        let key_bytes = match reader.read_bytes(key_len as usize) {
            Some(b) => b,
            None => {
                return Err(DeserializeError::Truncated);
            },
        };
        let ghost rest = reader@;
        proof {
            assert(key_bytes@ =~= input.subrange(4, 4 + key_len));
            assert(rest =~= input.skip(4 + key_len));
        }
        let key = match text_of(key_bytes) {
            Some(k) => k,
            None => {
                return Err(DeserializeError::InvalidUtf8);
            },
        };
        let type_marker = match reader.read_u8() {
            Some(m) => m,
            None => {
                return Err(DeserializeError::Truncated);
            },
        };
        let val_len = match reader.read_u32_le() {
            Some(l) => l,
            None => {
                return Err(DeserializeError::Truncated);
            },
        };
        proof {
            assert(rest.skip(1).subrange(0, 4) =~= rest.subrange(1, 5));
            assert(le_u32(rest.skip(1)) == le_u32(rest.subrange(1, 5)));
        }
        let val_payload = match reader.read_bytes(val_len as usize) {
            Some(p) => p,
            None => {
                return Err(DeserializeError::Truncated);
            },
        };
        proof {
            assert(val_payload@ =~= rest.subrange(5, 5 + val_len));
            assert(reader@ =~= rest.skip(5 + val_len));
        }
        let value = match decode_value(type_marker, val_payload) {
            Ok(v) => v,
            Err(e) => {
                return Err(e);
            },
        };
        map.insert(key, value);
        done += 1;
    }
    proof {
        lemma_parse_entries_step(reader@, 0, map@);
    }
    if reader.remaining() != 0 {
        return Err(DeserializeError::TrailingBytes);
    }
    proof {
        lemma_parse_keys_distinct(TYPE_OBJECT, payload@);
    }
    Ok(Value::Object(map))
}

} // verus!
