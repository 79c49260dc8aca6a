//! The encoding of a value as a type marker and a payload.

use vstd::prelude::*;
use vstd::utf8::encode_utf8;
use crate::constants::{
    TYPE_ARRAY, TYPE_BOOL_FALSE, TYPE_BOOL_TRUE, TYPE_F64, TYPE_INT64, TYPE_NULL, TYPE_OBJECT,
    TYPE_REF, TYPE_STRING,
};
use crate::endian::{i64_bits, le_u32_bytes, le_u64_bytes};
use crate::types::reference::TokenRefStrength;
use crate::types::value::{Value, ValueView};
use super::serializer::SerializeError;
use super::writer::ByteWriter;

verus! {

/// A value as it travels: its type marker and its payload.
pub struct EncodedValue {
    pub type_marker: u8,
    pub payload: Vec<u8>,
}

/// The byte that stands for a reference strength.
pub open spec fn strength_byte(strength: TokenRefStrength) -> u8 {
    match strength {
        TokenRefStrength::Strong => 0,
        TokenRefStrength::Weak => 1,
    }
}

/// The type marker of a value.
pub open spec fn marker_of(v: ValueView) -> u8 {
    match v {
        ValueView::Null => TYPE_NULL,
        ValueView::Bool(false) => TYPE_BOOL_FALSE,
        ValueView::Bool(true) => TYPE_BOOL_TRUE,
        ValueView::Int(_) => TYPE_INT64,
        ValueView::Float(_) => TYPE_F64,
        ValueView::String(_) => TYPE_STRING,
        ValueView::Ref(_) => TYPE_REF,
        ValueView::Array(_) => TYPE_ARRAY,
        ValueView::Object(_) => TYPE_OBJECT,
    }
}

/// The payload of a value.
///
/// Scalars have a payload of fixed shape. An array is its count followed by
/// its framed items; an object is its count followed by its framed entries,
/// in the order in which the object holds them.
pub open spec fn payload_of(v: ValueView) -> Seq<u8>
    decreases v, 0nat,
{
    match v {
        ValueView::Null => Seq::empty(),
        ValueView::Bool(_) => Seq::empty(),
        ValueView::Int(x) => le_u64_bytes(i64_bits(x)),
        ValueView::Float(bits) => le_u64_bytes(bits),
        ValueView::String(s) => encode_utf8(s),
        ValueView::Ref(r) => seq![strength_byte(r.strength())] + r.id().spec_bytes(),
        ValueView::Array(items) => le_u32_bytes(items.len() as u32) + items_payload(
            items,
            items.len(),
        ),
        ValueView::Object(entries) => le_u32_bytes(entries.len() as u32) + entries_payload(
            entries,
            entries.len(),
        ),
    }
}

/// The first `n` of `items`, each framed by its marker and the length of its
/// payload.
pub open spec fn items_payload(items: Seq<ValueView>, n: nat) -> Seq<u8>
    decreases items, n,
{
    if n == 0 || n > items.len() {
        Seq::empty()
    } else {
        let item = items[n - 1];
        items_payload(items, (n - 1) as nat) + seq![marker_of(item)] + le_u32_bytes(
            payload_of(item).len() as u32,
        ) + payload_of(item)
    }
}

/// The first `n` of `entries`, each as its key with its length before it,
/// then its value framed by its marker and the length of its payload.
pub open spec fn entries_payload(entries: Seq<(Seq<char>, ValueView)>, n: nat) -> Seq<u8>
    decreases entries, n,
{
    if n == 0 || n > entries.len() {
        Seq::empty()
    } else {
        let key = entries[n - 1].0;
        let value = entries[n - 1].1;
        entries_payload(entries, (n - 1) as nat) + le_u32_bytes(encode_utf8(key).len() as u32)
            + encode_utf8(key) + seq![marker_of(value)] + le_u32_bytes(
            payload_of(value).len() as u32,
        ) + payload_of(value)
    }
}

/// Every length that framing writes below `v` fits in 32 bits: the count of
/// each array and object, and the length of each key and of the payload of
/// each item and entry.
pub open spec fn encodable(v: ValueView) -> bool
    decreases v,
{
    match v {
        ValueView::Array(items) => {
            &&& items.len() <= u32::MAX
            &&& forall|i: int|
                0 <= i < items.len() ==> encodable(#[trigger] items[i]) && payload_of(
                    items[i],
                ).len() <= u32::MAX
        },
        ValueView::Object(entries) => {
            &&& entries.len() <= u32::MAX
            &&& forall|i: int|
                0 <= i < entries.len() ==> encode_utf8((#[trigger] entries[i]).0).len() <= u32::MAX
                    && encodable(entries[i].1) && payload_of(entries[i].1).len() <= u32::MAX
        },
        _ => true,
    }
}

/// Encodes `value` as its type marker and payload.
///
/// Fails exactly when some length that framing would write does not fit in
/// 32 bits.
#[verifier::rlimit(40)]
pub fn encode_value(value: &Value) -> (encoded: Result<EncodedValue, SerializeError>)
    ensures
        match encoded {
            Ok(e) => encodable(value@) && e.type_marker == marker_of(value@) && e.payload@
                == payload_of(value@),
            Err(e) => !encodable(value@) && e == SerializeError::LengthOverflow,
        },
    decreases value@,
{
    match value {
        Value::Null => Ok(EncodedValue { type_marker: TYPE_NULL, payload: Vec::new() }),
        Value::Bool(false) => Ok(
            EncodedValue { type_marker: TYPE_BOOL_FALSE, payload: Vec::new() },
        ),
        Value::Bool(true) => Ok(EncodedValue { type_marker: TYPE_BOOL_TRUE, payload: Vec::new() }),
        Value::Int(v) => {
            let mut payload = ByteWriter::with_capacity(8);
            payload.write_i64_le(*v);
            Ok(EncodedValue { type_marker: TYPE_INT64, payload: payload.into_inner() })
        },
        Value::Float(bits) => {
            let mut payload = ByteWriter::with_capacity(8);
            payload.write_f64_le(*bits);
            Ok(EncodedValue { type_marker: TYPE_F64, payload: payload.into_inner() })
        },
        Value::String(s) => {
            let mut payload = ByteWriter::with_capacity(s.as_str().as_bytes().len());
            payload.write_bytes(s.as_str().as_bytes());
            Ok(EncodedValue { type_marker: TYPE_STRING, payload: payload.into_inner() })
        },
        Value::Ref(r) => {
            let mut payload = ByteWriter::with_capacity(17);
            let strength: u8 = match r.strength() {
                TokenRefStrength::Strong => 0,
                TokenRefStrength::Weak => 1,
            };
            payload.write_u8(strength);
            let id = r.id().as_bytes();
            payload.write_bytes(id.as_slice());
            Ok(EncodedValue { type_marker: TYPE_REF, payload: payload.into_inner() })
        },
        Value::Array(items) => {
            proof {
                value.lemma_array_view();
            }
            let ghost views = value@->Array_0;
            if items.len() > u32::MAX as usize {
                return Err(SerializeError::LengthOverflow);
            }
            let mut payload = ByteWriter::with_capacity(4);
            payload.write_u32_le(items.len() as u32);
            let mut i: usize = 0;
            while i < items.len()
                invariant
                    i <= items@.len(),
                    value@ == ValueView::Array(views),
                    views.len() == items@.len(),
                    views.len() <= u32::MAX,
                    forall|j: int| 0 <= j < items@.len() ==> items@[j]@ == #[trigger] views[j],
                    forall|j: int|
                        0 <= j < i ==> encodable(#[trigger] views[j]) && payload_of(views[j]).len()
                            <= u32::MAX,
                    payload@ == le_u32_bytes(views.len() as u32) + items_payload(views, i as nat),
                decreases items@.len() - i,
            {
                assert(decreases_to!(value@ => value@->Array_0[i as int]));
                let encoded = match encode_value(&items[i]) {
                    Ok(e) => e,
                    Err(e) => {
                        assert(!encodable(views[i as int]));
                        return Err(e);
                    },
                };
                if encoded.payload.len() > u32::MAX as usize {
                    assert(payload_of(views[i as int]).len() > u32::MAX);
                    return Err(SerializeError::LengthOverflow);
                }
                let ghost before = payload@;
                payload.write_u8(encoded.type_marker);
                payload.write_u32_le(encoded.payload.len() as u32);
                payload.write_bytes(encoded.payload.as_slice());
                proof {
                    let item = views[i as int];
                    assert(items_payload(views, (i + 1) as nat) == items_payload(views, i as nat)
                        + seq![marker_of(item)] + le_u32_bytes(payload_of(item).len() as u32)
                        + payload_of(item));
                    assert(payload@ =~= le_u32_bytes(views.len() as u32) + items_payload(
                        views,
                        (i + 1) as nat,
                    ));
                }
                i += 1;
            }
            Ok(EncodedValue { type_marker: TYPE_ARRAY, payload: payload.into_inner() })
        },
        Value::Object(map) => {
            let ghost views = map@;
            if map.len() > u32::MAX as usize {
                return Err(SerializeError::LengthOverflow);
            }
            let count = map.len();
            let mut payload = ByteWriter::with_capacity(4);
            payload.write_u32_le(count as u32);
            let mut i: usize = 0;
            while i < count
                invariant
                    i <= count,
                    count == views.len(),
                    views == map@,
                    value@ == ValueView::Object(views),
                    views.len() <= u32::MAX,
                    forall|j: int|
                        0 <= j < i ==> encode_utf8((#[trigger] views[j]).0).len() <= u32::MAX
                            && encodable(views[j].1) && payload_of(views[j].1).len() <= u32::MAX,
                    payload@ == le_u32_bytes(views.len() as u32) + entries_payload(views, i as nat),
                decreases count - i,
            {
                assert(decreases_to!(value@ => value@->Object_0[i as int].1));
                let key = map.key_at(i).as_str().as_bytes();
                if key.len() > u32::MAX as usize {
                    assert(encode_utf8(views[i as int].0).len() > u32::MAX);
                    return Err(SerializeError::LengthOverflow);
                }
                let encoded = match encode_value(map.value_at(i)) {
                    Ok(e) => e,
                    Err(e) => {
                        assert(!encodable(views[i as int].1));
                        return Err(e);
                    },
                };
                if encoded.payload.len() > u32::MAX as usize {
                    assert(payload_of(views[i as int].1).len() > u32::MAX);
                    return Err(SerializeError::LengthOverflow);
                }
                payload.write_u32_le(key.len() as u32);
                payload.write_bytes(key);
                payload.write_u8(encoded.type_marker);
                payload.write_u32_le(encoded.payload.len() as u32);
                payload.write_bytes(encoded.payload.as_slice());
                proof {
                    let k = views[i as int].0;
                    let v = views[i as int].1;
                    assert(entries_payload(views, (i + 1) as nat) == entries_payload(
                        views,
                        i as nat,
                    ) + le_u32_bytes(encode_utf8(k).len() as u32) + encode_utf8(k) + seq![
                        marker_of(v),
                    ] + le_u32_bytes(payload_of(v).len() as u32) + payload_of(v));
                    assert(payload@ =~= le_u32_bytes(views.len() as u32) + entries_payload(
                        views,
                        (i + 1) as nat,
                    ));
                }
                i += 1;
            }
            Ok(EncodedValue { type_marker: TYPE_OBJECT, payload: payload.into_inner() })
        },
    }
}

} // verus!
