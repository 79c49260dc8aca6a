//! How encoding and decoding relate: decoding inverts encoding, a serialized
//! token passes the envelope check, and no change of a single byte goes
//! unnoticed.

use vstd::prelude::*;
use vstd::utf8::{
    decode_utf8, decode_utf8_encode_utf8, encode_utf8, encode_utf8_decode_utf8,
    encode_utf8_valid_utf8,
};
use crate::constants::{TYPE_ARRAY, TYPE_OBJECT};
use crate::deserialization::decoder::{
    parse_array, parse_entries, parse_items, parse_object, parse_value,
};
use crate::deserialization::deserializer::{framing, parse_token, DeserializeError};
use crate::endian::{
    i64_bits, le_u32, le_u32_bytes, le_u64, lemma_i64_bits, lemma_le_u32_bytes_of,
    lemma_le_u32_of_bytes, lemma_le_u64_bytes_of, lemma_le_u64_of_bytes,
};
use crate::serialization::encoder::{
    encodable, entries_payload, items_payload, marker_of, payload_of, strength_byte,
};
use crate::serialization::serializer::{envelope, envelope_body, serializable};
use crate::types::reference::{TokenRef, TokenRefStrength};
use crate::types::token_id::TokenId;
use crate::types::value::{
    entries_insert, key_position, keys_distinct, keys_distinct_below, lemma_insert_keeps_distinct,
    lemma_key_position_found, lemma_key_position_own, lemma_same_value_reflexive, same_entry,
    same_value, ValueView,
};
use crate::validation::checksum::crc32_ieee;
use crate::validation::envelope_verdict;

verus! {

/// An item as it stands in an array payload: marker, payload length, payload.
pub open spec fn item_frame(v: ValueView) -> Seq<u8> {
    seq![marker_of(v)] + le_u32_bytes(payload_of(v).len() as u32) + payload_of(v)
}

/// An entry as it stands in an object payload: key length, key, then the
/// value framed as an item is.
pub open spec fn entry_frame(key: Seq<char>, v: ValueView) -> Seq<u8> {
    le_u32_bytes(encode_utf8(key).len() as u32) + encode_utf8(key) + item_frame(v)
}

/// The frames of the items of `items` from place `k` on.
pub open spec fn items_tail(items: Seq<ValueView>, k: nat) -> Seq<u8>
    decreases items.len() - k,
{
    if k >= items.len() {
        Seq::empty()
    } else {
        item_frame(items[k as int]) + items_tail(items, k + 1)
    }
}

/// The frames of the entries of `entries` from place `k` on.
pub open spec fn entries_tail(entries: Seq<(Seq<char>, ValueView)>, k: nat) -> Seq<u8>
    decreases entries.len() - k,
{
    if k >= entries.len() {
        Seq::empty()
    } else {
        entry_frame(entries[k as int].0, entries[k as int].1) + entries_tail(entries, k + 1)
    }
}

/// The frames of the first `k` items followed by the frames of the others are
/// the frames of all items.
proof fn lemma_items_split(items: Seq<ValueView>, k: nat)
    requires
        k <= items.len(),
    ensures
        items_payload(items, k) + items_tail(items, k) == items_payload(items, items.len()),
    decreases items.len() - k,
{
    if k < items.len() {
        lemma_items_split(items, k + 1);
        let item = items[k as int];
        assert(items_payload(items, k + 1) == items_payload(items, k) + seq![marker_of(item)]
            + le_u32_bytes(payload_of(item).len() as u32) + payload_of(item));
        assert(items_payload(items, k + 1) =~= items_payload(items, k) + item_frame(item));
        assert(items_payload(items, k) + items_tail(items, k) =~= items_payload(items, k + 1)
            + items_tail(items, k + 1));
    } else {
        assert(items_payload(items, k) + items_tail(items, k) =~= items_payload(items, k));
    }
}

/// The frames of the first `k` entries followed by the frames of the others
/// are the frames of all entries.
proof fn lemma_entries_split(entries: Seq<(Seq<char>, ValueView)>, k: nat)
    requires
        k <= entries.len(),
    ensures
        entries_payload(entries, k) + entries_tail(entries, k) == entries_payload(
            entries,
            entries.len(),
        ),
    decreases entries.len() - k,
{
    if k < entries.len() {
        lemma_entries_split(entries, k + 1);
        let key = entries[k as int].0;
        let v = entries[k as int].1;
        assert(entries_payload(entries, k + 1) == entries_payload(entries, k) + le_u32_bytes(
            encode_utf8(key).len() as u32,
        ) + encode_utf8(key) + seq![marker_of(v)] + le_u32_bytes(payload_of(v).len() as u32)
            + payload_of(v));
        assert(entries_payload(entries, k + 1) =~= entries_payload(entries, k) + entry_frame(
            key,
            v,
        ));
        assert(entries_payload(entries, k) + entries_tail(entries, k) =~= entries_payload(
            entries,
            k + 1,
        ) + entries_tail(entries, k + 1));
    } else {
        assert(entries_payload(entries, k) + entries_tail(entries, k) =~= entries_payload(
            entries,
            k,
        ));
    }
}

/// Decoding inverts encoding: a value whose lengths fit in 32 bits, and in
/// which no object holds a key twice, is what its own marker and payload
/// decode to.
#[verifier::rlimit(40)]
pub proof fn lemma_decode_encode(v: ValueView)
    requires
        encodable(v),
        keys_distinct_below(v),
    ensures
        parse_value(marker_of(v), payload_of(v)) == Ok::<ValueView, DeserializeError>(v),
    decreases v, 0nat,
{
    match v {
        ValueView::Null => {},
        ValueView::Bool(_) => {},
        ValueView::Int(x) => {
            lemma_le_u64_of_bytes(i64_bits(x));
            lemma_i64_bits(x, 0);
        },
        ValueView::Float(bits) => {
            lemma_le_u64_of_bytes(bits);
        },
        ValueView::String(s) => {
            encode_utf8_valid_utf8(s);
            encode_utf8_decode_utf8(s);
        },
        ValueView::Ref(r) => {
            let p = payload_of(v);
            TokenId::lemma_of_bytes(Seq::empty(), r.id());
            TokenRef::lemma_of(r.id(), r.strength(), r);
            assert(p.subrange(1, 17) =~= r.id().spec_bytes());
            assert(p[0] == strength_byte(r.strength()));
        },
        ValueView::Array(items) => {
            let p = payload_of(v);
            let count = items.len() as u32;
            lemma_le_u32_of_bytes(count);
            lemma_items_split(items, 0);
            assert(items_payload(items, 0) =~= Seq::<u8>::empty());
            assert(p.skip(4) =~= items_tail(items, 0));
            assert(le_u32(p) == le_u32(le_u32_bytes(count)));
            assert(items.take(0) =~= Seq::<ValueView>::empty());
            lemma_parse_items_tail(items, 0);
        },
        ValueView::Object(entries) => {
            let p = payload_of(v);
            let count = entries.len() as u32;
            lemma_le_u32_of_bytes(count);
            lemma_entries_split(entries, 0);
            assert(entries_payload(entries, 0) =~= Seq::<u8>::empty());
            assert(p.skip(4) =~= entries_tail(entries, 0));
            assert(le_u32(p) == le_u32(le_u32_bytes(count)));
            assert(entries.take(0) =~= Seq::<(Seq<char>, ValueView)>::empty());
            lemma_parse_entries_tail(entries, 0);
        },
    }
}

/// A value comes back from its encoding as the same value: decoding what a
/// value encodes to succeeds, and what comes out compares equal to the value.
pub proof fn lemma_round_trip_same_value(v: ValueView)
    requires
        encodable(v),
        keys_distinct_below(v),
    ensures
        parse_value(marker_of(v), payload_of(v)) matches Ok(back) && same_value(back, v),
{
    lemma_decode_encode(v);
    lemma_same_value_reflexive(v);
}

/// How an item's frame followed by `tail` comes apart: the marker, the
/// payload length, the payload, and `tail`.
proof fn lemma_item_frame_parts(v: ValueView, tail: Seq<u8>)
    requires
        payload_of(v).len() <= u32::MAX,
    ensures
        (item_frame(v) + tail).len() == 5 + payload_of(v).len() + tail.len(),
        (item_frame(v) + tail)[0] == marker_of(v),
        le_u32((item_frame(v) + tail).subrange(1, 5)) == payload_of(v).len(),
        (item_frame(v) + tail).subrange(5, 5 + payload_of(v).len() as int) == payload_of(v),
        (item_frame(v) + tail).skip(5 + payload_of(v).len() as int) == tail,
{
    let input = item_frame(v) + tail;
    let plen = payload_of(v).len() as u32;
    lemma_le_u32_of_bytes(plen);
    assert(input.subrange(1, 5) =~= le_u32_bytes(plen));
    assert(input.subrange(5, 5 + plen) =~= payload_of(v));
    assert(input.skip(5 + plen) =~= tail);
}

/// How an entry's frame followed by `tail` comes apart: the key length, the
/// key, and the value's frame followed by `tail`.
proof fn lemma_entry_frame_parts(key: Seq<char>, v: ValueView, tail: Seq<u8>)
    requires
        encode_utf8(key).len() <= u32::MAX,
    ensures
        (entry_frame(key, v) + tail).len() >= 4 + encode_utf8(key).len(),
        le_u32(entry_frame(key, v) + tail) == encode_utf8(key).len(),
        (entry_frame(key, v) + tail).subrange(4, 4 + encode_utf8(key).len() as int) == encode_utf8(key),
        (entry_frame(key, v) + tail).skip(4 + encode_utf8(key).len() as int) == item_frame(v) + tail,
{
    let input = entry_frame(key, v) + tail;
    let klen = encode_utf8(key).len() as u32;
    lemma_le_u32_of_bytes(klen);
    assert(le_u32(input) == le_u32(le_u32_bytes(klen)));
    assert(input.subrange(4, 4 + klen) =~= encode_utf8(key));
    assert(input.skip(4 + klen) =~= item_frame(v) + tail);
}

/// Decoding the frames of the items from place `k` on, after the first `k`
/// items, gives all items.
#[verifier::rlimit(40)]
proof fn lemma_parse_items_tail(items: Seq<ValueView>, k: nat)
    requires
        k <= items.len(),
        forall|i: int|
            0 <= i < items.len() ==> encodable(#[trigger] items[i]) && payload_of(items[i]).len()
                <= u32::MAX && keys_distinct_below(items[i]),
    ensures
        parse_items(items_tail(items, k), (items.len() - k) as nat, items.take(k as int)) == Ok::<
            Seq<ValueView>,
            DeserializeError,
        >(items),
    decreases items, items.len() - k,
{
    if k < items.len() {
        let item = items[k as int];
        let tail = items_tail(items, k + 1);
        assert(encodable(item) && keys_distinct_below(item));
        lemma_decode_encode(item);
        lemma_parse_items_tail(items, k + 1);
        lemma_item_frame_parts(item, tail);
        assert(items_tail(items, k) == item_frame(item) + tail);
        assert(items.take(k as int).push(item) =~= items.take(k + 1 as int));
    } else {
        assert(items.take(k as int) =~= items);
    }
}

/// Setting the key at place `k` after the first `k` entries of a list
/// without a repeated key adds the entry at the end.
proof fn lemma_insert_next(entries: Seq<(Seq<char>, ValueView)>, k: int)
    requires
        0 <= k < entries.len(),
        keys_distinct(entries),
    ensures
        entries_insert(entries.take(k), entries[k].0, entries[k].1) == entries.take(k + 1),
{
    let before = entries.take(k);
    let key = entries[k].0;
    if key_position(before, key) is Some {
        lemma_key_position_found(before, key);
        let j = key_position(before, key)->0;
        assert(before[j] == entries[j]);
        assert(entries[j].0 != entries[k].0);
    }
    assert(entries_insert(before, key, entries[k].1) =~= entries.take(k + 1));
}

/// Decoding the frames of the entries from place `k` on, after the first `k`
/// entries, gives all entries.
#[verifier::rlimit(40)]
proof fn lemma_parse_entries_tail(entries: Seq<(Seq<char>, ValueView)>, k: nat)
    requires
        k <= entries.len(),
        keys_distinct(entries),
        forall|i: int|
            0 <= i < entries.len() ==> encode_utf8((#[trigger] entries[i]).0).len() <= u32::MAX
                && encodable(entries[i].1) && payload_of(entries[i].1).len() <= u32::MAX
                && keys_distinct_below(entries[i].1),
    ensures
        parse_entries(entries_tail(entries, k), (entries.len() - k) as nat, entries.take(k as int))
            == Ok::<Seq<(Seq<char>, ValueView)>, DeserializeError>(entries),
    decreases entries, entries.len() - k,
{
    if k < entries.len() {
        let key = entries[k as int].0;
        let value = entries[k as int].1;
        let tail = entries_tail(entries, k + 1);
        assert(encodable(value) && keys_distinct_below(value));
        lemma_decode_encode(value);
        lemma_parse_entries_tail(entries, k + 1);
        encode_utf8_valid_utf8(key);
        encode_utf8_decode_utf8(key);
        lemma_entry_frame_parts(key, value, tail);
        lemma_item_frame_parts(value, tail);
        lemma_insert_next(entries, k as int);
        assert(entries_tail(entries, k) == entry_frame(key, value) + tail);
    } else {
        assert(entries.take(k as int) =~= entries);
    }
}

/// Where the parts of a serialized token lie: the version byte, the identity,
/// the marker, the payload length, the payload and the checksum.
#[verifier::rlimit(40)]
pub proof fn lemma_envelope_parts(id: TokenId, v: ValueView)
    requires
        payload_of(v).len() <= u32::MAX,
    ensures
        envelope(id, v).len() == 26 + payload_of(v).len(),
        envelope(id, v)[0] == 1,
        envelope(id, v).subrange(1, 17) == id.spec_bytes(),
        envelope(id, v)[17] == marker_of(v),
        envelope(id, v).subrange(18, 22) == le_u32_bytes(payload_of(v).len() as u32),
        le_u32(envelope(id, v).subrange(18, 22)) == payload_of(v).len(),
        envelope(id, v).subrange(22, envelope(id, v).len() - 4) == payload_of(v),
        envelope(id, v).take(envelope(id, v).len() - 4) == envelope_body(id, v),
        envelope(id, v).skip(envelope(id, v).len() - 4) == le_u32_bytes(
            crc32_ieee(envelope_body(id, v)),
        ),
        le_u32(envelope(id, v).skip(envelope(id, v).len() - 4)) == crc32_ieee(
            envelope_body(id, v),
        ),
        framing(envelope(id, v)) is Ok,
{
    let b = envelope(id, v);
    let body = envelope_body(id, v);
    let plen = payload_of(v).len() as u32;
    TokenId::lemma_of_bytes(Seq::empty(), id);
    lemma_le_u32_of_bytes(plen);
    lemma_le_u32_of_bytes(crc32_ieee(body));
    assert(body.len() == 22 + payload_of(v).len());
    assert(b.subrange(1, 17) =~= id.spec_bytes());
    assert(b.subrange(18, 22) =~= le_u32_bytes(plen));
    assert(b.subrange(22, b.len() - 4) =~= payload_of(v));
    assert(b.take(b.len() - 4) =~= body);
    assert(b.skip(b.len() - 4) =~= le_u32_bytes(crc32_ieee(body)));
}

/// Deserializing inverts serializing: a serialized token deserializes to its
/// own identity and value.
pub proof fn lemma_deserialize_serialize(id: TokenId, v: ValueView)
    requires
        serializable(v),
        keys_distinct_below(v),
    ensures
        parse_token(envelope(id, v)) == Ok::<(TokenId, ValueView), DeserializeError>((id, v)),
{
    lemma_envelope_parts(id, v);
    lemma_decode_encode(v);
    TokenId::lemma_of_bytes(Seq::empty(), id);
}

/// A serialized token passes the check of its envelope.
pub proof fn lemma_envelope_validates(id: TokenId, v: ValueView)
    requires
        serializable(v),
    ensures
        envelope_verdict(envelope(id, v)) is Ok,
{
    lemma_envelope_parts(id, v);
}

/// Four bytes that denote the same number are the same bytes.
proof fn lemma_le_u32_injective(a: Seq<u8>, b: Seq<u8>)
    requires
        a.len() == 4,
        b.len() == 4,
        le_u32(a) == le_u32(b),
    ensures
        a == b,
{
    lemma_le_u32_bytes_of(a);
    lemma_le_u32_bytes_of(b);
}

/// What a payload decodes to has the marker it was decoded under.
proof fn lemma_parse_keeps_marker(marker: u8, payload: Seq<u8>)
    requires
        parse_value(marker, payload) is Ok,
    ensures
        marker_of(parse_value(marker, payload)->Ok_0) == marker,
{
}

/// Changing one byte in the header or the checksum of a serialized token
/// never goes unnoticed. A changed version byte is an unsupported version; a
/// changed payload length breaks the framing; a changed checksum byte is a
/// checksum mismatch; and where a changed identity or marker byte is accepted
/// at all, what comes out has another identity or another value.
#[verifier::rlimit(40)]
pub proof fn lemma_header_or_checksum_corrupted(id: TokenId, v: ValueView, at: int, byte: u8)
    requires
        serializable(v),
        0 <= at < 22 || envelope(id, v).len() - 4 <= at < envelope(id, v).len(),
        byte != envelope(id, v)[at],
    ensures
        at == 0 ==> parse_token(envelope(id, v).update(at, byte)) == Err::<
            (TokenId, ValueView),
            DeserializeError,
        >(DeserializeError::UnsupportedVersion),
        18 <= at < 22 ==> parse_token(envelope(id, v).update(at, byte)) == Err::<
            (TokenId, ValueView),
            DeserializeError,
        >(DeserializeError::Truncated) || parse_token(envelope(id, v).update(at, byte)) == Err::<
            (TokenId, ValueView),
            DeserializeError,
        >(DeserializeError::TrailingBytes),
        at >= 22 ==> parse_token(envelope(id, v).update(at, byte)) == Err::<
            (TokenId, ValueView),
            DeserializeError,
        >(DeserializeError::ChecksumMismatch),
        parse_token(envelope(id, v).update(at, byte)) != Ok::<
            (TokenId, ValueView),
            DeserializeError,
        >((id, v)),
{
    let good = envelope(id, v);
    let bad = good.update(at, byte);
    let n = good.len() as int;
    lemma_envelope_parts(id, v);
    if at == 0 {
    } else if at < 17 {
        assert(bad.subrange(18, 22) =~= good.subrange(18, 22));
        if parse_token(bad) is Ok {
            let got = TokenId::of_bytes(bad.subrange(1, 17));
            TokenId::lemma_of_bytes(bad.subrange(1, 17), id);
            assert(bad.subrange(1, 17)[at - 1] != good.subrange(1, 17)[at - 1]);
            assert(got.spec_bytes() != id.spec_bytes());
        }
    } else if at == 17 {
        assert(bad.subrange(18, 22) =~= good.subrange(18, 22));
        if parse_token(bad) is Ok {
            lemma_parse_keeps_marker(bad[17], bad.subrange(22, n - 4));
        }
    } else if at < 22 {
        let a = good.subrange(18, 22);
        let b = bad.subrange(18, 22);
        assert(a[at - 18] != b[at - 18]);
        if le_u32(a) == le_u32(b) {
            lemma_le_u32_injective(a, b);
        }
    } else {
        assert(bad.subrange(18, 22) =~= good.subrange(18, 22));
        assert(bad.take(n - 4) =~= good.take(n - 4));
        let a = good.skip(n - 4);
        let b = bad.skip(n - 4);
        assert(a[at - (n - 4)] != b[at - (n - 4)]);
        if le_u32(a) == le_u32(b) {
            lemma_le_u32_injective(a, b);
        }
    }
}

/// The length of the frames of all of `entries`.
pub open spec fn frames_len(entries: Seq<(Seq<char>, ValueView)>) -> nat {
    entries_payload(entries, entries.len()).len()
}

/// The frames of the first `n` entries depend on those entries alone.
proof fn lemma_entries_payload_prefix(
    a: Seq<(Seq<char>, ValueView)>,
    b: Seq<(Seq<char>, ValueView)>,
    n: nat,
)
    requires
        n <= a.len(),
        n <= b.len(),
        forall|i: int| 0 <= i < n ==> a[i] == b[i],
    ensures
        entries_payload(a, n) == entries_payload(b, n),
    decreases n,
{
    if n > 0 {
        lemma_entries_payload_prefix(a, b, (n - 1) as nat);
        assert(a[n - 1] == b[n - 1]);
    }
}

/// The frames of the first `n + 1` entries are those of the first `n`
/// followed by the frame of the next.
proof fn lemma_entries_payload_step(entries: Seq<(Seq<char>, ValueView)>, n: nat)
    requires
        n < entries.len(),
    ensures
        entries_payload(entries, n + 1) == entries_payload(entries, n) + entry_frame(
            entries[n as int].0,
            entries[n as int].1,
        ),
        entry_frame(entries[n as int].0, entries[n as int].1).len() >= 9,
{
    let key = entries[n as int].0;
    let v = entries[n as int].1;
    lemma_le_u32_of_bytes(encode_utf8(key).len() as u32);
    lemma_le_u32_of_bytes(payload_of(v).len() as u32);
    assert(entries_payload(entries, n + 1) == entries_payload(entries, n) + le_u32_bytes(
        encode_utf8(key).len() as u32,
    ) + encode_utf8(key) + seq![marker_of(v)] + le_u32_bytes(payload_of(v).len() as u32)
        + payload_of(v));
    assert(entries_payload(entries, n + 1) =~= entries_payload(entries, n) + entry_frame(key, v));
}

/// Adding an entry at the end adds the length of its frame.
proof fn lemma_frames_len_push(entries: Seq<(Seq<char>, ValueView)>, key: Seq<char>, v: ValueView)
    ensures
        frames_len(entries.push((key, v))) == frames_len(entries) + entry_frame(key, v).len(),
{
    let longer = entries.push((key, v));
    lemma_entries_payload_step(longer, entries.len());
    lemma_entries_payload_prefix(longer, entries, entries.len());
}

/// The frames of the first `n` entries, with the entry at `at` replaced,
/// differ in length by the difference of the two frames.
proof fn lemma_frames_len_update(
    entries: Seq<(Seq<char>, ValueView)>,
    at: int,
    key: Seq<char>,
    v: ValueView,
    n: nat,
)
    requires
        0 <= at < entries.len(),
        n <= entries.len(),
    ensures
        entries_payload(entries.update(at, (key, v)), n).len() == if at < n {
            entries_payload(entries, n).len() - entry_frame(entries[at].0, entries[at].1).len()
                + entry_frame(key, v).len()
        } else {
            entries_payload(entries, n).len() as int
        },
        entries_payload(entries, n).len() >= if at < n {
            entry_frame(entries[at].0, entries[at].1).len()
        } else {
            0
        },
    decreases n,
{
    let changed = entries.update(at, (key, v));
    if n > 0 {
        lemma_frames_len_update(entries, at, key, v, (n - 1) as nat);
        lemma_entries_payload_step(entries, (n - 1) as nat);
        lemma_entries_payload_step(changed, (n - 1) as nat);
    }
}

/// Setting a key adds at most the length of the entry's frame to the frames,
/// and exactly that only where the key was not there.
proof fn lemma_frames_len_insert(entries: Seq<(Seq<char>, ValueView)>, key: Seq<char>, v: ValueView)
    ensures
        frames_len(entries_insert(entries, key, v)) <= frames_len(entries) + entry_frame(
            key,
            v,
        ).len(),
        frames_len(entries_insert(entries, key, v)) == frames_len(entries) + entry_frame(
            key,
            v,
        ).len() ==> entries_insert(entries, key, v) == entries.push((key, v)),
{
    match key_position(entries, key) {
        Some(i) => {
            lemma_key_position_found(entries, key);
            lemma_frames_len_update(entries, i, key, v, entries.len());
            lemma_entries_payload_step(entries, i as nat);
        },
        None => {
            lemma_frames_len_push(entries, key, v);
        },
    }
}

/// Decoding forgets nothing but repeated keys: what a payload decodes to has
/// the marker it was decoded under and a payload of its own that is no
/// longer, and that is the payload itself where it is as long.
pub proof fn lemma_parse_canonical(marker: u8, payload: Seq<u8>)
    requires
        parse_value(marker, payload) is Ok,
    ensures
        marker_of(parse_value(marker, payload)->Ok_0) == marker,
        payload_of(parse_value(marker, payload)->Ok_0).len() <= payload.len(),
        payload_of(parse_value(marker, payload)->Ok_0).len() == payload.len() ==> payload_of(
            parse_value(marker, payload)->Ok_0,
        ) == payload,
    decreases payload.len(), 1nat,
{
    if marker == TYPE_ARRAY {
        lemma_parse_array_canonical(payload);
    } else if marker == TYPE_OBJECT {
        lemma_parse_object_canonical(payload);
    } else {
        lemma_parse_scalar_canonical(marker, payload);
    }
}

/// A payload that decodes to a scalar or a reference is the payload of what
/// it decodes to.
#[verifier::rlimit(40)]
proof fn lemma_parse_scalar_canonical(marker: u8, payload: Seq<u8>)
    requires
        parse_value(marker, payload) is Ok,
        marker != TYPE_ARRAY,
        marker != TYPE_OBJECT,
    ensures
        marker_of(parse_value(marker, payload)->Ok_0) == marker,
        payload_of(parse_value(marker, payload)->Ok_0) == payload,
{
    let v = parse_value(marker, payload)->Ok_0;
    match v {
        ValueView::Null => {
            assert(payload_of(v) =~= payload);
        },
        ValueView::Bool(_) => {
            assert(payload_of(v) =~= payload);
        },
        ValueView::Int(x) => {
            lemma_i64_bits(0, le_u64(payload));
            lemma_le_u64_bytes_of(payload);
        },
        ValueView::Float(bits) => {
            lemma_le_u64_bytes_of(payload);
        },
        ValueView::String(s) => {
            decode_utf8_encode_utf8(payload);
        },
        ValueView::Ref(r) => {
            let id_bytes = payload.subrange(1, 17);
            TokenId::lemma_of_bytes(id_bytes, r.id());
            let strength = if payload[0] == 0 {
                TokenRefStrength::Strong
            } else {
                TokenRefStrength::Weak
            };
            TokenRef::lemma_of(TokenId::of_bytes(id_bytes), strength, r);
            assert(payload_of(v) =~= payload);
        },
        _ => {},
    }
}

/// What an array payload decodes to has a payload of its own that is no
/// longer, and that is the payload itself where it is as long.
#[verifier::rlimit(40)]
proof fn lemma_parse_array_canonical(payload: Seq<u8>)
    requires
        parse_array(payload) is Ok,
    ensures
        parse_array(payload)->Ok_0 is Array,
        payload_of(parse_array(payload)->Ok_0).len() <= payload.len(),
        payload_of(parse_array(payload)->Ok_0).len() == payload.len() ==> payload_of(
            parse_array(payload)->Ok_0,
        ) == payload,
    decreases payload.len(), 0nat,
{
    let v = parse_array(payload)->Ok_0;
    let items = v->Array_0;
    let input = payload.skip(4);
    let n = le_u32(payload) as nat;
    lemma_parse_items_canonical(input, n, Seq::empty());
    lemma_items_split(items, 0);
    assert(items_payload(items, 0) =~= Seq::<u8>::empty());
    assert(items_payload(items, items.len()) =~= items_tail(items, 0));
    lemma_le_u32_of_bytes(n as u32);
    if payload_of(v).len() == payload.len() {
        lemma_le_u32_bytes_of(payload.subrange(0, 4));
        assert(le_u32(payload.subrange(0, 4)) == le_u32(payload));
        assert(payload_of(v) =~= payload.subrange(0, 4) + input);
        assert(payload.subrange(0, 4) + input =~= payload);
    }
}

/// What an object payload decodes to has a payload of its own that is no
/// longer, and that is the payload itself where it is as long.
#[verifier::rlimit(40)]
proof fn lemma_parse_object_canonical(payload: Seq<u8>)
    requires
        parse_object(payload) is Ok,
    ensures
        parse_object(payload)->Ok_0 is Object,
        payload_of(parse_object(payload)->Ok_0).len() <= payload.len(),
        payload_of(parse_object(payload)->Ok_0).len() == payload.len() ==> payload_of(
            parse_object(payload)->Ok_0,
        ) == payload,
    decreases payload.len(), 0nat,
{
    let v = parse_object(payload)->Ok_0;
    let entries = v->Object_0;
    let input = payload.skip(4);
    let n = le_u32(payload) as nat;
    lemma_parse_entries_canonical(input, n, Seq::empty());
    assert(entries_payload(Seq::<(Seq<char>, ValueView)>::empty(), 0) =~= Seq::<u8>::empty());
    lemma_le_u32_of_bytes(entries.len() as u32);
    if payload_of(v).len() == payload.len() {
        lemma_entries_split(entries, 0);
        assert(entries_payload(entries, 0) =~= Seq::<u8>::empty());
        assert(entries_payload(entries, entries.len()) =~= entries_tail(entries, 0));
        lemma_le_u32_bytes_of(payload.subrange(0, 4));
        assert(le_u32(payload.subrange(0, 4)) == le_u32(payload));
        assert(payload_of(v) =~= payload.subrange(0, 4) + input);
        assert(payload.subrange(0, 4) + input =~= payload);
    }
}

/// What `n` framed items decode to holds what was there before, then `n`
/// more items whose frames are no longer than the input, and are the input
/// where they are as long.
#[verifier::rlimit(40)]
proof fn lemma_parse_items_canonical(input: Seq<u8>, n: nat, acc: Seq<ValueView>)
    requires
        parse_items(input, n, acc) is Ok,
    ensures
        parse_items(input, n, acc)->Ok_0.len() == acc.len() + n,
        parse_items(input, n, acc)->Ok_0.take(acc.len() as int) == acc,
        items_tail(parse_items(input, n, acc)->Ok_0, acc.len()).len() <= input.len(),
        items_tail(parse_items(input, n, acc)->Ok_0, acc.len()).len() == input.len() ==> items_tail(
            parse_items(input, n, acc)->Ok_0,
            acc.len(),
        ) == input,
    decreases input.len(), 0nat,
{
    let items = parse_items(input, n, acc)->Ok_0;
    if n == 0 {
        assert(items.take(acc.len() as int) =~= acc);
    } else {
        let len = le_u32(input.subrange(1, 5)) as int;
        let sub = input.subrange(5, 5 + len);
        let rest = input.skip(5 + len);
        let item = parse_value(input[0], sub)->Ok_0;
        lemma_parse_canonical(input[0], sub);
        lemma_parse_items_canonical(rest, (n - 1) as nat, acc.push(item));
        let k = acc.len();
        assert(items.take(k + 1 as int)[k as int] == item);
        assert(items[k as int] == item);
        assert(items.take(k as int) =~= items.take(k + 1 as int).take(k as int));
        assert(items.take(k as int) =~= acc);
        assert(items_tail(items, k) == item_frame(item) + items_tail(items, k + 1));
        lemma_le_u32_of_bytes(payload_of(item).len() as u32);
        if items_tail(items, k).len() == input.len() {
            lemma_le_u32_bytes_of(input.subrange(1, 5));
            assert(items_tail(items, k) =~= input);
        }
    }
}

/// An entry's frame followed by `after` is the input that the entry and
/// `after` were cut from.
#[verifier::rlimit(40)]
proof fn lemma_entry_rebuilt(input: Seq<u8>, key: Seq<char>, value: ValueView, after: Seq<u8>)
    requires
        input.len() >= 4,
        input.len() - 4 >= le_u32(input),
        encode_utf8(key) == input.subrange(4, 4 + le_u32(input) as int),
        input.skip(4 + le_u32(input) as int).len() >= 5,
        ({
            let rest = input.skip(4 + le_u32(input) as int);
            let len = le_u32(rest.subrange(1, 5)) as int;
            &&& rest.len() - 5 >= len
            &&& marker_of(value) == rest[0]
            &&& payload_of(value) == rest.subrange(5, 5 + len)
            &&& after == rest.skip(5 + len)
        }),
    ensures
        entry_frame(key, value) + after == input,
{
    let key_len = le_u32(input) as int;
    let rest = input.skip(4 + key_len);
    let len = le_u32(rest.subrange(1, 5)) as int;
    lemma_le_u32_bytes_of(input.subrange(0, 4));
    assert(le_u32(input.subrange(0, 4)) == le_u32(input));
    lemma_le_u32_bytes_of(rest.subrange(1, 5));
    assert(item_frame(value) + after =~= rest);
    assert(entry_frame(key, value) + after =~= input.subrange(0, 4) + input.subrange(
        4,
        4 + key_len,
    ) + rest);
    assert(input.subrange(0, 4) + input.subrange(4, 4 + key_len) + rest =~= input);
}

/// Where a list holds what was there before and then the entry `(key,
/// value)`, it holds what was there before.
proof fn lemma_take_one_less(
    entries: Seq<(Seq<char>, ValueView)>,
    acc: Seq<(Seq<char>, ValueView)>,
    key: Seq<char>,
    value: ValueView,
)
    requires
        entries.len() > acc.len(),
        entries.take(acc.len() + 1 as int) == acc.push((key, value)),
    ensures
        entries.take(acc.len() as int) == acc,
        entries[acc.len() as int] == (key, value),
{
    let k = acc.len() as int;
    assert(entries.take(k + 1)[k] == (key, value));
    assert(entries.take(k) =~= entries.take(k + 1).take(k));
    assert(acc.push((key, value)).take(k) =~= acc);
}

/// What `n` framed entries decode to has frames no longer than those of what
/// was there before and the input together; where they are as long, no key
/// was repeated, and the frames of the `n` new entries are the input.
#[verifier::rlimit(40)]
proof fn lemma_parse_entries_canonical(
    input: Seq<u8>,
    n: nat,
    acc: Seq<(Seq<char>, ValueView)>,
)
    requires
        parse_entries(input, n, acc) is Ok,
    ensures
        frames_len(parse_entries(input, n, acc)->Ok_0) <= frames_len(acc) + input.len(),
        frames_len(parse_entries(input, n, acc)->Ok_0) == frames_len(acc) + input.len() ==> {
            &&& parse_entries(input, n, acc)->Ok_0.len() == acc.len() + n
            &&& parse_entries(input, n, acc)->Ok_0.take(acc.len() as int) == acc
            &&& entries_tail(parse_entries(input, n, acc)->Ok_0, acc.len()) == input
        },
    decreases input.len(), 0nat,
{
    let entries = parse_entries(input, n, acc)->Ok_0;
    if n == 0 {
        assert(entries.take(acc.len() as int) =~= acc);
    } else {
        let key_len = le_u32(input) as int;
        let key_bytes = input.subrange(4, 4 + key_len);
        let key = decode_utf8(key_bytes);
        let rest = input.skip(4 + key_len);
        let len = le_u32(rest.subrange(1, 5)) as int;
        let sub = rest.subrange(5, 5 + len);
        let after = rest.skip(5 + len);
        let value = parse_value(rest[0], sub)->Ok_0;
        let next = entries_insert(acc, key, value);
        assert(entries == parse_entries(after, (n - 1) as nat, next)->Ok_0);
        lemma_parse_canonical(rest[0], sub);
        lemma_parse_entries_canonical(after, (n - 1) as nat, next);
        lemma_frames_len_insert(acc, key, value);
        assert(encode_utf8(key) == key_bytes) by {
            decode_utf8_encode_utf8(key_bytes);
        }
        assert(entry_frame(key, value).len() == 9 + key_len + payload_of(value).len()) by {
            lemma_le_u32_of_bytes(key_len as u32);
            lemma_le_u32_of_bytes(payload_of(value).len() as u32);
        }
        assert(input.len() == 9 + key_len + len + after.len());
        if frames_len(entries) == frames_len(acc) + input.len() {
            let k = acc.len();
            assert(next == acc.push((key, value)));
            assert(payload_of(value) == sub);
            lemma_take_one_less(entries, acc, key, value);
            assert(entries_tail(entries, k) == entry_frame(key, value) + entries_tail(
                entries,
                k + 1,
            ));
            lemma_entry_rebuilt(input, key, value, after);
        }
    }
}

/// Changing one byte of a serialized token never goes unnoticed: what comes
/// out is an error, or a token with another identity or another value.
#[verifier::rlimit(40)]
pub proof fn lemma_corruption_noticed(id: TokenId, v: ValueView, at: int, byte: u8)
    requires
        serializable(v),
        0 <= at < envelope(id, v).len(),
        byte != envelope(id, v)[at],
    ensures
        parse_token(envelope(id, v).update(at, byte)) != Ok::<
            (TokenId, ValueView),
            DeserializeError,
        >((id, v)),
{
    let good = envelope(id, v);
    let bad = good.update(at, byte);
    let n = good.len() as int;
    lemma_envelope_parts(id, v);
    if at < 22 || at >= n - 4 {
        lemma_header_or_checksum_corrupted(id, v, at, byte);
    } else if parse_token(bad) is Ok {
        let p = bad.subrange(22, n - 4);
        assert(bad.subrange(18, 22) =~= good.subrange(18, 22));
        assert(p[at - 22] != good.subrange(22, n - 4)[at - 22]);
        lemma_parse_canonical(bad[17], p);
    }
}

/// What a payload decodes to holds no key twice in any of its objects.
pub proof fn lemma_parse_keys_distinct(marker: u8, payload: Seq<u8>)
    requires
        parse_value(marker, payload) is Ok,
    ensures
        keys_distinct_below(parse_value(marker, payload)->Ok_0),
    decreases payload.len(), 1nat,
{
    let v = parse_value(marker, payload)->Ok_0;
    match v {
        ValueView::Array(items) => {
            lemma_parse_items_distinct(payload.skip(4), le_u32(payload) as nat, Seq::empty());
        },
        ValueView::Object(entries) => {
            lemma_parse_entries_distinct(payload.skip(4), le_u32(payload) as nat, Seq::empty());
        },
        _ => {},
    }
}

/// Decoding items keeps a list of values free of repeated keys.
proof fn lemma_parse_items_distinct(input: Seq<u8>, n: nat, acc: Seq<ValueView>)
    requires
        parse_items(input, n, acc) is Ok,
        forall|i: int| 0 <= i < acc.len() ==> keys_distinct_below(#[trigger] acc[i]),
    ensures
        forall|i: int|
            0 <= i < parse_items(input, n, acc)->Ok_0.len() ==> keys_distinct_below(
                #[trigger] parse_items(input, n, acc)->Ok_0[i],
            ),
    decreases input.len(), 0nat,
{
    if n > 0 {
        let len = le_u32(input.subrange(1, 5)) as int;
        let sub = input.subrange(5, 5 + len);
        let item = parse_value(input[0], sub)->Ok_0;
        lemma_parse_keys_distinct(input[0], sub);
        let next = acc.push(item);
        assert forall|i: int| 0 <= i < next.len() implies keys_distinct_below(
            #[trigger] next[i],
        ) by {
            if i < acc.len() {
                assert(next[i] == acc[i]);
            }
        }
        lemma_parse_items_distinct(input.skip(5 + len), (n - 1) as nat, next);
    }
}

/// Decoding entries keeps a list of entries, and the values in it, free of
/// repeated keys.
proof fn lemma_parse_entries_distinct(
    input: Seq<u8>,
    n: nat,
    acc: Seq<(Seq<char>, ValueView)>,
)
    requires
        parse_entries(input, n, acc) is Ok,
        keys_distinct(acc),
        forall|i: int| 0 <= i < acc.len() ==> keys_distinct_below((#[trigger] acc[i]).1),
    ensures
        keys_distinct(parse_entries(input, n, acc)->Ok_0),
        forall|i: int|
            0 <= i < parse_entries(input, n, acc)->Ok_0.len() ==> keys_distinct_below(
                (#[trigger] parse_entries(input, n, acc)->Ok_0[i]).1,
            ),
    decreases input.len(), 0nat,
{
    if n > 0 {
        let key_len = le_u32(input) as int;
        let key = decode_utf8(input.subrange(4, 4 + key_len));
        let rest = input.skip(4 + key_len);
        let len = le_u32(rest.subrange(1, 5)) as int;
        let sub = rest.subrange(5, 5 + len);
        let value = parse_value(rest[0], sub)->Ok_0;
        lemma_parse_keys_distinct(rest[0], sub);
        let next = entries_insert(acc, key, value);
        lemma_insert_keeps_distinct(acc, key, value);
        assert forall|i: int| 0 <= i < next.len() implies keys_distinct_below(
            (#[trigger] next[i]).1,
        ) by {
            match key_position(acc, key) {
                Some(j) => {
                    lemma_key_position_found(acc, key);
                    if i != j {
                        assert(next[i] == acc[i]);
                    }
                },
                None => {
                    if i < acc.len() {
                        assert(next[i] == acc[i]);
                    }
                },
            }
        }
        lemma_parse_entries_distinct(rest.skip(5 + len), (n - 1) as nat, next);
    }
}

/// The sum of the bytes of `bytes`.
pub open spec fn byte_sum(bytes: Seq<u8>) -> nat
    decreases bytes.len(),
{
    if bytes.len() == 0 {
        0
    } else {
        byte_sum(bytes.drop_last()) + bytes.last() as nat
    }
}

/// Two byte strings are alike: they are as long as each other and their
/// bytes add up to the same. Byte strings that hold the same pieces in
/// another order are alike, and byte strings that differ in one byte only
/// are not.
pub open spec fn alike(a: Seq<u8>, b: Seq<u8>) -> bool {
    a.len() == b.len() && byte_sum(a) == byte_sum(b)
}

/// The bytes of two byte strings, one after the other, add up to the sum of
/// the two sums.
proof fn lemma_sum_concat(a: Seq<u8>, b: Seq<u8>)
    ensures
        byte_sum(a + b) == byte_sum(a) + byte_sum(b),
    decreases b.len(),
{
    if b.len() == 0 {
        assert(a + b =~= a);
    } else {
        lemma_sum_concat(a, b.drop_last());
        assert((a + b).drop_last() =~= a + b.drop_last());
    }
}

/// A changed byte changes the sum by the difference of the two bytes.
proof fn lemma_sum_update(bytes: Seq<u8>, at: int, byte: u8)
    requires
        0 <= at < bytes.len(),
    ensures
        byte_sum(bytes.update(at, byte)) + bytes[at] == byte_sum(bytes) + byte,
    decreases bytes.len(),
{
    let changed = bytes.update(at, byte);
    if at == bytes.len() - 1 {
        assert(changed.drop_last() =~= bytes.drop_last());
    } else {
        lemma_sum_update(bytes.drop_last(), at, byte);
        assert(changed.drop_last() =~= bytes.drop_last().update(at, byte));
    }
}

/// The frames of the first `n + 1` items are those of the first `n`
/// followed by the frame of the next.
proof fn lemma_items_payload_step(items: Seq<ValueView>, n: nat)
    requires
        n < items.len(),
    ensures
        items_payload(items, n + 1) == items_payload(items, n) + item_frame(items[n as int]),
{
    let item = items[n as int];
    assert(items_payload(items, n + 1) == items_payload(items, n) + seq![marker_of(item)]
        + le_u32_bytes(payload_of(item).len() as u32) + payload_of(item));
    assert(items_payload(items, n + 1) =~= items_payload(items, n) + item_frame(item));
}

/// Values with the same marker and payloads that are alike have frames that
/// are alike.
proof fn lemma_item_frames_alike(u: ValueView, w: ValueView)
    requires
        marker_of(u) == marker_of(w),
        alike(payload_of(u), payload_of(w)),
    ensures
        alike(item_frame(u), item_frame(w)),
{
    let head = seq![marker_of(u)] + le_u32_bytes(payload_of(u).len() as u32);
    lemma_sum_concat(head, payload_of(u));
    lemma_sum_concat(head, payload_of(w));
    assert(item_frame(w) == head + payload_of(w));
}

/// Entries with the same key and values whose frames are alike have frames
/// that are alike.
proof fn lemma_entry_frames_alike(key: Seq<char>, u: ValueView, w: ValueView)
    requires
        alike(item_frame(u), item_frame(w)),
    ensures
        alike(entry_frame(key, u), entry_frame(key, w)),
{
    let head = le_u32_bytes(encode_utf8(key).len() as u32) + encode_utf8(key);
    lemma_sum_concat(head, item_frame(u));
    lemma_sum_concat(head, item_frame(w));
}

/// Lists of items whose frames are alike place by place have frames that are
/// alike as a whole.
proof fn lemma_items_alike(x: Seq<ValueView>, y: Seq<ValueView>, n: nat)
    requires
        n <= x.len(),
        n <= y.len(),
        forall|i: int| 0 <= i < n ==> alike(item_frame(#[trigger] x[i]), item_frame(y[i])),
    ensures
        alike(items_payload(x, n), items_payload(y, n)),
    decreases n,
{
    if n > 0 {
        let m = (n - 1) as nat;
        lemma_items_alike(x, y, m);
        lemma_items_payload_step(x, m);
        lemma_items_payload_step(y, m);
        assert(alike(item_frame(x[m as int]), item_frame(y[m as int])));
        lemma_sum_concat(items_payload(x, m), item_frame(x[m as int]));
        lemma_sum_concat(items_payload(y, m), item_frame(y[m as int]));
    }
}

/// The frames of a list of entries are alike the frames of the list without
/// one entry, followed by the frame of that entry.
#[verifier::rlimit(40)]
proof fn lemma_entries_without(y: Seq<(Seq<char>, ValueView)>, j: int)
    requires
        0 <= j < y.len(),
    ensures
        alike(
            entries_payload(y, y.len()),
            entries_payload(y.remove(j), (y.len() - 1) as nat) + entry_frame(y[j].0, y[j].1),
        ),
    decreases y.len(),
{
    let n = y.len();
    let last = (n - 1) as nat;
    let z = y.drop_last();
    lemma_entries_payload_step(y, last);
    lemma_entries_payload_prefix(y, z, last);
    if j == n - 1 {
        assert(y.remove(j) =~= z);
    } else {
        let cut = y.remove(j);
        lemma_entries_without(z, j);
        assert(cut.drop_last() =~= z.remove(j));
        assert(cut[n - 2] == y[n - 1]);
        lemma_entries_payload_step(cut, (n - 2) as nat);
        lemma_entries_payload_prefix(cut, z.remove(j), (n - 2) as nat);
        let before = entries_payload(z.remove(j), (n - 2) as nat);
        let gone = entry_frame(y[j].0, y[j].1);
        let kept = entry_frame(y[n - 1].0, y[n - 1].1);
        lemma_sum_concat(entries_payload(z, last), kept);
        lemma_sum_concat(before, gone);
        lemma_sum_concat(before, kept);
        lemma_sum_concat(before + kept, gone);
    }
}

/// The entry `entry` has a partner in `entries`: an entry with the same key
/// and a frame that is alike.
pub open spec fn partnered(entry: (Seq<char>, ValueView), entries: Seq<(Seq<char>, ValueView)>) -> bool {
    key_position(entries, entry.0) matches Some(j) && alike(
        entry_frame(entry.0, entry.1),
        entry_frame(entries[j].0, entries[j].1),
    )
}

/// Two lists of entries without repeated keys, as long as each other, in
/// which every entry of the first has a partner in the second, have frames
/// that are alike as a whole.
#[verifier::rlimit(40)]
proof fn lemma_entries_alike(x: Seq<(Seq<char>, ValueView)>, y: Seq<(Seq<char>, ValueView)>)
    requires
        keys_distinct(x),
        keys_distinct(y),
        x.len() == y.len(),
        forall|i: int| 0 <= i < x.len() ==> partnered(#[trigger] x[i], y),
    ensures
        alike(entries_payload(x, x.len()), entries_payload(y, y.len())),
    decreases x.len(),
{
    let n = x.len();
    if n > 0 {
        let last = (n - 1) as nat;
        let e = x[n - 1];
        assert(partnered(e, y));
        let j = key_position(y, e.0)->0;
        lemma_key_position_found(y, e.0);
        let shorter = x.drop_last();
        let cut = y.remove(j);
        assert(keys_distinct(shorter)) by {
            assert forall|a: int, b: int| 0 <= a < b < shorter.len() implies (
            #[trigger] shorter[a]).0 != (#[trigger] shorter[b]).0 by {
                assert(x[a].0 != x[b].0);
            }
        }
        assert(keys_distinct(cut)) by {
            assert forall|a: int, b: int| 0 <= a < b < cut.len() implies (#[trigger] cut[a]).0 != (
            #[trigger] cut[b]).0 by {
                let sa = if a < j {
                    a
                } else {
                    a + 1
                };
                let sb = if b < j {
                    b
                } else {
                    b + 1
                };
                assert(cut[a] == y[sa] && cut[b] == y[sb]);
                assert(y[sa].0 != y[sb].0);
            }
        }
        assert forall|i: int| 0 <= i < shorter.len() implies partnered(
            #[trigger] shorter[i],
            cut,
        ) by {
            assert(partnered(x[i], y));
            let ji = key_position(y, x[i].0)->0;
            lemma_key_position_found(y, x[i].0);
            assert(x[i].0 != x[n - 1].0);
            assert(ji != j);
            let at = if ji < j {
                ji
            } else {
                ji - 1
            };
            assert(cut[at] == y[ji]);
            lemma_key_position_own(cut, at);
        }
        lemma_entries_alike(shorter, cut);
        lemma_entries_without(y, j);
        lemma_entries_payload_step(x, last);
        lemma_entries_payload_prefix(x, shorter, last);
        lemma_sum_concat(entries_payload(x, last), entry_frame(e.0, e.1));
        lemma_sum_concat(entries_payload(cut, last), entry_frame(y[j].0, y[j].1));
    }
}

/// Values that are the same value have the same marker, and payloads that
/// are alike: they hold the same pieces, at most in another order.
#[verifier::rlimit(40)]
pub proof fn lemma_same_value_alike(a: ValueView, b: ValueView)
    requires
        keys_distinct_below(a),
        keys_distinct_below(b),
        same_value(a, b),
    ensures
        marker_of(a) == marker_of(b),
        alike(payload_of(a), payload_of(b)),
    decreases a,
{
    match (a, b) {
        (ValueView::Array(x), ValueView::Array(y)) => {
            assert forall|i: int| 0 <= i < x.len() implies alike(
                item_frame(#[trigger] x[i]),
                item_frame(y[i]),
            ) by {
                assert(same_value(x[i], y[i]));
                lemma_same_value_alike(x[i], y[i]);
                lemma_item_frames_alike(x[i], y[i]);
            }
            lemma_items_alike(x, y, x.len());
            let head = le_u32_bytes(x.len() as u32);
            lemma_sum_concat(head, items_payload(x, x.len()));
            lemma_sum_concat(head, items_payload(y, y.len()));
        },
        (ValueView::Object(x), ValueView::Object(y)) => {
            assert forall|i: int| 0 <= i < x.len() implies partnered(#[trigger] x[i], y) by {
                assert(same_entry(x[i], y));
                let j = key_position(y, x[i].0)->0;
                lemma_key_position_found(y, x[i].0);
                lemma_same_value_alike(x[i].1, y[j].1);
                lemma_item_frames_alike(x[i].1, y[j].1);
                lemma_entry_frames_alike(x[i].0, x[i].1, y[j].1);
            }
            lemma_entries_alike(x, y);
            let head = le_u32_bytes(x.len() as u32);
            lemma_sum_concat(head, entries_payload(x, x.len()));
            lemma_sum_concat(head, entries_payload(y, y.len()));
        },
        _ => {},
    }
}

/// Changing one byte of a serialized token never gives the token back:
/// what comes out is an error, or has another identity, or a value that is
/// not the same value, even where the order of object entries does not
/// count.
#[verifier::rlimit(40)]
pub proof fn lemma_corruption_never_same(id: TokenId, v: ValueView, at: int, byte: u8)
    requires
        serializable(v),
        keys_distinct_below(v),
        0 <= at < envelope(id, v).len(),
        byte != envelope(id, v)[at],
    ensures
        parse_token(envelope(id, v).update(at, byte)) matches Ok(got) ==> got.0 != id
            || !same_value(got.1, v),
{
    let good = envelope(id, v);
    let bad = good.update(at, byte);
    let n = good.len() as int;
    lemma_envelope_parts(id, v);
    if parse_token(bad) is Ok {
        let got = parse_token(bad)->Ok_0;
        if at == 0 || 18 <= at < 22 || at >= n - 4 {
            lemma_header_or_checksum_corrupted(id, v, at, byte);
        } else {
            assert(bad.subrange(18, 22) =~= good.subrange(18, 22));
            let p = bad.subrange(22, n - 4);
            if at < 17 {
                TokenId::lemma_of_bytes(bad.subrange(1, 17), id);
                assert(bad.subrange(1, 17)[at - 1] != good.subrange(1, 17)[at - 1]);
                assert(got.0.spec_bytes() != id.spec_bytes());
            } else if same_value(got.1, v) {
                lemma_parse_keys_distinct(bad[17], p);
                lemma_same_value_alike(got.1, v);
                lemma_parse_canonical(bad[17], p);
                if at > 17 {
                    assert(p =~= payload_of(v).update(at - 22, byte));
                    lemma_sum_update(payload_of(v), at - 22, byte);
                }
            }
        }
    }
}

} // verus!
