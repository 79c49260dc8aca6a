use toon_format::constants;
use toon_format::deserialization::{decode_value, ByteReader};
use toon_format::endian::{
    i64_from_bits, i64_to_bits, u32_from_le, u32_to_le, u64_from_le, u64_to_le,
};
use toon_format::serialization::{encode_value, ByteWriter};
use toon_format::validation::checksum::crc32;
use toon_format::validation::validate_token_bytes;
use toon_format::{
    DeserializeError, Deserializer, Metadata, ObjectMap, Serializer, Token, TokenId, TokenRef,
    ToonError, Value,
};

fn sample_tree() -> Value {
    let mut inner = ObjectMap::new();
    inner.insert("id".to_string(), Value::Ref(TokenRef::strong(TokenId::from_bytes([7u8; 16]))));
    inner.insert("tags".to_string(), Value::Array(vec![Value::String("é".to_string()), Value::Null]));
    let mut outer = ObjectMap::new();
    outer.insert("n".to_string(), Value::Int(i64::MIN));
    outer.insert("x".to_string(), Value::Float((-0.5f64).to_bits()));
    outer.insert("inner".to_string(), Value::Object(inner));
    outer.insert("flag".to_string(), Value::Bool(true));
    Value::Array(vec![Value::Object(outer), Value::Int(3), Value::Array(vec![])])
}

#[test]
fn little_endian_numbers_are_exact() {
    assert_eq!(u32_to_le(0x0102_0304), [4, 3, 2, 1]);
    assert_eq!(u32_to_le(u32::MAX), [255, 255, 255, 255]);
    assert_eq!(u32_from_le(&[9, 4, 3, 2, 1, 9], 1), 0x0102_0304);
    assert_eq!(u64_to_le(0x0102_0304_0506_0708), [8, 7, 6, 5, 4, 3, 2, 1]);
    assert_eq!(u64_from_le(&[8, 7, 6, 5, 4, 3, 2, 1], 0), 0x0102_0304_0506_0708);
    for x in [0u32, 1, 255, 256, 65535, 65536, 0x7fff_ffff, 0x8000_0000, u32::MAX] {
        assert_eq!(u32_to_le(x), x.to_le_bytes());
        assert_eq!(u32_from_le(&x.to_le_bytes(), 0), x);
    }
    for x in [0u64, 1, 0xffff_ffff, 0x1_0000_0000, u64::MAX, 0x8000_0000_0000_0000] {
        assert_eq!(u64_to_le(x), x.to_le_bytes());
        assert_eq!(u64_from_le(&x.to_le_bytes(), 0), x);
    }
}

#[test]
fn twos_complement_bits_are_exact() {
    assert_eq!(i64_to_bits(0), 0);
    assert_eq!(i64_to_bits(-1), u64::MAX);
    assert_eq!(i64_to_bits(i64::MIN), 0x8000_0000_0000_0000);
    assert_eq!(i64_to_bits(i64::MAX), 0x7fff_ffff_ffff_ffff);
    assert_eq!(i64_from_bits(u64::MAX), -1);
    assert_eq!(i64_from_bits(0x8000_0000_0000_0000), i64::MIN);
    for x in [0i64, 1, -1, 42, -42, i64::MIN, i64::MAX] {
        assert_eq!(i64_to_bits(x), x as u64);
        assert_eq!(i64_from_bits(x as u64), x);
    }
}

#[test]
fn crc32_matches_the_check_value() {
    assert_eq!(crc32(b"123456789"), 0xCBF4_3926);
    assert_eq!(crc32(b""), 0);
    assert_ne!(crc32(b"a"), crc32(b"b"));
}

#[test]
fn writer_appends_in_order() {
    let mut w = ByteWriter::with_capacity(0);
    w.write_u8(0xAB);
    w.write_u32_le(0x0102_0304);
    w.write_i64_le(-2);
    w.write_f64_le(1.5f64.to_bits());
    w.write_bytes(b"xy");
    assert_eq!(w.as_slice().len(), 1 + 4 + 8 + 8 + 2);
    let bytes = w.into_inner();
    assert_eq!(bytes[0], 0xAB);
    assert_eq!(&bytes[1..5], &[4, 3, 2, 1]);
    assert_eq!(&bytes[5..13], &(-2i64).to_le_bytes());
    assert_eq!(&bytes[13..21], &1.5f64.to_le_bytes());
    assert_eq!(&bytes[21..], b"xy");
}

#[test]
fn reader_reads_and_stops_at_the_end() {
    let data = [1u8, 2, 0, 0, 0, 9, 8, 7];
    let mut r = ByteReader::new(&data);
    assert_eq!(r.remaining(), 8);
    assert_eq!(r.read_u8(), Some(1));
    assert_eq!(r.read_u32_le(), Some(2));
    assert_eq!(r.read_bytes(2), Some(&[9u8, 8][..]));
    assert_eq!(r.read_u32_le(), None);
    assert_eq!(r.remaining(), 1);
    assert_eq!(r.read_bytes(2), None);
    assert_eq!(r.read_bytes(0), Some(&[][..]));
    assert_eq!(r.read_u8(), Some(7));
    assert_eq!(r.read_u8(), None);
    assert_eq!(r.remaining(), 0);
}

#[test]
fn scalars_encode_to_exact_bytes() {
    let e = encode_value(&Value::Null).unwrap();
    assert_eq!((e.type_marker, e.payload), (constants::TYPE_NULL, vec![]));
    let e = encode_value(&Value::Bool(false)).unwrap();
    assert_eq!((e.type_marker, e.payload), (constants::TYPE_BOOL_FALSE, vec![]));
    let e = encode_value(&Value::Bool(true)).unwrap();
    assert_eq!((e.type_marker, e.payload), (constants::TYPE_BOOL_TRUE, vec![]));
    let e = encode_value(&Value::Int(-2)).unwrap();
    assert_eq!(e.type_marker, constants::TYPE_INT64);
    assert_eq!(e.payload, vec![0xFE, 0xFF, 0xFF, 0xFF, 0xFF, 0xFF, 0xFF, 0xFF]);
    let e = encode_value(&Value::Float(1.0f64.to_bits())).unwrap();
    assert_eq!(e.type_marker, constants::TYPE_F64);
    assert_eq!(e.payload, vec![0, 0, 0, 0, 0, 0, 0xF0, 0x3F]);
    let e = encode_value(&Value::String("hé".to_string())).unwrap();
    assert_eq!(e.type_marker, constants::TYPE_STRING);
    assert_eq!(e.payload, vec![b'h', 0xC3, 0xA9]);
    let mut id = [0u8; 16];
    for (i, b) in id.iter_mut().enumerate() {
        *b = i as u8 + 1;
    }
    let e = encode_value(&Value::Ref(TokenRef::strong(TokenId::from_bytes(id)))).unwrap();
    assert_eq!(e.type_marker, constants::TYPE_REF);
    assert_eq!(e.payload.len(), 17);
    assert_eq!(e.payload[0], 0);
    assert_eq!(&e.payload[1..], &id);
    let e = encode_value(&Value::Ref(TokenRef::weak(TokenId::from_bytes(id)))).unwrap();
    assert_eq!(e.payload[0], 1);
}

#[test]
fn composites_encode_to_exact_bytes() {
    let e = encode_value(&Value::Array(vec![Value::Bool(true), Value::String("a".to_string())]))
        .unwrap();
    assert_eq!(e.type_marker, constants::TYPE_ARRAY);
    assert_eq!(
        e.payload,
        vec![2, 0, 0, 0, 0x02, 0, 0, 0, 0, 0x20, 1, 0, 0, 0, b'a']
    );

    let mut map = ObjectMap::new();
    map.insert("k".to_string(), Value::Null);
    map.insert("ab".to_string(), Value::Bool(false));
    let e = encode_value(&Value::Object(map)).unwrap();
    assert_eq!(e.type_marker, constants::TYPE_OBJECT);
    assert_eq!(
        e.payload,
        vec![
            2, 0, 0, 0, // count
            1, 0, 0, 0, b'k', 0x00, 0, 0, 0, 0, // "k": null
            2, 0, 0, 0, b'a', b'b', 0x01, 0, 0, 0, 0, // "ab": false
        ]
    );

    let e = encode_value(&Value::Array(vec![])).unwrap();
    assert_eq!(e.payload, vec![0, 0, 0, 0]);
}

#[test]
fn decode_inverts_encode_on_a_nested_value() {
    let value = sample_tree();
    let encoded = encode_value(&value).unwrap();
    let decoded = decode_value(encoded.type_marker, &encoded.payload).unwrap();
    assert_eq!(decoded, value);
    let again = encode_value(&decoded).unwrap();
    assert_eq!(again.type_marker, encoded.type_marker);
    assert_eq!(again.payload, encoded.payload);
}

#[test]
fn floats_round_trip_by_bit_pattern() {
    for bits in [
        0u64,
        (-0.0f64).to_bits(),
        f64::NAN.to_bits(),
        f64::INFINITY.to_bits(),
        f64::MIN_POSITIVE.to_bits(),
        0x7ff8_0000_0000_0001,
    ] {
        let encoded = encode_value(&Value::Float(bits)).unwrap();
        assert_eq!(encoded.payload, bits.to_le_bytes());
        let decoded = decode_value(encoded.type_marker, &encoded.payload).unwrap();
        assert_eq!(decoded, Value::Float(bits));
    }
    assert_ne!(Value::Float(0.0f64.to_bits()), Value::Float((-0.0f64).to_bits()));
}

#[test]
fn decode_reports_each_malformation() {
    let cases: Vec<(u8, Vec<u8>, DeserializeError)> = vec![
        (constants::TYPE_NULL, vec![0], DeserializeError::InvalidLength),
        (constants::TYPE_BOOL_FALSE, vec![0], DeserializeError::InvalidLength),
        (constants::TYPE_BOOL_TRUE, vec![1], DeserializeError::InvalidLength),
        (constants::TYPE_INT64, vec![0; 7], DeserializeError::InvalidLength),
        (constants::TYPE_INT64, vec![0; 9], DeserializeError::InvalidLength),
        (constants::TYPE_F64, vec![], DeserializeError::InvalidLength),
        (constants::TYPE_STRING, vec![0xFF], DeserializeError::InvalidUtf8),
        (constants::TYPE_STRING, vec![0xC3], DeserializeError::InvalidUtf8),
        (constants::TYPE_REF, vec![0; 16], DeserializeError::InvalidLength),
        (constants::TYPE_REF, {
            let mut p = vec![0u8; 17];
            p[0] = 2;
            p
        }, DeserializeError::InvalidReferenceStrength),
        (constants::TYPE_ARRAY, vec![1, 0, 0], DeserializeError::Truncated),
        (constants::TYPE_ARRAY, vec![1, 0, 0, 0], DeserializeError::Truncated),
        (constants::TYPE_ARRAY, vec![1, 0, 0, 0, 0x00, 0, 0], DeserializeError::Truncated),
        (constants::TYPE_ARRAY, vec![1, 0, 0, 0, 0x20, 2, 0, 0, 0, b'a'], DeserializeError::Truncated),
        (constants::TYPE_ARRAY, vec![0, 0, 0, 0, 9], DeserializeError::TrailingBytes),
        (constants::TYPE_ARRAY, vec![1, 0, 0, 0, 0x00, 0, 0, 0, 0, 0], DeserializeError::TrailingBytes),
        (constants::TYPE_ARRAY, vec![1, 0, 0, 0, 0x99, 0, 0, 0, 0], DeserializeError::UnknownTypeMarker(0x99)),
        (constants::TYPE_ARRAY, vec![1, 0, 0, 0, 0x10, 1, 0, 0, 0, 5], DeserializeError::InvalidLength),
        (constants::TYPE_OBJECT, vec![], DeserializeError::Truncated),
        (constants::TYPE_OBJECT, vec![1, 0, 0, 0, 1, 0, 0], DeserializeError::Truncated),
        (constants::TYPE_OBJECT, vec![1, 0, 0, 0, 2, 0, 0, 0, b'k'], DeserializeError::Truncated),
        (constants::TYPE_OBJECT, vec![1, 0, 0, 0, 1, 0, 0, 0, 0xFF, 0, 0, 0, 0, 0], DeserializeError::InvalidUtf8),
        (constants::TYPE_OBJECT, vec![1, 0, 0, 0, 1, 0, 0, 0, b'k'], DeserializeError::Truncated),
        (constants::TYPE_OBJECT, vec![1, 0, 0, 0, 1, 0, 0, 0, b'k', 0, 0, 0], DeserializeError::Truncated),
        (constants::TYPE_OBJECT, vec![1, 0, 0, 0, 1, 0, 0, 0, b'k', 0x20, 1, 0, 0, 0], DeserializeError::Truncated),
        (constants::TYPE_OBJECT, vec![0, 0, 0, 0, 0], DeserializeError::TrailingBytes),
        (0x03, vec![], DeserializeError::UnknownTypeMarker(0x03)),
        (0xFF, vec![1, 2, 3], DeserializeError::UnknownTypeMarker(0xFF)),
    ];
    for (marker, payload, expected) in cases {
        assert_eq!(decode_value(marker, &payload).unwrap_err(), expected, "{marker:#x} {payload:?}");
    }
}

#[test]
fn utf8_is_checked_before_anything_after_the_key() {
    // The key is not UTF-8 and the value is cut short: the key is judged first.
    let payload = vec![1, 0, 0, 0, 1, 0, 0, 0, 0x80];
    assert_eq!(
        decode_value(constants::TYPE_OBJECT, &payload).unwrap_err(),
        DeserializeError::InvalidUtf8
    );
}

#[test]
fn later_entry_wins_on_a_repeated_key() {
    let payload = vec![
        2, 0, 0, 0, //
        1, 0, 0, 0, b'k', 0x01, 0, 0, 0, 0, //
        1, 0, 0, 0, b'k', 0x02, 0, 0, 0, 0, //
    ];
    let decoded = decode_value(constants::TYPE_OBJECT, &payload).unwrap();
    match &decoded {
        Value::Object(map) => {
            assert_eq!(map.len(), 1);
            assert_eq!(map.get("k"), Some(&Value::Bool(true)));
        }
        other => panic!("expected object, got {other:?}"),
    }
}

#[test]
fn string_token_has_the_exact_envelope() {
    let id = TokenId::from_bytes([1u8; 16]);
    let token = Token::new(id, Value::String("hi".to_string()), Metadata::new(5, 6));
    let bytes = Serializer::new().serialize(&token).unwrap();
    assert_eq!(bytes.len(), 28);
    assert_eq!(bytes[0], 1);
    assert_eq!(&bytes[1..17], &[1u8; 16]);
    assert_eq!(bytes[17], 0x20);
    assert_eq!(&bytes[18..22], &[2, 0, 0, 0]);
    assert_eq!(&bytes[22..24], b"hi");
    assert_eq!(&bytes[24..28], &crc32(&bytes[..24]).to_le_bytes());

    let empty = Token::new(id, Value::Null, Metadata::new(0, 0));
    assert_eq!(Serializer::default().serialize(&empty).unwrap().len(), 26);
}

#[test]
fn metadata_does_not_travel() {
    let id = TokenId::from_bytes([3u8; 16]);
    let token = Token::new(id, Value::Int(9), Metadata::new(77, 5));
    let bytes = Serializer::new().serialize(&token).unwrap();
    let back = Deserializer::new(&bytes).deserialize().unwrap();
    assert_eq!(*back.metadata(), Metadata::new(0, 0));
    assert_eq!(back.id(), id);
    assert_eq!(back.value(), &Value::Int(9));
}

#[test]
fn header_and_layout_judge_the_framing() {
    let id = TokenId::from_bytes([4u8; 16]);
    let token = Token::new(id, Value::String("abc".to_string()), Metadata::new(0, 0));
    let bytes = Serializer::new().serialize(&token).unwrap();

    let header = Deserializer::new(&bytes).header().unwrap();
    assert_eq!(header.version, 1);
    assert_eq!(header.id, [4u8; 16]);
    assert_eq!(header.type_marker, constants::TYPE_STRING);
    assert_eq!(header.payload_len, 3);

    assert_eq!(
        Deserializer::new(&bytes[..25]).header().unwrap_err(),
        DeserializeError::Truncated
    );
    assert_eq!(Deserializer::new(&[]).layout().unwrap_err(), DeserializeError::Truncated);

    let mut other_version = bytes.clone();
    other_version[0] = 2;
    assert!(Deserializer::new(&other_version).header().is_ok());
    assert_eq!(
        Deserializer::new(&other_version).layout().unwrap_err(),
        DeserializeError::UnsupportedVersion
    );
    assert_eq!(
        Deserializer::new(&other_version).deserialize().unwrap_err(),
        DeserializeError::UnsupportedVersion
    );

    let mut longer = bytes.clone();
    longer[18] = 4;
    assert_eq!(Deserializer::new(&longer).layout().unwrap_err(), DeserializeError::Truncated);

    let mut shorter = bytes.clone();
    shorter[18] = 2;
    assert_eq!(
        Deserializer::new(&shorter).layout().unwrap_err(),
        DeserializeError::TrailingBytes
    );

    let mut huge = bytes.clone();
    huge[18..22].copy_from_slice(&u32::MAX.to_le_bytes());
    assert_eq!(Deserializer::new(&huge).layout().unwrap_err(), DeserializeError::Truncated);

    let mut trailing = bytes.clone();
    trailing.push(0);
    assert_eq!(
        Deserializer::new(&trailing).deserialize().unwrap_err(),
        DeserializeError::TrailingBytes
    );

    let copy = Deserializer::new(&bytes).layout().unwrap();
    assert_eq!(copy.clone(), copy);
}

#[test]
fn serialized_tokens_pass_the_envelope_check() {
    let id = TokenId::from_bytes([8u8; 16]);
    for value in [Value::Null, Value::Int(1), Value::String("x".repeat(300)), sample_tree()] {
        let token = Token::new(id, value, Metadata::new(0, 0));
        let bytes = Serializer::new().serialize(&token).unwrap();
        assert_eq!(validate_token_bytes(&bytes), Ok(()));
    }
}

#[test]
fn envelope_check_reports_each_fault() {
    let id = TokenId::from_bytes([8u8; 16]);
    let token = Token::new(id, Value::Int(1), Metadata::new(0, 0));
    let bytes = Serializer::new().serialize(&token).unwrap();

    assert_eq!(
        validate_token_bytes(&bytes[..25]),
        Err(ToonError::Deserialization(DeserializeError::Truncated))
    );
    let mut longer = bytes.clone();
    longer[18] = 9;
    assert_eq!(
        validate_token_bytes(&longer),
        Err(ToonError::Deserialization(DeserializeError::Truncated))
    );
    let mut shorter = bytes.clone();
    shorter[18] = 7;
    assert_eq!(
        validate_token_bytes(&shorter),
        Err(ToonError::Deserialization(DeserializeError::TrailingBytes))
    );
    let mut flipped = bytes.clone();
    let last = flipped.len() - 1;
    flipped[last] ^= 1;
    let stored = u32::from_le_bytes(flipped[last - 3..].try_into().unwrap());
    assert_eq!(
        validate_token_bytes(&flipped),
        Err(ToonError::ChecksumMismatch {
            expected: crc32(&bytes[..last - 3]),
            actual: stored,
            offset: last - 3,
        })
    );
    // The envelope check does not look into the payload.
    let mut odd_marker = bytes.clone();
    odd_marker[17] = 0xEE;
    let sum = crc32(&odd_marker[..last - 3]).to_le_bytes();
    odd_marker[last - 3..].copy_from_slice(&sum);
    assert_eq!(validate_token_bytes(&odd_marker), Ok(()));
}

#[test]
fn no_single_byte_change_goes_unnoticed() {
    let id = TokenId::from_bytes([0x5A; 16]);
    let token = Token::new(id, sample_tree(), Metadata::new(0, 0));
    let good = Serializer::new().serialize(&token).unwrap();
    for at in 0..good.len() {
        for mask in [0x01u8, 0x80, 0xFF, 0x10] {
            let mut bad = good.clone();
            bad[at] ^= mask;
            match Deserializer::new(&bad).deserialize() {
                Err(_) => {}
                Ok(t) => assert!(t.id() != token.id() || t.value() != token.value(), "byte {at}"),
            }
            if at >= good.len() - 4 {
                assert_eq!(
                    Deserializer::new(&bad).deserialize().unwrap_err(),
                    DeserializeError::ChecksumMismatch
                );
            }
        }
    }
}

#[test]
fn arbitrary_bytes_never_panic() {
    let mut state: u32 = 0x1234_5678;
    for len in 0..200usize {
        let mut bytes = Vec::with_capacity(len);
        for _ in 0..len {
            state ^= state << 13;
            state ^= state >> 17;
            state ^= state << 5;
            bytes.push((state >> 8) as u8);
        }
        let _ = Deserializer::new(&bytes).deserialize();
        let _ = validate_token_bytes(&bytes);
        for marker in [0x00u8, 0x10, 0x20, 0x30, 0x31, 0x40] {
            let _ = decode_value(marker, &bytes);
        }
        if bytes.len() >= 26 {
            bytes[0] = 1;
            let room = (bytes.len() - 26) as u32;
            bytes[18..22].copy_from_slice(&room.to_le_bytes());
            let at = bytes.len() - 4;
            let sum = crc32(&bytes[..at]).to_le_bytes();
            bytes[at..].copy_from_slice(&sum);
            let _ = Deserializer::new(&bytes).deserialize();
        }
    }
}
