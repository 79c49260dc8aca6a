use toon_format::{
    ConstraintKind, DeserializeError, Metadata, ObjectMap, RegistryError, SerializeError, Token,
    TokenId, TokenRef, TokenRefStrength, ToonError, Value,
};

#[test]
fn token_id_bytes_and_number_agree() {
    let mut bytes = [0u8; 16];
    for (i, b) in bytes.iter_mut().enumerate() {
        *b = (i as u8) * 16 + 1;
    }
    let id = TokenId::from_bytes(bytes);
    assert_eq!(id.as_bytes(), bytes);
    assert_eq!(id.as_u128(), u128::from_be_bytes(bytes));
    assert_eq!(TokenId::from_u128(u128::from_be_bytes(bytes)), id);
    assert_eq!(TokenId::from_u128(1).as_bytes()[15], 1);
    assert_eq!(TokenId::from_u128(u128::MAX).as_bytes(), [0xFF; 16]);
    assert_eq!(TokenId::from_bytes([0; 16]).as_u128(), 0);
    assert_ne!(TokenId::from_bytes([1; 16]), TokenId::from_bytes([2; 16]));
}

#[test]
fn fresh_token_ids_are_version_four() {
    for _ in 0..32 {
        let bytes = TokenId::new().as_bytes();
        assert_eq!(bytes[6] >> 4, 4);
        assert_eq!(bytes[8] >> 6, 2);
    }
}

#[test]
fn token_ref_constructors_agree() {
    let id = TokenId::from_bytes([9u8; 16]);
    assert_eq!(TokenRef::new(id), TokenRef::strong(id));
    assert_eq!(TokenRef::with_strength(id, TokenRefStrength::Weak), TokenRef::weak(id));
    assert_ne!(TokenRef::strong(id), TokenRef::weak(id));
    assert_eq!(TokenRef::weak(id).id(), id);
}

#[test]
fn object_map_keeps_one_entry_per_key() {
    let mut map = ObjectMap::new();
    assert!(map.is_empty());
    map.insert("a".to_string(), Value::Int(1));
    map.insert("b".to_string(), Value::Int(2));
    map.insert("a".to_string(), Value::Int(3));
    assert_eq!(map.len(), 2);
    assert!(!map.is_empty());
    assert_eq!(map.get("a"), Some(&Value::Int(3)));
    assert_eq!(map.get("b"), Some(&Value::Int(2)));
    assert_eq!(map.get("c"), None);
    assert!(map.contains_key("b"));
    assert!(!map.contains_key(""));
    assert_eq!(map.position("a"), Some(0));
    assert_eq!(map.position("b"), Some(1));
    assert_eq!(map.key_at(0), "a");
    assert_eq!(map.value_at(1), &Value::Int(2));
}

#[test]
fn object_equality_ignores_entry_order() {
    let mut one = ObjectMap::new();
    one.insert("a".to_string(), Value::Int(1));
    one.insert("b".to_string(), Value::Array(vec![Value::Null]));
    let mut other = ObjectMap::new();
    other.insert("b".to_string(), Value::Array(vec![Value::Null]));
    other.insert("a".to_string(), Value::Int(1));
    assert_eq!(one, other);
    assert_eq!(Value::Object(one.clone()), Value::Object(other.clone()));

    other.insert("a".to_string(), Value::Int(2));
    assert_ne!(one, other);
    let mut bigger = one.clone();
    bigger.insert("c".to_string(), Value::Null);
    assert_ne!(one, bigger);
    assert_ne!(bigger, one);
}

#[test]
fn value_equality_is_structural() {
    assert_eq!(Value::Null, Value::Null);
    assert_ne!(Value::Null, Value::Bool(false));
    assert_ne!(Value::Int(1), Value::Float(1));
    assert_ne!(Value::String("a".to_string()), Value::String("b".to_string()));
    assert_eq!(Value::String("é".to_string()), Value::String("é".to_string()));
    assert_ne!(
        Value::Array(vec![Value::Int(1), Value::Int(2)]),
        Value::Array(vec![Value::Int(2), Value::Int(1)])
    );
    assert_ne!(Value::Array(vec![Value::Int(1)]), Value::Array(vec![]));
    let nested = Value::Array(vec![Value::Array(vec![Value::Bool(true)]), Value::Null]);
    assert_eq!(nested.clone(), nested);
    assert!(nested.same_as(&nested.deep_copy()));
}

#[test]
fn token_accessors_return_the_parts() {
    let id = TokenId::from_bytes([2u8; 16]);
    let token = Token::new(id, Value::Bool(true), Metadata::new(1, 2));
    assert_eq!(token.id(), id);
    assert_eq!(token.value(), &Value::Bool(true));
    assert_eq!(token.metadata(), &Metadata::new(1, 2));
    assert_eq!(token.clone(), token);
}

#[test]
fn errors_convert_into_the_unified_error() {
    let id = TokenId::from_bytes([6u8; 16]);
    assert_eq!(
        ToonError::from(SerializeError::LengthOverflow),
        ToonError::Serialization(SerializeError::LengthOverflow)
    );
    assert_eq!(
        ToonError::from(DeserializeError::UnknownTypeMarker(7)),
        ToonError::Deserialization(DeserializeError::UnknownTypeMarker(7))
    );
    assert_eq!(
        ToonError::from(RegistryError::NotFound(id)),
        ToonError::InvalidReference(id)
    );
    assert_eq!(
        ToonError::from(RegistryError::CircularReference(vec![id, id])),
        ToonError::CircularReference(vec![id, id])
    );
    assert_ne!(
        ToonError::ConstraintViolation { kind: ConstraintKind::Depth, limit: 1, actual: 2 },
        ToonError::ConstraintViolation { kind: ConstraintKind::ArrayLength, limit: 1, actual: 2 }
    );
}

#[test]
fn errors_say_what_went_wrong() {
    assert_eq!(SerializeError::LengthOverflow.message(), "payload length does not fit in u32");
    assert_eq!(DeserializeError::Truncated.message(), "input is truncated");
    assert_eq!(DeserializeError::UnsupportedVersion.message(), "unsupported format version");
    assert_eq!(DeserializeError::ChecksumMismatch.message(), "checksum mismatch");
    assert_eq!(DeserializeError::UnknownTypeMarker(9).message(), "unknown type marker");
    assert_eq!(DeserializeError::InvalidLength.message(), "invalid length for type");
    assert_eq!(DeserializeError::InvalidUtf8.message(), "invalid utf-8");
    assert_eq!(DeserializeError::TrailingBytes.message(), "trailing bytes in payload");
    assert_eq!(
        DeserializeError::InvalidReferenceStrength.message(),
        "invalid reference strength"
    );
    let id = TokenId::from_bytes([1; 16]);
    assert_eq!(RegistryError::NotFound(id).message(), "token not found");
    assert_eq!(
        RegistryError::CircularReference(vec![id, id]).message(),
        "circular reference detected"
    );
    assert_eq!(ToonError::InvalidReference(id).message(), "invalid reference");
    assert_eq!(
        ToonError::InvalidFormat { version: 2, expected: 1 }.message(),
        "invalid format version"
    );
    assert_eq!(
        ToonError::Serialization(SerializeError::LengthOverflow).message(),
        "serialization error"
    );
}

#[test]
fn object_map_from_entries_sets_keys_in_turn() {
    let map = ObjectMap::from_entries(vec![
        ("a".to_string(), Value::Int(1)),
        ("b".to_string(), Value::Int(2)),
        ("a".to_string(), Value::Int(3)),
        ("c".to_string(), Value::Null),
    ]);
    assert_eq!(map.len(), 3);
    assert_eq!(map.key_at(0), "a");
    assert_eq!(map.key_at(1), "b");
    assert_eq!(map.key_at(2), "c");
    assert_eq!(map.get("a"), Some(&Value::Int(3)));
    assert!(ObjectMap::from_entries(vec![]).is_empty());
}
