use toon_format::validation::constraints::{validate_value, Constraints};
use toon_format::validation::schema::{validate_schema, FieldSchemas, Schema};
use toon_format::{ConstraintKind, ObjectMap, TokenId, TokenRef, ToonError, Value};

fn nested(depth: usize) -> Value {
    let mut v = Value::Null;
    for _ in 0..depth {
        v = Value::Array(vec![v]);
    }
    v
}

fn object(entries: Vec<(&str, Value)>) -> Value {
    let mut map = ObjectMap::new();
    for (k, v) in entries {
        map.insert(k.to_string(), v);
    }
    Value::Object(map)
}

fn fields(entries: Vec<(&str, Schema)>) -> FieldSchemas {
    let mut out = FieldSchemas::new();
    for (k, s) in entries {
        out.insert(k.to_string(), s);
    }
    out
}

fn fault(value: &Value, schema: &Schema) -> (String, &'static str, &'static str) {
    match validate_schema(value, schema).unwrap_err() {
        ToonError::SchemaViolation { path, expected, actual } => (path, expected, actual),
        other => panic!("unexpected error: {other:?}"),
    }
}

#[test]
fn default_constraints_are_the_usual_caps() {
    let c = Constraints::default();
    assert_eq!(c.max_string_len, 1024 * 1024);
    assert_eq!(c.max_array_len, 1_000_000);
    assert_eq!(c.max_object_len, 1_000_000);
    assert_eq!(c.max_depth, 256);
}

#[test]
fn constraints_accept_what_is_within_the_caps() {
    let c = Constraints { max_string_len: 2, max_array_len: 2, max_object_len: 1, max_depth: 2 };
    assert_eq!(validate_value(&Value::String("é".to_string()), c), Ok(()));
    assert_eq!(validate_value(&nested(2), c), Ok(()));
    assert_eq!(validate_value(&object(vec![("a", Value::Array(vec![Value::Null, Value::Null]))]), c), Ok(()));
    assert_eq!(validate_value(&Value::Ref(TokenRef::new(TokenId::from_bytes([1; 16]))), c), Ok(()));
}

#[test]
fn constraints_report_the_first_violation() {
    let c = Constraints { max_string_len: 2, max_array_len: 2, max_object_len: 1, max_depth: 2 };
    assert_eq!(
        validate_value(&Value::String("éa".to_string()), c),
        Err(ToonError::ConstraintViolation { kind: ConstraintKind::StringLength, limit: 2, actual: 3 })
    );
    assert_eq!(
        validate_value(&Value::Array(vec![Value::Null, Value::Null, Value::Null]), c),
        Err(ToonError::ConstraintViolation { kind: ConstraintKind::ArrayLength, limit: 2, actual: 3 })
    );
    assert_eq!(
        validate_value(&object(vec![("a", Value::Null), ("b", Value::Null)]), c),
        Err(ToonError::ConstraintViolation { kind: ConstraintKind::ObjectLength, limit: 1, actual: 2 })
    );
    assert_eq!(
        validate_value(&nested(3), c),
        Err(ToonError::ConstraintViolation { kind: ConstraintKind::Depth, limit: 2, actual: 3 })
    );
    // The earlier of two violations is reported.
    let both = Value::Array(vec![Value::String("long".to_string()), nested(3)]);
    assert_eq!(
        validate_value(&both, c),
        Err(ToonError::ConstraintViolation { kind: ConstraintKind::StringLength, limit: 2, actual: 4 })
    );
    // A container is judged before what it holds.
    let wide = Value::Array(vec![Value::String("long".to_string()), Value::Null, Value::Null]);
    assert_eq!(
        validate_value(&wide, c),
        Err(ToonError::ConstraintViolation { kind: ConstraintKind::ArrayLength, limit: 2, actual: 3 })
    );
    let flat = Constraints { max_depth: 0, ..c };
    assert_eq!(validate_value(&Value::Int(1), flat), Ok(()));
    assert_eq!(validate_value(&Value::Array(vec![]), flat), Ok(()));
    assert_eq!(
        validate_value(&nested(1), flat),
        Err(ToonError::ConstraintViolation { kind: ConstraintKind::Depth, limit: 0, actual: 1 })
    );
}

#[test]
fn schema_accepts_matching_values() {
    let id = TokenId::from_bytes([1; 16]);
    assert_eq!(validate_schema(&Value::Int(1), &Schema::Any), Ok(()));
    assert_eq!(validate_schema(&Value::Null, &Schema::Null), Ok(()));
    assert_eq!(validate_schema(&Value::Bool(true), &Schema::Bool), Ok(()));
    assert_eq!(validate_schema(&Value::Int(1), &Schema::Int), Ok(()));
    assert_eq!(validate_schema(&Value::Float(0), &Schema::Float), Ok(()));
    assert_eq!(validate_schema(&Value::String(String::new()), &Schema::String), Ok(()));
    assert_eq!(validate_schema(&Value::Ref(TokenRef::new(id)), &Schema::Ref), Ok(()));
    assert_eq!(
        validate_schema(
            &Value::Array(vec![Value::Int(1), Value::Int(2)]),
            &Schema::Array(Box::new(Schema::Int))
        ),
        Ok(())
    );
    let schema = Schema::Object {
        fields: fields(vec![("a", Schema::Int), ("b", Schema::Array(Box::new(Schema::Any)))]),
        allow_extra: false,
    };
    let value = object(vec![("b", Value::Array(vec![Value::Null])), ("a", Value::Int(1))]);
    assert_eq!(validate_schema(&value, &schema), Ok(()));
    let open = Schema::Object { fields: fields(vec![("a", Schema::Int)]), allow_extra: true };
    assert_eq!(validate_schema(&value, &open), Ok(()));
}

#[test]
fn schema_names_every_kind() {
    let id = TokenId::from_bytes([1; 16]);
    let values = vec![
        (Value::Null, "null"),
        (Value::Bool(false), "bool"),
        (Value::Int(0), "int"),
        (Value::Float(0), "float"),
        (Value::String(String::new()), "string"),
        (Value::Array(vec![]), "array"),
        (object(vec![]), "object"),
        (Value::Ref(TokenRef::new(id)), "ref"),
    ];
    let schemas = vec![
        (Schema::Null, "null"),
        (Schema::Bool, "bool"),
        (Schema::Int, "int"),
        (Schema::Float, "float"),
        (Schema::String, "string"),
        (Schema::Array(Box::new(Schema::Any)), "array"),
        (Schema::Object { fields: FieldSchemas::new(), allow_extra: true }, "object"),
        (Schema::Ref, "ref"),
    ];
    for (value, actual) in &values {
        for (schema, expected) in &schemas {
            if actual == expected {
                assert_eq!(validate_schema(value, schema), Ok(()));
            } else {
                assert_eq!(fault(value, schema), ("$".to_string(), *expected, *actual));
            }
        }
    }
}

#[test]
fn schema_faults_carry_their_path() {
    let mut items = vec![Value::Int(0); 12];
    items[10] = Value::Null;
    assert_eq!(
        fault(&Value::Array(items), &Schema::Array(Box::new(Schema::Int))),
        ("$[10]".to_string(), "int", "null")
    );
    assert_eq!(
        fault(&Value::Array(vec![Value::Null]), &Schema::Array(Box::new(Schema::Int))),
        ("$[0]".to_string(), "int", "null")
    );
    let mut many = vec![Value::Int(0); 1235];
    many[1234] = Value::Bool(true);
    assert_eq!(
        fault(&Value::Array(many), &Schema::Array(Box::new(Schema::Int))),
        ("$[1234]".to_string(), "int", "bool")
    );

    let schema = Schema::Object {
        fields: fields(vec![(
            "user",
            Schema::Object {
                fields: fields(vec![("tags", Schema::Array(Box::new(Schema::String)))]),
                allow_extra: false,
            },
        )]),
        allow_extra: false,
    };
    let value = object(vec![(
        "user",
        object(vec![("tags", Value::Array(vec![Value::String("a".to_string()), Value::Int(1)]))]),
    )]);
    assert_eq!(fault(&value, &schema), ("$.user.tags[1]".to_string(), "string", "int"));

    let missing = object(vec![("user", object(vec![]))]);
    assert_eq!(fault(&missing, &schema), ("$.user.tags".to_string(), "present", "missing"));

    let extra = object(vec![
        ("user", object(vec![("tags", Value::Array(vec![]))])),
        ("more", Value::Null),
    ]);
    assert_eq!(fault(&extra, &schema), ("$.more".to_string(), "no extra fields", "extra field"));

    // A missing field is found before an extra one.
    let both = object(vec![("more", Value::Null)]);
    assert_eq!(fault(&both, &schema), ("$.user".to_string(), "present", "missing"));
}

#[test]
fn field_schemas_keep_one_schema_per_key() {
    let mut f = FieldSchemas::new();
    f.insert("a".to_string(), Schema::Int);
    f.insert("b".to_string(), Schema::Bool);
    f.insert("a".to_string(), Schema::String);
    assert_eq!(f.len(), 2);
    assert_eq!(f.position("a"), Some(0));
    assert_eq!(f.key_at(1), "b");
    assert!(f.contains_key("b"));
    assert!(!f.contains_key("c"));
    assert!(matches!(f.schema_at(0), Schema::String));
    let schema = Schema::Object { fields: f, allow_extra: true };
    assert_eq!(validate_schema(&object(vec![("a", Value::String(String::new())), ("b", Value::Bool(true))]), &schema), Ok(()));
}

#[test]
fn schema_equality_ignores_field_order() {
    let one = Schema::Object {
        fields: fields(vec![("a", Schema::Int), ("b", Schema::Array(Box::new(Schema::Ref)))]),
        allow_extra: false,
    };
    let other = Schema::Object {
        fields: fields(vec![("b", Schema::Array(Box::new(Schema::Ref))), ("a", Schema::Int)]),
        allow_extra: false,
    };
    assert_eq!(one, other);
    assert_eq!(one.clone(), one);
    let open = Schema::Object {
        fields: fields(vec![("a", Schema::Int), ("b", Schema::Array(Box::new(Schema::Ref)))]),
        allow_extra: true,
    };
    assert_ne!(one, open);
    let changed = Schema::Object {
        fields: fields(vec![("a", Schema::Int), ("b", Schema::Array(Box::new(Schema::Any)))]),
        allow_extra: false,
    };
    assert_ne!(one, changed);
    assert_ne!(Schema::Int, Schema::Float);
    assert_eq!(Schema::Array(Box::new(Schema::Null)), Schema::Array(Box::new(Schema::Null)));
}
