use bytes::Bytes;
use chrono::DateTime;
use relish::{
    alike_values, collect_float_leaves, from_bytes, key_among, parse, relish2ascii, to_ascii,
    to_vec, type_suffix, Float32, Float64, FloatLeaf, ParseError, ParseErrorKind, Timestamp,
    TypeId, Value,
};
use std::collections::HashMap;

fn decode(bytes: &[u8]) -> Result<Value, ParseError> {
    from_bytes(Bytes::from(bytes.to_vec()))
}

fn failure(kind: ParseErrorKind) -> Result<Value, ParseError> {
    Err(ParseError::new(kind))
}

fn float_text(leaf: FloatLeaf) -> String {
    match leaf {
        FloatLeaf::Single(f) => format!("{}", f32::from_bits(f.to_bits())),
        FloatLeaf::Double(f) => format!("{}", f64::from_bits(f.to_bits())),
    }
}

#[test]
fn decodes_every_scalar() {
    assert_eq!(decode(&[0x02, 0x07]), Ok(Value::U8(7)));
    assert_eq!(decode(&[0x03, 0x34, 0x12]), Ok(Value::U16(0x1234)));
    assert_eq!(
        decode(&[0x05, 1, 0, 0, 0, 0, 0, 0, 0]),
        Ok(Value::U64(1))
    );
    assert_eq!(decode(&[0x06; 17][..]).is_ok(), true);
    assert_eq!(decode(&[0x07, 0xFF]), Ok(Value::I8(-1)));
    assert_eq!(decode(&[0x08, 0xFE, 0xFF]), Ok(Value::I16(-2)));
    assert_eq!(
        decode(&[0x09, 0xD6, 0xFF, 0xFF, 0xFF]),
        Ok(Value::I32(-42))
    );
    assert_eq!(
        decode(&[0x0A, 0, 0, 0, 0, 0, 0, 0, 0x80]),
        Ok(Value::I64(i64::MIN))
    );
    assert_eq!(
        decode(&[0x0B, 0xFF, 0xFF, 0xFF, 0xFF, 0xFF, 0xFF, 0xFF, 0xFF, 0xFF, 0xFF, 0xFF, 0xFF, 0xFF, 0xFF, 0xFF, 0xFF]),
        Ok(Value::I128(-1))
    );
    assert_eq!(
        decode(&[0x0C, 0xdb, 0x0F, 0x49, 0x40]),
        Ok(Value::F32(Float32::from_bits(std::f32::consts::PI.to_bits())))
    );
    assert_eq!(
        decode(&[0x13, 0xD2, 0x02, 0x96, 0x49, 0x00, 0x00, 0x00, 0x00]),
        Ok(Value::Timestamp(1234567890))
    );
    assert_eq!(
        decode(&[0x13, 0xFF, 0xFF, 0xFF, 0xFF, 0xFF, 0xFF, 0xFF, 0xFF]),
        Ok(Value::Timestamp(u64::MAX))
    );
}

#[test]
fn decodes_containers() {
    assert_eq!(
        decode(&[0x10, 0x14, 0x0E, 0x04, 0x06, b'k', b'e', b'y', 0x2A, 0x00, 0x00, 0x00]),
        Ok(Value::Dict {
            key_type: TypeId::String,
            value_type: TypeId::U32,
            entries: vec![(Value::String("key".to_string()), Value::U32(42))],
        })
    );
    assert_eq!(
        decode(&[0x12, 0x0C, 0x05, 0x04, 0x2A, 0x00, 0x00, 0x00]),
        Ok(Value::Enum {
            variant_id: 5,
            value: Box::new(Value::U32(42)),
        })
    );
    assert_eq!(
        decode(&[0x0F, 0x0C, 0x0F, 0x04, 0x02, 0x01, 0x02, 0x02]),
        Ok(Value::Array {
            element_type: TypeId::Array,
            elements: vec![
                Value::Array {
                    element_type: TypeId::U8,
                    elements: vec![Value::U8(1)],
                },
                Value::Array {
                    element_type: TypeId::U8,
                    elements: vec![],
                },
            ],
        })
    );
    assert_eq!(
        decode(&[0x11, 0x00]),
        Ok(Value::Struct { fields: vec![] })
    );
}

#[test]
fn schema_less_decoder_keeps_disorder_of_fields() {
    assert_eq!(
        decode(&[0x11, 0x0C, 0x05, 0x01, 0xFF, 0x02, 0x01, 0x00]),
        Ok(Value::Struct {
            fields: vec![(5, Value::Bool(true)), (2, Value::Bool(false))],
        })
    );
}

#[test]
fn schema_less_decoder_refuses_duplicate_keys() {
    assert_eq!(
        decode(&[0x10, 0x0C, 0x02, 0x02, 0x01, 0x0A, 0x01, 0x0B]),
        failure(ParseErrorKind::DuplicateMapKey)
    );
    assert_eq!(
        decode(&[
            0x10, 0x24, 0x04, 0x04, 0x01, 0x00, 0x00, 0x00, 0x0A, 0x00, 0x00, 0x00, 0x01, 0x00,
            0x00, 0x00, 0x14, 0x00, 0x00, 0x00,
        ]),
        failure(ParseErrorKind::DuplicateMapKey)
    );
    assert_eq!(
        decode(&[0x10, 0x14, 0x02, 0x02, 0x01, 0x0A, 0x02, 0x0B, 0x03, 0x0C, 0x02, 0x0D]),
        failure(ParseErrorKind::DuplicateMapKey)
    );
    assert_eq!(
        decode(&[0x10, 0x10, 0x02, 0x02, 0x01, 0x0A, 0x02, 0x0A, 0x03, 0x0A]),
        Ok(Value::Dict {
            key_type: TypeId::U8,
            value_type: TypeId::U8,
            entries: vec![
                (Value::U8(1), Value::U8(10)),
                (Value::U8(2), Value::U8(10)),
                (Value::U8(3), Value::U8(10)),
            ],
        })
    );
}

#[test]
fn duplicate_keys_are_told_by_what_they_decode_to() {
    assert_eq!(
        decode(&[0x10, 0x10, 0x0E, 0x02, 0x02, b'a', 0x01, 0x02, b'a', 0x02]),
        failure(ParseErrorKind::DuplicateMapKey)
    );
    assert_eq!(
        decode(&[
            0x10, 0x16, 0x0E, 0x02, 0x02, b'a', 0x01, 0x03, 0x00, 0x00, 0x00, b'a', 0x02,
        ]),
        failure(ParseErrorKind::DuplicateMapKey)
    );
    assert_eq!(
        decode(&[0x10, 0x08, 0x00, 0x02, 0x01, 0x02]),
        failure(ParseErrorKind::DuplicateMapKey)
    );
    assert_eq!(
        decode(&[0x10, 0x0C, 0x02, 0x01, 0x01, 0xFF, 0x01, 0x05]),
        failure(ParseErrorKind::InvalidBoolValue(5))
    );
    assert_eq!(
        relish2ascii(&[0x10, 0x0C, 0x02, 0x02, 0x01, 0x0A, 0x01, 0x0B], float_text),
        Err(ParseError::new(ParseErrorKind::DuplicateMapKey))
    );
}

#[test]
fn likeness_of_trees() {
    let text = |s: &str| Value::String(s.to_string());
    let array = |elements: Vec<Value>| Value::Array {
        element_type: TypeId::String,
        elements,
    };
    assert!(alike_values(&Value::Null, &Value::Null));
    assert!(alike_values(&Value::U8(3), &Value::U8(3)));
    assert!(!alike_values(&Value::U8(3), &Value::U8(4)));
    assert!(!alike_values(&Value::U8(3), &Value::U16(3)));
    assert!(!alike_values(&Value::U64(3), &Value::Timestamp(3)));
    assert!(alike_values(
        &Value::F64(Float64::from_bits(0x7FF8_0000_0000_0001)),
        &Value::F64(Float64::from_bits(0x7FF8_0000_0000_0001))
    ));
    assert!(!alike_values(
        &Value::F64(Float64::from_bits(0)),
        &Value::F64(Float64::from_bits(1 << 63))
    ));
    assert!(alike_values(&text("ab"), &text("ab")));
    assert!(!alike_values(&text("ab"), &text("ac")));
    assert!(alike_values(
        &array(vec![text("a"), text("b")]),
        &array(vec![text("a"), text("b")])
    ));
    assert!(!alike_values(
        &array(vec![text("a"), text("b")]),
        &array(vec![text("a")])
    ));
    assert!(!alike_values(
        &array(vec![text("a"), text("b")]),
        &array(vec![text("a"), text("c")])
    ));
    assert!(!alike_values(
        &array(vec![]),
        &Value::Array {
            element_type: TypeId::U8,
            elements: vec![]
        }
    ));
    let nested = |id: u8, n: u8| Value::Struct {
        fields: vec![(
            id,
            Value::Enum {
                variant_id: 2,
                value: Box::new(Value::Dict {
                    key_type: TypeId::U8,
                    value_type: TypeId::Bool,
                    entries: vec![(Value::U8(n), Value::Bool(true))],
                }),
            },
        )],
    };
    assert!(alike_values(&nested(1, 7), &nested(1, 7)));
    assert!(!alike_values(&nested(1, 7), &nested(2, 7)));
    assert!(!alike_values(&nested(1, 7), &nested(1, 8)));
    assert_eq!(alike_values(&nested(1, 7), &nested(1, 7)), nested(1, 7) == nested(1, 7));

    let entries = vec![(Value::U8(1), Value::Null), (text("k"), Value::Null)];
    assert!(key_among(&entries, &Value::U8(1)));
    assert!(key_among(&entries, &text("k")));
    assert!(!key_among(&entries, &Value::U8(2)));
    assert!(!key_among(&entries, &Value::Null));
    assert!(!key_among(&vec![], &Value::Null));
}

#[test]
fn decoder_errors() {
    assert_eq!(decode(&[]), failure(ParseErrorKind::InsufficientData { needed: 1, available: 0 }));
    assert_eq!(decode(&[0x80]), failure(ParseErrorKind::InvalidTypeId(0x80)));
    assert_eq!(decode(&[0x14]), failure(ParseErrorKind::InvalidTypeId(0x14)));
    assert_eq!(
        decode(&[0x04, 0x2A, 0x00]),
        failure(ParseErrorKind::InsufficientData { needed: 4, available: 2 })
    );
    assert_eq!(decode(&[0x01, 0x02]), failure(ParseErrorKind::InvalidBoolValue(2)));
    assert_eq!(decode(&[0x0E, 0x02, 0xFF]), failure(ParseErrorKind::InvalidUtf8));
    assert_eq!(
        decode(&[0x00, 0x00]),
        failure(ParseErrorKind::ExtraData { bytes_remaining: 1 })
    );
    assert_eq!(
        decode(&[0x0F, 0x02, 0x99]),
        failure(ParseErrorKind::InvalidTypeId(0x99))
    );
    assert_eq!(
        decode(&[0x0F, 0x04, 0x00, 0x01]),
        failure(ParseErrorKind::ExtraData { bytes_remaining: 1 })
    );
    assert_eq!(
        decode(&[0x10, 0x02, 0x02]),
        failure(ParseErrorKind::InsufficientData { needed: 1, available: 0 })
    );
    assert_eq!(
        decode(&[0x10, 0x06, 0x02, 0x02, 0x01]),
        failure(ParseErrorKind::InsufficientData { needed: 1, available: 0 })
    );
    assert_eq!(
        decode(&[0x10, 0x06, 0x00, 0x00, 0x01]),
        failure(ParseErrorKind::ExtraData { bytes_remaining: 1 })
    );
    assert_eq!(
        decode(&[0x11, 0x06, 0x80, 0x01, 0xFF]),
        failure(ParseErrorKind::InvalidFieldId(0x80))
    );
    assert_eq!(
        decode(&[0x12, 0x06, 0x80, 0x01, 0xFF]),
        failure(ParseErrorKind::InvalidFieldId(0x80))
    );
    assert_eq!(
        decode(&[0x12, 0x08, 0x00, 0x01, 0xFF, 0x00]),
        failure(ParseErrorKind::ExtraData { bytes_remaining: 1 })
    );
    assert_eq!(
        decode(&[0x12, 0x02, 0x00]),
        failure(ParseErrorKind::InsufficientData { needed: 1, available: 0 })
    );
}

#[test]
fn suffixes() {
    assert_eq!(type_suffix(TypeId::U8), "u8");
    assert_eq!(type_suffix(TypeId::I128), "i128");
    assert_eq!(type_suffix(TypeId::F32), "f32");
    assert_eq!(type_suffix(TypeId::F64), "f64");
    assert_eq!(type_suffix(TypeId::Null), "null");
    assert_eq!(type_suffix(TypeId::Bool), "bool");
    assert_eq!(type_suffix(TypeId::String), "string");
    assert_eq!(type_suffix(TypeId::Array), "array");
    assert_eq!(type_suffix(TypeId::Dict), "map");
    assert_eq!(type_suffix(TypeId::Struct), "struct");
    assert_eq!(type_suffix(TypeId::Enum), "enum");
    assert_eq!(type_suffix(TypeId::Timestamp), "timestamp");
}

#[test]
fn renders_numbers() {
    assert_eq!(to_ascii(&Value::U8(0), &[]), "0u8");
    assert_eq!(to_ascii(&Value::U16(65535), &[]), "65535u16");
    assert_eq!(
        to_ascii(&Value::U128(u128::MAX), &[]),
        "340282366920938463463374607431768211455u128"
    );
    assert_eq!(to_ascii(&Value::I8(-128), &[]), "-128i8");
    assert_eq!(to_ascii(&Value::I16(-1), &[]), "-1i16");
    assert_eq!(to_ascii(&Value::I64(10), &[]), "10i64");
    assert_eq!(
        to_ascii(&Value::I128(i128::MIN), &[]),
        "-170141183460469231731687303715884105728i128"
    );
    assert_eq!(to_ascii(&Value::Timestamp(1234567890), &[]), "timestamp(1234567890)");
}

#[test]
fn renders_string_escapes() {
    let text = "q\"b\\n\nr\rt\tc\u{1}d\u{7f}é\u{1f}";
    assert_eq!(
        to_ascii(&Value::String(text.to_string()), &[]),
        "\"q\\\"b\\\\n\\nr\\rt\\tc\\x01d\\x7fé\\x1f\""
    );
    assert_eq!(to_ascii(&Value::String(String::new()), &[]), "\"\"");
}

#[test]
fn renders_empty_containers_on_one_line() {
    assert_eq!(
        to_ascii(
            &Value::Array {
                element_type: TypeId::U32,
                elements: vec![]
            },
            &[]
        ),
        "array<u32> {}"
    );
    assert_eq!(
        to_ascii(
            &Value::Dict {
                key_type: TypeId::String,
                value_type: TypeId::U32,
                entries: vec![]
            },
            &[]
        ),
        "map<string, u32> {}"
    );
    assert_eq!(to_ascii(&Value::Struct { fields: vec![] }, &[]), "struct {}");
}

#[test]
fn renders_nested_containers_with_indentation() {
    let value = Value::Struct {
        fields: vec![
            (
                1,
                Value::Dict {
                    key_type: TypeId::U8,
                    value_type: TypeId::Array,
                    entries: vec![(
                        Value::U8(3),
                        Value::Array {
                            element_type: TypeId::Bool,
                            elements: vec![Value::Bool(true), Value::Null],
                        },
                    )],
                },
            ),
            (
                2,
                Value::Enum {
                    variant_id: 9,
                    value: Box::new(Value::Struct { fields: vec![] }),
                },
            ),
        ],
    };
    let expected = "struct {\n  1: map<u8, array> {\n    3u8: array<bool> {\n      true,\n      null,\n    },\n  },\n  2: enum {\n    9: struct {},\n  },\n}";
    assert_eq!(to_ascii(&value, &[]), expected);
}

#[test]
fn renders_floats_from_the_texts_handed_in() {
    let value = Value::Array {
        element_type: TypeId::F64,
        elements: vec![
            Value::F64(Float64::from_bits((-3.5f64).to_bits())),
            Value::F32(Float32::from_bits(1.0f32.to_bits())),
            Value::Dict {
                key_type: TypeId::F32,
                value_type: TypeId::F64,
                entries: vec![(
                    Value::F32(Float32::from_bits(0.25f32.to_bits())),
                    Value::F64(Float64::from_bits(f64::NEG_INFINITY.to_bits())),
                )],
            },
            Value::F64(Float64::from_bits(2.0f64.to_bits())),
        ],
    };
    let leaves = collect_float_leaves(&value);
    assert_eq!(
        leaves,
        vec![
            FloatLeaf::Double(Float64::from_bits((-3.5f64).to_bits())),
            FloatLeaf::Single(Float32::from_bits(1.0f32.to_bits())),
            FloatLeaf::Single(Float32::from_bits(0.25f32.to_bits())),
            FloatLeaf::Double(Float64::from_bits(f64::NEG_INFINITY.to_bits())),
            FloatLeaf::Double(Float64::from_bits(2.0f64.to_bits())),
        ]
    );
    let texts: Vec<String> = leaves.iter().map(|leaf| float_text(*leaf)).collect();
    assert_eq!(
        to_ascii(&value, &texts),
        "array<f64> {\n  -3.5f64,\n  1f32,\n  map<f32, f64> {\n    0.25f32: -inff64,\n  },\n  2f64,\n}"
    );
    assert_eq!(
        to_ascii(&value, &texts[..2]),
        "array<f64> {\n  -3.5f64,\n  1f32,\n  map<f32, f64> {\n    f32: f64,\n  },\n  f64,\n}"
    );
    assert_eq!(collect_float_leaves(&Value::U8(1)), vec![]);
}

#[test]
fn bytes_to_text_in_one_step() {
    assert_eq!(
        relish2ascii(&[0x0D, 0x00, 0x00, 0x00, 0x00, 0x00, 0x00, 0x0C, 0xC0], float_text),
        Ok("-3.5f64".to_string())
    );
    assert_eq!(
        relish2ascii(&[0x0F, 0x0A, 0x0C, 0x00, 0x00, 0x80, 0x3F], float_text),
        Ok("array<f32> {\n  1f32,\n}".to_string())
    );
    assert_eq!(
        relish2ascii(&[0x04, 0x2A], float_text),
        Err(ParseError::new(ParseErrorKind::InsufficientData {
            needed: 4,
            available: 1
        }))
    );
    assert_eq!(
        relish2ascii(&[0x04, 0x2A, 0x00, 0x00, 0x00, 0x01], float_text),
        Err(ParseError::new(ParseErrorKind::ExtraData {
            bytes_remaining: 1
        }))
    );
}

#[test]
fn dictionaries_round_trip() {
    let mut map: HashMap<String, u32> = HashMap::new();
    map.insert("key".to_string(), 42);
    let bytes = to_vec(&map).unwrap();
    assert_eq!(
        bytes,
        vec![0x10, 0x14, 0x0E, 0x04, 0x06, b'k', b'e', b'y', 0x2A, 0x00, 0x00, 0x00]
    );
    assert_eq!(parse::<HashMap<String, u32>>(Bytes::from(bytes)), Ok(map));

    let mut many: HashMap<u16, Vec<u8>> = HashMap::new();
    for key in 0..50u16 {
        many.insert(key, vec![key as u8; (key % 5) as usize]);
    }
    let bytes = to_vec(&many).unwrap();
    assert_eq!(relish::Relish::value_length(&many) + 1, bytes.len());
    assert_eq!(parse::<HashMap<u16, Vec<u8>>>(Bytes::from(bytes)), Ok(many));
}

#[test]
fn dictionary_errors() {
    assert_eq!(
        parse::<HashMap<u8, u8>>(Bytes::from(vec![0x10, 0x0C, 0x02, 0x02, 0x01, 0x0A, 0x01, 0x0B])),
        Err(ParseError::new(ParseErrorKind::DuplicateMapKey))
    );
    assert_eq!(
        parse::<HashMap<u8, u8>>(Bytes::from(vec![0x10, 0x04, 0x03, 0x02])),
        Err(ParseError::new(ParseErrorKind::TypeMismatch {
            expected: 0x02,
            actual: 0x03
        }))
    );
    assert_eq!(
        parse::<HashMap<u8, u8>>(Bytes::from(vec![0x10, 0x04, 0x02, 0x03])),
        Err(ParseError::new(ParseErrorKind::TypeMismatch {
            expected: 0x02,
            actual: 0x03
        }))
    );
    assert_eq!(
        parse::<HashMap<u8, u8>>(Bytes::from(vec![0x10, 0x06, 0x02, 0x02, 0x01])),
        Err(ParseError::new(ParseErrorKind::InsufficientData {
            needed: 1,
            available: 0
        }))
    );
    assert_eq!(
        parse::<HashMap<u8, bool>>(Bytes::from(vec![0x10, 0x08, 0x02, 0x01, 0x01, 0x05])),
        Err(ParseError::new(ParseErrorKind::InvalidBoolValue(5)))
    );
}

#[test]
fn timestamps_and_the_calendar() {
    assert_eq!(Timestamp::from_secs(0).map(|t| t.secs()), Some(0));
    assert_eq!(Timestamp::from_secs(-5).map(|t| t.secs()), Some(-5));
    assert_eq!(Timestamp::from_secs(i64::MAX), None);
    assert_eq!(Timestamp::from_secs(i64::MIN), None);
    assert_eq!(
        Timestamp::from_secs(1234567890).is_some(),
        DateTime::from_timestamp(1234567890, 0).is_some()
    );
    assert_eq!(
        Timestamp::from_wire(7, true).map(|t| t.secs()),
        Ok(7)
    );
    assert_eq!(
        Timestamp::from_wire(7, false),
        Err(ParseError::new(ParseErrorKind::InvalidTimestamp(7)))
    );
    assert_eq!(
        Timestamp::from_wire(u64::MAX, true),
        Err(ParseError::new(ParseErrorKind::InvalidTimestamp(u64::MAX)))
    );
    let far = (i64::MAX as u64).to_le_bytes();
    let mut bytes = vec![0x13];
    bytes.extend_from_slice(&far);
    assert_eq!(
        parse::<Timestamp>(Bytes::from(bytes)),
        Err(ParseError::new(ParseErrorKind::InvalidTimestamp(
            i64::MAX as u64
        )))
    );
}

#[test]
fn clones_are_equal() {
    let value = Value::Struct {
        fields: vec![
            (
                1,
                Value::Array {
                    element_type: TypeId::String,
                    elements: vec![Value::String("a".to_string()), Value::String("b".to_string())],
                },
            ),
            (
                2,
                Value::Dict {
                    key_type: TypeId::U8,
                    value_type: TypeId::Enum,
                    entries: vec![(
                        Value::U8(1),
                        Value::Enum {
                            variant_id: 3,
                            value: Box::new(Value::F64(Float64::from_bits(7))),
                        },
                    )],
                },
            ),
        ],
    };
    assert_eq!(value.clone(), value);
    assert_eq!(Value::Null.clone(), Value::Null);
    assert_ne!(value.clone(), Value::Struct { fields: vec![] });
}
