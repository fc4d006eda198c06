use bytes::Bytes;
use chrono::DateTime;
use relish::{
    parse, read_tagged_varint_length, tagged_varint_length_size, to_vec,
    write_tagged_varint_length, BytesRef, FieldValue, Float32, Null, ParseError, ParseErrorKind,
    ParseResult, Relish, Timestamp, TypeId, WriteErrorKind,
};
use std::collections::HashMap;
use std::sync::Arc;

fn assert_roundtrips<T: Relish + PartialEq + std::fmt::Debug>(cases: &[(ParseResult<T>, &[u8])]) {
    for (expected, bytes) in cases {
        let parse_result = parse::<T>(Bytes::from(bytes.to_vec()));
        assert_eq!(expected, &parse_result);
        if let Ok(val) = expected {
            assert_eq!(to_vec(val).as_deref(), Ok(*bytes));
        }
    }
}

#[test]
fn test_type_id_from_byte() {
    assert_eq!(TypeId::from_byte(0x00), Some(TypeId::Null));
    assert_eq!(TypeId::from_byte(0x01), Some(TypeId::Bool));
    assert_eq!(TypeId::from_byte(0x0E), Some(TypeId::String));
    assert_eq!(TypeId::from_byte(0x12), Some(TypeId::Enum));
    assert_eq!(TypeId::from_byte(0x13), Some(TypeId::Timestamp));
    assert_eq!(TypeId::from_byte(0x80), None);
    assert_eq!(TypeId::from_byte(0xFF), None);
    assert_eq!(TypeId::from_byte(0x14), None);
}

#[test]
fn test_tagged_varint_roundtrip() {
    for length in 0..=u16::MAX as usize {
        let mut buffer = Vec::new();
        write_tagged_varint_length(&mut buffer, length).unwrap();

        let expected_size = tagged_varint_length_size(length);
        assert_eq!(buffer.len(), expected_size);

        let bytes = Bytes::from(buffer);
        let mut bytes_ref = BytesRef::new(&bytes);
        let decoded = read_tagged_varint_length(&mut bytes_ref).unwrap();
        assert_eq!(decoded as usize, length);
        assert!(bytes_ref.is_empty());
    }
}

#[test]
fn test_extra_data() {
    let data = &[0x04u8, 0x2A, 0x00, 0x00, 0x00, 0xFF, 0xEE];
    let result = parse::<u32>(Bytes::from(data.to_vec()));
    assert_eq!(
        result,
        Err(ParseError::new(ParseErrorKind::ExtraData {
            bytes_remaining: 2
        }))
    );
}

#[test]
fn test_field_value_trait() {
    let value: u32 = 42;
    assert_eq!(value.as_relish(), Some(&42));
    let result: u32 = FieldValue::from_option(Some(42)).unwrap();
    assert_eq!(result, 42);

    let opt_value: Option<u32> = Some(42);
    assert_eq!(opt_value.as_relish(), Some(&42));
    let result: Option<u32> = FieldValue::from_option(Some(42)).unwrap();
    assert_eq!(result, Some(42));

    let none_value: Option<u32> = None;
    assert_eq!(none_value.as_relish(), None);
    let result: Option<u32> = FieldValue::from_option(None).unwrap();
    assert_eq!(result, None);
}

#[test]
fn test_null() {
    assert_roundtrips(&[(Ok(Null), &[0x00u8])]);
}

#[test]
fn test_bool() {
    assert_roundtrips(&[
        (Ok(true), &[0x01u8, 0xFF]),
        (Ok(false), &[0x01, 0x00]),
        (
            Err(ParseError::new(ParseErrorKind::InvalidBoolValue(0x42))),
            &[0x01, 0x42],
        ),
        (
            Err(ParseError::new(ParseErrorKind::TypeMismatch {
                expected: 0x01,
                actual: 0x04,
            })),
            &[0x04, 0x2A, 0x00, 0x00, 0x00],
        ),
        (
            Err(ParseError::new(ParseErrorKind::InsufficientData {
                needed: 1,
                available: 0,
            })),
            &[0x01],
        ),
    ]);
}

#[test]
fn test_integers_u8() {
    assert_roundtrips(&[
        (Ok(42u8), &[0x02u8, 0x2A]),
        (Ok(255u8), &[0x02, 0xFF]),
        (
            Err(ParseError::new(ParseErrorKind::InsufficientData {
                needed: 1,
                available: 0,
            })),
            &[0x02],
        ),
        (
            Err(ParseError::new(ParseErrorKind::InvalidTypeId(0x80))),
            &[0x80],
        ),
    ]);
}

#[test]
fn test_integers_u32() {
    assert_roundtrips(&[
        (Ok(42u32), &[0x04u8, 0x2A, 0x00, 0x00, 0x00]),
        (
            Err(ParseError::new(ParseErrorKind::InsufficientData {
                needed: 4,
                available: 1,
            })),
            &[0x04, 0x2A],
        ),
    ]);
}

#[test]
fn test_integers_i32() {
    assert_roundtrips(&[(Ok(-42i32), &[0x09u8, 0xD6, 0xFF, 0xFF, 0xFF])]);
}

#[test]
fn test_integers_u128() {
    assert_roundtrips(&[(
        Ok(u128::MAX),
        &[
            0x06u8, 0xFF, 0xFF, 0xFF, 0xFF, 0xFF, 0xFF, 0xFF, 0xFF, 0xFF, 0xFF, 0xFF, 0xFF, 0xFF,
            0xFF, 0xFF, 0xFF,
        ],
    )]);
}

#[test]
fn test_integers_i64() {
    assert_roundtrips(&[(
        Ok(-1234567890i64),
        &[0x0Au8, 0x2E, 0xFD, 0x69, 0xB6, 0xFF, 0xFF, 0xFF, 0xFF],
    )]);
}

#[test]
fn test_floats() {
    assert_roundtrips(&[(
        Ok(Float32::from_bits(std::f32::consts::PI.to_bits())),
        &[0x0Cu8, 0xdb, 0x0F, 0x49, 0x40],
    )]);
}

#[test]
fn test_string() {
    assert_roundtrips(&[
        (
            Ok("Hello, Relish!".to_string()),
            &[
                0x0Eu8, 0x1C, b'H', b'e', b'l', b'l', b'o', b',', b' ', b'R', b'e', b'l', b'i',
                b's', b'h', b'!',
            ],
        ),
        (
            Err(ParseError::new(ParseErrorKind::InvalidUtf8)),
            &[0x0E, 0x08, 0xFF, 0xFE, 0xFD, 0xFC],
        ),
    ]);
}

#[test]
fn test_arc_str() {
    assert_roundtrips(&[
        (
            Ok(Arc::<str>::from("Hello, Relish!")),
            &[
                0x0Eu8, 0x1C, b'H', b'e', b'l', b'l', b'o', b',', b' ', b'R', b'e', b'l', b'i',
                b's', b'h', b'!',
            ],
        ),
        (
            Err(ParseError::new(ParseErrorKind::InvalidUtf8)),
            &[0x0E, 0x08, 0xFF, 0xFE, 0xFD, 0xFC],
        ),
    ]);

    let arc_str: Arc<str> = Arc::from("test string");
    let string_data = "test string".to_string();
    assert_eq!(to_vec(&arc_str).unwrap(), to_vec(&string_data).unwrap());
}

#[test]
fn test_vec() {
    assert_roundtrips(&[
        (
            Ok(vec![1u32, 2, 3, 4]),
            &[
                0x0Fu8, 0x22, 0x04, 0x01, 0x00, 0x00, 0x00, 0x02, 0x00, 0x00, 0x00, 0x03, 0x00,
                0x00, 0x00, 0x04, 0x00, 0x00, 0x00,
            ],
        ),
        (Ok(vec![]), &[0x0F, 0x02, 0x04]),
    ]);
}

#[test]
fn test_vec_string() {
    assert_roundtrips(&[(
        Ok(vec![
            "foo".to_string(),
            "bar".to_string(),
            "baz".to_string(),
        ]),
        &[
            0x0Fu8, 0x1A, 0x0E, 0x06, b'f', b'o', b'o', 0x06, b'b', b'a', b'r', 0x06, b'b', b'a',
            b'z',
        ],
    )]);
}

#[test]
fn test_chrono_timestamp() {
    assert_roundtrips(&[
        (
            Ok(Timestamp::from_secs(
                DateTime::from_timestamp(1234567890, 0).unwrap().timestamp(),
            )
            .unwrap()),
            &[0x13u8, 0xD2, 0x02, 0x96, 0x49, 0x00, 0x00, 0x00, 0x00],
        ),
        (
            Ok(Timestamp::from_secs(DateTime::from_timestamp(0, 0).unwrap().timestamp()).unwrap()),
            &[0x13, 0x00, 0x00, 0x00, 0x00, 0x00, 0x00, 0x00, 0x00],
        ),
    ]);
}

#[test]
fn test_chrono_timestamp_out_of_range() {
    let invalid_bytes = &[0x13u8, 0xFF, 0xFF, 0xFF, 0xFF, 0xFF, 0xFF, 0xFF, 0xFF];
    let result = parse::<Timestamp>(Bytes::from(invalid_bytes.to_vec()));
    assert_eq!(
        result.unwrap_err().kind(),
        &ParseErrorKind::InvalidTimestamp(u64::MAX)
    );

    let before_epoch =
        Timestamp::from_secs(DateTime::from_timestamp(-1, 0).unwrap().timestamp()).unwrap();
    let result = to_vec(&before_epoch);
    assert_eq!(
        result.unwrap_err().kind(),
        &WriteErrorKind::InvalidTimestamp
    );
}

#[test]
fn test_bytes() {
    assert_roundtrips(&[
        (
            Ok(Bytes::from(vec![1u8, 2, 3, 4])),
            &[0x0Fu8, 0x0A, 0x02, 0x01, 0x02, 0x03, 0x04],
        ),
        (Ok(Bytes::from(vec![])), &[0x0F, 0x02, 0x02]),
        (
            Err(ParseError::new(ParseErrorKind::TypeMismatch {
                expected: 0x02,
                actual: 0x04,
            })),
            &[0x0Fu8, 0x0A, 0x04, 0x01, 0x00, 0x00, 0x00],
        ),
    ]);

    let bytes_data = Bytes::from(vec![0xDE, 0xAD, 0xBE, 0xEF]);
    let vec_data: Vec<u8> = vec![0xDE, 0xAD, 0xBE, 0xEF];
    assert_eq!(to_vec(&bytes_data).unwrap(), to_vec(&vec_data).unwrap());
}

#[test]
fn types_test_map() {
    let mut map1 = HashMap::new();
    map1.insert(1u32, 10u32);

    let map_empty: HashMap<u32, u32> = HashMap::new();

    assert_roundtrips(&[
        (
            Ok(map1),
            &[
                0x10u8, 0x14, 0x04, 0x04, 0x01, 0x00, 0x00, 0x00, 0x0A, 0x00, 0x00, 0x00,
            ],
        ),
        (Ok(map_empty), &[0x10, 0x04, 0x04, 0x04]),
        (
            Err(ParseError::new(ParseErrorKind::DuplicateMapKey)),
            &[
                0x10u8, 0x24, 0x04, 0x04, 0x01, 0x00, 0x00, 0x00, 0x0A, 0x00, 0x00, 0x00, 0x01,
                0x00, 0x00, 0x00, 0x14, 0x00, 0x00, 0x00,
            ],
        ),
    ]);

    let mut map2 = HashMap::new();
    map2.insert(1u32, "foo".to_string());

    assert_roundtrips(&[(
        Ok(map2),
        &[
            0x10u8, 0x14, 0x04, 0x0E, 0x01, 0x00, 0x00, 0x00, 0x06, b'f', b'o', b'o',
        ],
    )]);
}
