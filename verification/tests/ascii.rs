use bytes::Bytes;
use relish::{from_bytes, to_ascii, Float64, TypeId, Value};

#[test]
fn test_format_null() {
    assert_eq!(to_ascii(&Value::Null, &[]), "null");
}

#[test]
fn test_format_bool() {
    assert_eq!(to_ascii(&Value::Bool(true), &[]), "true");
    assert_eq!(to_ascii(&Value::Bool(false), &[]), "false");
}

#[test]
fn test_format_integers() {
    assert_eq!(to_ascii(&Value::U32(42), &[]), "42u32");
    assert_eq!(to_ascii(&Value::I32(-42), &[]), "-42i32");
    assert_eq!(to_ascii(&Value::U64(1234567890), &[]), "1234567890u64");
}

#[test]
fn test_format_string() {
    assert_eq!(
        to_ascii(&Value::String("Hello".to_string()), &[]),
        "\"Hello\""
    );
    assert_eq!(
        to_ascii(&Value::String("Hello\nWorld".to_string()), &[]),
        "\"Hello\\nWorld\""
    );
}

#[test]
fn test_format_array() {
    let arr = Value::Array {
        element_type: TypeId::U32,
        elements: vec![Value::U32(1), Value::U32(2), Value::U32(3)],
    };
    assert_eq!(
        to_ascii(&arr, &[]),
        "array<u32> {\n  1u32,\n  2u32,\n  3u32,\n}"
    );
}

#[test]
fn test_format_struct() {
    let s = Value::Struct {
        fields: vec![(0, Value::U32(42)), (1, Value::String("test".to_string()))],
    };
    let expected = "struct {\n  0: 42u32,\n  1: \"test\",\n}";
    assert_eq!(to_ascii(&s, &[]), expected);
}

#[test]
fn test_parse_null() {
    let data = Bytes::from(vec![0x00]);
    assert_eq!(from_bytes(data).unwrap(), Value::Null);
}

#[test]
fn test_parse_bool() {
    assert_eq!(
        from_bytes(Bytes::from(vec![0x01, 0xFF])).unwrap(),
        Value::Bool(true)
    );
    assert_eq!(
        from_bytes(Bytes::from(vec![0x01, 0x00])).unwrap(),
        Value::Bool(false)
    );
}

#[test]
fn test_parse_u32() {
    let data = Bytes::from(vec![0x04, 0x2A, 0x00, 0x00, 0x00]);
    assert_eq!(from_bytes(data).unwrap(), Value::U32(42));
}

#[test]
fn test_parse_string() {
    let data = Bytes::from(vec![0x0E, 0x0A, b'H', b'e', b'l', b'l', b'o']);
    assert_eq!(
        from_bytes(data).unwrap(),
        Value::String("Hello".to_string())
    );
}

#[test]
fn test_parse_array() {
    let data = Bytes::from(vec![
        0x0F, 0x1A, 0x04, 0x01, 0x00, 0x00, 0x00, 0x02, 0x00, 0x00, 0x00, 0x03, 0x00, 0x00, 0x00,
    ]);
    assert_eq!(
        from_bytes(data).unwrap(),
        Value::Array {
            element_type: TypeId::U32,
            elements: vec![Value::U32(1), Value::U32(2), Value::U32(3)],
        }
    );
}

#[test]
fn test_parse_struct() {
    let data = Bytes::from(vec![0x11, 0x0C, 0x00, 0x04, 0x2A, 0x00, 0x00, 0x00]);
    assert_eq!(
        from_bytes(data).unwrap(),
        Value::Struct {
            fields: vec![(0, Value::U32(42))]
        }
    );
}

#[test]
fn test_invalid_type_id() {
    let data = bytes::Bytes::from(vec![0x80u8]);
    assert!(from_bytes(data).is_err());
}

#[test]
fn test_insufficient_data() {
    let data = bytes::Bytes::from(vec![0x04u8, 0x2A, 0x00]);
    assert!(from_bytes(data).is_err());
}

fn float_texts(value: &Value) -> Vec<String> {
    match value {
        Value::F64(f) => vec![format!("{}", f64::from_bits(f.to_bits()))],
        Value::F32(f) => vec![format!("{}", f32::from_bits(f.to_bits()))],
        _ => vec![],
    }
}

#[test]
fn test_float_special_values() {
    let nan_data =
        bytes::Bytes::from(vec![0x0Du8, 0x00, 0x00, 0x00, 0x00, 0x00, 0x00, 0xF8, 0x7F]);
    let value = from_bytes(nan_data).unwrap();
    assert!(matches!(value, Value::F64(f) if f64::from_bits(f.to_bits()).is_nan()));
    assert_eq!(to_ascii(&value, &float_texts(&value)), "NaNf64");

    let inf_data =
        bytes::Bytes::from(vec![0x0Du8, 0x00, 0x00, 0x00, 0x00, 0x00, 0x00, 0xF0, 0x7F]);
    let value = from_bytes(inf_data).unwrap();
    assert_eq!(value, Value::F64(Float64::from_bits(f64::INFINITY.to_bits())));
    assert_eq!(to_ascii(&value, &float_texts(&value)), "inff64");
}
