use bytes::Bytes;
use relish::{
    parse, parse_tlv, parse_value_for_typeid, read_byte, read_tagged_varint_length, read_le,
    read_type_id, read_value_for_typeid, signed_of, tagged_varint_length_size, to_vec,
    unsigned_of, write_le, write_tagged_varint_length, BytesRef, Float64, Null, ParseError,
    ParseErrorKind, TypeId, TypeLength, WriteError, WriteErrorKind, MAX_CONTENT_LENGTH,
};

fn varint(length: usize) -> Vec<u8> {
    let mut buffer = Vec::new();
    write_tagged_varint_length(&mut buffer, length).unwrap();
    buffer
}

fn read_varint(bytes: &[u8]) -> Result<(u32, usize), ParseError> {
    let container = Bytes::from(bytes.to_vec());
    let mut reader = BytesRef::new(&container);
    let length = read_tagged_varint_length(&mut reader)?;
    Ok((length, reader.len()))
}

#[test]
fn varint_exact_bytes() {
    assert_eq!(varint(0), vec![0x00]);
    assert_eq!(varint(1), vec![0x02]);
    assert_eq!(varint(127), vec![0xFE]);
    assert_eq!(varint(128), vec![0x01, 0x01, 0x00, 0x00]);
    assert_eq!(varint(300), vec![0x59, 0x02, 0x00, 0x00]);
    assert_eq!(varint(MAX_CONTENT_LENGTH), vec![0xFF, 0xFF, 0xFF, 0xFF]);
}

#[test]
fn varint_size_is_one_below_128_else_four() {
    assert_eq!(tagged_varint_length_size(0), 1);
    assert_eq!(tagged_varint_length_size(127), 1);
    assert_eq!(tagged_varint_length_size(128), 4);
    assert_eq!(tagged_varint_length_size(MAX_CONTENT_LENGTH), 4);
    for length in [0usize, 1, 127, 128, 129, 65535, 65536, MAX_CONTENT_LENGTH] {
        assert_eq!(varint(length).len(), tagged_varint_length_size(length));
    }
}

#[test]
fn varint_round_trip_at_the_edges() {
    for length in [0usize, 1, 127, 128, 129, 255, 256, 1 << 20, MAX_CONTENT_LENGTH] {
        let mut bytes = varint(length);
        bytes.extend_from_slice(&[0xAA, 0xBB]);
        assert_eq!(read_varint(&bytes), Ok((length as u32, 2)));
    }
}

#[test]
fn varint_refuses_lengths_beyond_the_prefix() {
    let mut buffer = vec![0x55];
    let result = write_tagged_varint_length(&mut buffer, MAX_CONTENT_LENGTH + 1);
    assert_eq!(
        result,
        Err(WriteError::new(WriteErrorKind::ContentTooLarge(
            MAX_CONTENT_LENGTH + 1
        )))
    );
    assert_eq!(buffer, vec![0x55]);
}

#[test]
fn varint_accepts_long_form_of_small_lengths() {
    assert_eq!(read_varint(&[0x01, 0x00, 0x00, 0x00]), Ok((0, 0)));
    assert_eq!(read_varint(&[0x0B, 0x00, 0x00, 0x00, 0x77]), Ok((5, 1)));
}

#[test]
fn varint_errors_on_short_input() {
    assert_eq!(
        read_varint(&[]),
        Err(ParseError::new(ParseErrorKind::InsufficientData {
            needed: 1,
            available: 0
        }))
    );
    assert_eq!(
        read_varint(&[0x01, 0x00]),
        Err(ParseError::new(ParseErrorKind::InsufficientData {
            needed: 3,
            available: 1
        }))
    );
}

#[test]
fn bytes_ref_reads_forward() {
    let container = Bytes::from(vec![1u8, 2, 3, 4, 5]);
    let mut reader = BytesRef::new(&container);
    assert_eq!(reader.len(), 5);
    assert!(!reader.is_empty());
    assert_eq!(reader.peek_byte(), Some(1));
    assert_eq!(reader.as_slice(), &[1, 2, 3, 4, 5]);

    let head = reader.read(2).unwrap();
    assert_eq!(head.as_slice(), &[1, 2]);
    assert_eq!(reader.as_slice(), &[3, 4, 5]);
    assert_eq!(reader.peek_byte(), Some(3));

    assert_eq!(read_byte(&mut reader), Ok(3));
    assert_eq!(reader.to_bytes(), Bytes::from(vec![4u8, 5]));

    let failed = reader.read(3);
    assert_eq!(
        failed.err(),
        Some(ParseError::new(ParseErrorKind::InsufficientData {
            needed: 3,
            available: 2
        }))
    );
    assert_eq!(reader.len(), 2);

    let rest = reader.take_all();
    assert_eq!(rest.as_slice(), &[4, 5]);
    assert!(reader.is_empty());
    assert_eq!(reader.peek_byte(), None);
    assert_eq!(reader.to_bytes(), Bytes::new());
    assert_eq!(
        read_byte(&mut reader),
        Err(ParseError::new(ParseErrorKind::InsufficientData {
            needed: 1,
            available: 0
        }))
    );
}

#[test]
fn sub_reader_hands_out_its_own_window() {
    let container = Bytes::from(vec![9u8, 8, 7, 6, 5, 4]);
    let mut reader = BytesRef::new(&container);
    let _skipped = reader.read(1).unwrap();
    let mut middle = reader.read(3).unwrap();
    let _first = middle.read(1).unwrap();
    assert_eq!(middle.to_bytes(), Bytes::from(vec![7u8, 6]));
    assert_eq!(reader.to_bytes(), Bytes::from(vec![5u8, 4]));
}

#[test]
fn type_ids_and_their_codes() {
    let all = [
        (TypeId::Null, 0x00u8),
        (TypeId::Bool, 0x01),
        (TypeId::U8, 0x02),
        (TypeId::U16, 0x03),
        (TypeId::U32, 0x04),
        (TypeId::U64, 0x05),
        (TypeId::U128, 0x06),
        (TypeId::I8, 0x07),
        (TypeId::I16, 0x08),
        (TypeId::I32, 0x09),
        (TypeId::I64, 0x0A),
        (TypeId::I128, 0x0B),
        (TypeId::F32, 0x0C),
        (TypeId::F64, 0x0D),
        (TypeId::String, 0x0E),
        (TypeId::Array, 0x0F),
        (TypeId::Dict, 0x10),
        (TypeId::Struct, 0x11),
        (TypeId::Enum, 0x12),
        (TypeId::Timestamp, 0x13),
    ];
    for (type_id, code) in all {
        assert_eq!(type_id.to_byte(), code);
        assert_eq!(u8::from(type_id), code);
        assert_eq!(TypeId::from_byte(code), Some(type_id));
    }
    for byte in 0x14..=0xFFu8 {
        assert_eq!(TypeId::from_byte(byte), None);
    }
}

#[test]
fn type_lengths() {
    assert_eq!(TypeId::Null.length(), TypeLength::Fixed(0));
    assert_eq!(TypeId::Bool.length(), TypeLength::Fixed(1));
    assert_eq!(TypeId::U8.length(), TypeLength::Fixed(1));
    assert_eq!(TypeId::I8.length(), TypeLength::Fixed(1));
    assert_eq!(TypeId::U16.length(), TypeLength::Fixed(2));
    assert_eq!(TypeId::I16.length(), TypeLength::Fixed(2));
    assert_eq!(TypeId::U32.length(), TypeLength::Fixed(4));
    assert_eq!(TypeId::I32.length(), TypeLength::Fixed(4));
    assert_eq!(TypeId::F32.length(), TypeLength::Fixed(4));
    assert_eq!(TypeId::U64.length(), TypeLength::Fixed(8));
    assert_eq!(TypeId::I64.length(), TypeLength::Fixed(8));
    assert_eq!(TypeId::F64.length(), TypeLength::Fixed(8));
    assert_eq!(TypeId::Timestamp.length(), TypeLength::Fixed(8));
    assert_eq!(TypeId::U128.length(), TypeLength::Fixed(16));
    assert_eq!(TypeId::I128.length(), TypeLength::Fixed(16));
    assert_eq!(TypeId::String.length(), TypeLength::Varsize);
    assert_eq!(TypeId::Array.length(), TypeLength::Varsize);
    assert_eq!(TypeId::Dict.length(), TypeLength::Varsize);
    assert_eq!(TypeId::Struct.length(), TypeLength::Varsize);
    assert_eq!(TypeId::Enum.length(), TypeLength::Varsize);
}

#[test]
fn little_endian_bytes() {
    let mut buffer = vec![0xEE];
    write_le(&mut buffer, 0x0102_0304, 4);
    assert_eq!(buffer, vec![0xEE, 0x04, 0x03, 0x02, 0x01]);
    write_le(&mut buffer, 0x1234, 0);
    assert_eq!(buffer.len(), 5);
    assert_eq!(read_le(&[0x04, 0x03, 0x02, 0x01]), 0x0102_0304);
    assert_eq!(read_le(&[]), 0);
    assert_eq!(read_le(&[0xFF; 16]), u128::MAX);
}

#[test]
fn twos_complement_conversions() {
    assert_eq!(unsigned_of(-1, 1), 0xFF);
    assert_eq!(unsigned_of(-128, 1), 0x80);
    assert_eq!(unsigned_of(127, 1), 0x7F);
    assert_eq!(unsigned_of(-42, 4), 0xFFFF_FFD6);
    assert_eq!(unsigned_of(i128::MIN, 16), 1u128 << 127);
    assert_eq!(unsigned_of(-1, 16), u128::MAX);
    assert_eq!(signed_of(0xFF, 1), -1);
    assert_eq!(signed_of(0x80, 1), -128);
    assert_eq!(signed_of(0x7F, 1), 127);
    assert_eq!(signed_of(0xFFFF_FFD6, 4), -42);
    assert_eq!(signed_of(1u128 << 127, 16), i128::MIN);
    assert_eq!(signed_of(u128::MAX, 16), -1);
}

fn round_trip<T: relish::Relish + PartialEq + std::fmt::Debug>(value: T, encoding: &[u8]) {
    assert_eq!(to_vec(&value).as_deref(), Ok(encoding));
    assert_eq!(value.value_length() + 1, encoding.len());
    assert_eq!(parse::<T>(Bytes::from(encoding.to_vec())), Ok(value));
}

#[test]
fn integers_round_trip_at_their_bounds() {
    round_trip(0u8, &[0x02, 0x00]);
    round_trip(u16::MAX, &[0x03, 0xFF, 0xFF]);
    round_trip(0x1234u16, &[0x03, 0x34, 0x12]);
    round_trip(u32::MAX, &[0x04, 0xFF, 0xFF, 0xFF, 0xFF]);
    round_trip(
        0x0102_0304_0506_0708u64,
        &[0x05, 0x08, 0x07, 0x06, 0x05, 0x04, 0x03, 0x02, 0x01],
    );
    round_trip(1u128, &[0x06, 1, 0, 0, 0, 0, 0, 0, 0, 0, 0, 0, 0, 0, 0, 0, 0]);
    round_trip(i8::MIN, &[0x07, 0x80]);
    round_trip(-1i8, &[0x07, 0xFF]);
    round_trip(i16::MIN, &[0x08, 0x00, 0x80]);
    round_trip(i32::MAX, &[0x09, 0xFF, 0xFF, 0xFF, 0x7F]);
    round_trip(i64::MIN, &[0x0A, 0, 0, 0, 0, 0, 0, 0, 0x80]);
    round_trip(
        i128::MIN,
        &[0x0B, 0, 0, 0, 0, 0, 0, 0, 0, 0, 0, 0, 0, 0, 0, 0, 0x80],
    );
    round_trip(
        -1i128,
        &[
            0x0B, 0xFF, 0xFF, 0xFF, 0xFF, 0xFF, 0xFF, 0xFF, 0xFF, 0xFF, 0xFF, 0xFF, 0xFF, 0xFF,
            0xFF, 0xFF, 0xFF,
        ],
    );
}

#[test]
fn floats_round_trip_bit_for_bit() {
    round_trip(
        Float64::from_bits((-3.5f64).to_bits()),
        &[0x0D, 0x00, 0x00, 0x00, 0x00, 0x00, 0x00, 0x0C, 0xC0],
    );
    let nan_with_payload = Float64::from_bits(0x7FF8_0000_0000_1234);
    let bytes = to_vec(&nan_with_payload).unwrap();
    assert_eq!(
        parse::<Float64>(Bytes::from(bytes)).unwrap().to_bits(),
        0x7FF8_0000_0000_1234
    );
}

#[test]
fn strings_round_trip() {
    round_trip(String::new(), &[0x0E, 0x00]);
    round_trip("é".to_string(), &[0x0E, 0x04, 0xC3, 0xA9]);
    let long = "x".repeat(200);
    let mut encoding = vec![0x0E, 0x91, 0x01, 0x00, 0x00];
    encoding.extend_from_slice(long.as_bytes());
    round_trip(long, &encoding);
}

#[test]
fn vectors_round_trip() {
    round_trip(
        vec![1u32, 2, 3],
        &[
            0x0F, 0x1A, 0x04, 0x01, 0x00, 0x00, 0x00, 0x02, 0x00, 0x00, 0x00, 0x03, 0x00, 0x00,
            0x00,
        ],
    );
    round_trip(
        vec![vec![1u8], vec![]],
        &[0x0F, 0x0C, 0x0F, 0x04, 0x02, 0x01, 0x02, 0x02],
    );
    round_trip(vec![true, false], &[0x0F, 0x06, 0x01, 0xFF, 0x00]);
}

#[test]
fn a_run_of_nulls_takes_no_bytes() {
    assert_eq!(to_vec(&vec![Null, Null]), Ok(vec![0x0F, 0x02, 0x00]));
    assert_eq!(
        parse::<Vec<Null>>(Bytes::from(vec![0x0F, 0x02, 0x00])),
        Ok(vec![])
    );
    assert_eq!(
        parse::<Vec<Null>>(Bytes::from(vec![0x0F, 0x04, 0x00, 0xFF])),
        Err(ParseError::new(ParseErrorKind::ExtraData {
            bytes_remaining: 1
        }))
    );
}

#[test]
fn array_errors() {
    assert_eq!(
        parse::<Vec<u32>>(Bytes::from(vec![0x0F, 0x00])),
        Err(ParseError::new(ParseErrorKind::InsufficientData {
            needed: 1,
            available: 0
        }))
    );
    assert_eq!(
        parse::<Vec<u32>>(Bytes::from(vec![0x0F, 0x02, 0x05])),
        Err(ParseError::new(ParseErrorKind::TypeMismatch {
            expected: 0x04,
            actual: 0x05
        }))
    );
    assert_eq!(
        parse::<Vec<u32>>(Bytes::from(vec![0x0F, 0x02, 0x90])),
        Err(ParseError::new(ParseErrorKind::InvalidTypeId(0x90)))
    );
    assert_eq!(
        parse::<Vec<u32>>(Bytes::from(vec![0x0F, 0x08, 0x04, 0x01, 0x00, 0x00])),
        Err(ParseError::new(ParseErrorKind::InsufficientData {
            needed: 4,
            available: 3
        }))
    );
    assert_eq!(
        parse::<Vec<bool>>(Bytes::from(vec![0x0F, 0x06, 0x01, 0xFF, 0x07])),
        Err(ParseError::new(ParseErrorKind::InvalidBoolValue(0x07)))
    );
    assert_eq!(
        parse::<Vec<u8>>(Bytes::from(vec![0x0F, 0x0A, 0x02, 0x01])),
        Err(ParseError::new(ParseErrorKind::InsufficientData {
            needed: 5,
            available: 2
        }))
    );
}

#[test]
fn top_level_rejects_high_bit_and_unassigned_type_bytes() {
    for byte in [0x80u8, 0x81, 0xC3, 0xFF, 0x14, 0x7F] {
        assert_eq!(
            parse::<u32>(Bytes::from(vec![byte, 0, 0, 0, 0])),
            Err(ParseError::new(ParseErrorKind::InvalidTypeId(byte)))
        );
    }
    assert_eq!(
        parse::<u32>(Bytes::new()),
        Err(ParseError::new(ParseErrorKind::InsufficientData {
            needed: 1,
            available: 0
        }))
    );
}

#[test]
fn readers_of_tagged_values() {
    let container = Bytes::from(vec![0x04u8, 0x2A, 0x00, 0x00, 0x00, 0x0E, 0x02, b'a', 0x09]);
    let mut reader = BytesRef::new(&container);
    assert_eq!(parse_tlv::<u32>(&mut reader), Ok(42));
    assert_eq!(reader.len(), 4);
    assert_eq!(read_type_id(&mut reader), Ok(TypeId::String));
    let content = read_value_for_typeid(&mut reader, TypeId::String).unwrap();
    assert_eq!(content.as_slice(), b"a");
    assert_eq!(reader.as_slice(), &[0x09]);
    assert_eq!(
        parse_value_for_typeid::<u16>(&mut reader, TypeId::U16),
        Err(ParseError::new(ParseErrorKind::InsufficientData {
            needed: 2,
            available: 1
        }))
    );
}

#[test]
fn errors_are_their_kinds() {
    let e = ParseError::new(ParseErrorKind::UnknownVariant(3));
    assert_eq!(e.kind(), &ParseErrorKind::UnknownVariant(3));
    assert_eq!(e.clone(), e);
    let w = WriteError::new(WriteErrorKind::FieldIdTooLarge(200));
    assert_eq!(w.kind(), &WriteErrorKind::FieldIdTooLarge(200));
    assert_ne!(w, WriteError::new(WriteErrorKind::InvalidTimestamp));
    let kept = ParseErrorKind::EnumContentLengthMismatch {
        expected: 4,
        actual: 3,
    };
    assert_eq!(ParseError::new(kept.clone()).kind(), &kept);
}

#[test]
fn bytes_ref_reads_as_a_slice() {
    let container = Bytes::from(vec![7u8, 8, 9]);
    let mut reader = BytesRef::new(&container);
    let _first = reader.read(1).unwrap();
    assert_eq!(&*reader, &[8u8, 9][..]);
    assert_eq!(reader[0], 8);
    assert_eq!(reader.iter().count(), 2);
}
