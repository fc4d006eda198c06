use bytes::Bytes;
use relish::{
    add_lengths, expect_end, field_length, parse, parse_tlv, read_variant_id,
    tagged_varint_length_size, to_vec, unknown_variant, variant_length, write_field,
    write_tagged_varint_length, write_variant, BytesRef, FieldValue, ParseError, ParseErrorKind,
    ParseResult, Relish, StructParser, TypeId, WriteResult,
};

fn assert_roundtrips<T: Relish + PartialEq + std::fmt::Debug>(cases: &[(ParseResult<T>, &[u8])]) {
    for (expected, bytes) in cases {
        let parse_result = parse::<T>(Bytes::from(bytes.to_vec()));
        assert_eq!(expected, &parse_result);
        if let Ok(val) = expected {
            assert_eq!(to_vec(val).as_deref(), Ok(*bytes));
        }
    }
}

#[derive(Debug, PartialEq)]
struct Simple {
    value: u32,
}

impl Relish for Simple {
    const TYPE: TypeId = TypeId::Struct;

    fn parse_value(data: &mut BytesRef) -> ParseResult<Self> {
        let mut parser = StructParser::new(data);
        let value = parser.read_value_for_field_id::<u32>(0)?;
        parser.finish()?;
        Ok(Self {
            value: FieldValue::from_option(value)?,
        })
    }

    fn write_value(&self, buffer: &mut Vec<u8>) -> WriteResult<()> {
        let content_len = field_length(&self.value);
        write_tagged_varint_length(buffer, content_len)?;
        write_field(buffer, 0, &self.value)?;
        Ok(())
    }

    fn value_length(&self) -> usize {
        let content_size = field_length(&self.value);
        add_lengths(tagged_varint_length_size(content_size), content_size)
    }
}

#[test]
fn test_simple_struct() {
    assert_roundtrips(&[(
        Ok(Simple { value: 42 }),
        &[0x11, 0x0C, 0x00, 0x04, 0x2A, 0x00, 0x00, 0x00],
    )]);
}

#[derive(Debug, PartialEq)]
struct MultiField {
    a: u32,
    b: String,
    c: bool,
}

impl MultiField {
    fn content_length(&self) -> usize {
        let mut content_len = 0;
        content_len = add_lengths(content_len, field_length(&self.a));
        content_len = add_lengths(content_len, field_length(&self.b));
        content_len = add_lengths(content_len, field_length(&self.c));
        content_len
    }
}

impl Relish for MultiField {
    const TYPE: TypeId = TypeId::Struct;

    fn parse_value(data: &mut BytesRef) -> ParseResult<Self> {
        let mut parser = StructParser::new(data);
        let a = parser.read_value_for_field_id::<u32>(0)?;
        let b = parser.read_value_for_field_id::<String>(1)?;
        let c = parser.read_value_for_field_id::<bool>(5)?;
        parser.finish()?;
        Ok(Self {
            a: FieldValue::from_option(a)?,
            b: FieldValue::from_option(b)?,
            c: FieldValue::from_option(c)?,
        })
    }

    fn write_value(&self, buffer: &mut Vec<u8>) -> WriteResult<()> {
        write_tagged_varint_length(buffer, self.content_length())?;
        write_field(buffer, 0, &self.a)?;
        write_field(buffer, 1, &self.b)?;
        write_field(buffer, 5, &self.c)?;
        Ok(())
    }

    fn value_length(&self) -> usize {
        let content_size = self.content_length();
        add_lengths(tagged_varint_length_size(content_size), content_size)
    }
}

#[test]
fn test_multiple_fields() {
    assert_roundtrips(&[(
        Ok(MultiField {
            a: 42,
            b: "hello".to_string(),
            c: true,
        }),
        &[
            0x11, 0x22, 0x00, 0x04, 0x2A, 0x00, 0x00, 0x00, 0x01, 0x0E, 0x0A, b'h', b'e', b'l',
            b'l', b'o', 0x05, 0x01, 0xFF,
        ],
    )]);
}

#[derive(Debug, PartialEq)]
struct WithOption {
    required: u32,
    optional: Option<u32>,
}

impl WithOption {
    fn content_length(&self) -> usize {
        add_lengths(field_length(&self.required), field_length(&self.optional))
    }
}

impl Relish for WithOption {
    const TYPE: TypeId = TypeId::Struct;

    fn parse_value(data: &mut BytesRef) -> ParseResult<Self> {
        let mut parser = StructParser::new(data);
        let required = parser.read_value_for_field_id::<u32>(0)?;
        let optional = parser.read_value_for_field_id::<Option<u32>>(1)?;
        parser.finish()?;
        Ok(Self {
            required: FieldValue::from_option(required)?,
            optional: FieldValue::from_option(optional)?,
        })
    }

    fn write_value(&self, buffer: &mut Vec<u8>) -> WriteResult<()> {
        write_tagged_varint_length(buffer, self.content_length())?;
        write_field(buffer, 0, &self.required)?;
        write_field(buffer, 1, &self.optional)?;
        Ok(())
    }

    fn value_length(&self) -> usize {
        let content_size = self.content_length();
        add_lengths(tagged_varint_length_size(content_size), content_size)
    }
}

#[test]
fn derive_test_test_optional_fields() {
    assert_roundtrips(&[
        (
            Ok(WithOption {
                required: 10,
                optional: Some(20),
            }),
            &[
                0x11, 0x18, 0x00, 0x04, 0x0A, 0x00, 0x00, 0x00, 0x01, 0x04, 0x14, 0x00, 0x00, 0x00,
            ],
        ),
        (
            Ok(WithOption {
                required: 10,
                optional: None,
            }),
            &[0x11, 0x0C, 0x00, 0x04, 0x0A, 0x00, 0x00, 0x00],
        ),
    ]);
}

#[derive(Debug, PartialEq)]
struct WithSkip {
    included: u32,
    skipped: String,
}

impl Relish for WithSkip {
    const TYPE: TypeId = TypeId::Struct;

    fn parse_value(data: &mut BytesRef) -> ParseResult<Self> {
        let mut parser = StructParser::new(data);
        let included = parser.read_value_for_field_id::<u32>(0)?;
        parser.finish()?;
        Ok(Self {
            included: FieldValue::from_option(included)?,
            skipped: Default::default(),
        })
    }

    fn write_value(&self, buffer: &mut Vec<u8>) -> WriteResult<()> {
        write_tagged_varint_length(buffer, field_length(&self.included))?;
        write_field(buffer, 0, &self.included)?;
        Ok(())
    }

    fn value_length(&self) -> usize {
        let content_size = field_length(&self.included);
        add_lengths(tagged_varint_length_size(content_size), content_size)
    }
}

#[test]
fn test_skip_field() {
    let value = WithSkip {
        included: 42,
        skipped: "not serialized".to_string(),
    };
    let serialized = to_vec(&value).unwrap();
    let parsed: WithSkip = parse(Bytes::from(serialized.clone())).unwrap();

    assert_eq!(parsed.included, 42);
    assert_eq!(parsed.skipped, "");
}

#[derive(Debug, PartialEq)]
struct Empty {}

impl Relish for Empty {
    const TYPE: TypeId = TypeId::Struct;

    fn parse_value(data: &mut BytesRef) -> ParseResult<Self> {
        let mut parser = StructParser::new(data);
        parser.finish()?;
        Ok(Self {})
    }

    fn write_value(&self, buffer: &mut Vec<u8>) -> WriteResult<()> {
        write_tagged_varint_length(buffer, 0)?;
        Ok(())
    }

    fn value_length(&self) -> usize {
        add_lengths(tagged_varint_length_size(0), 0)
    }
}

#[test]
fn test_empty_struct() {
    assert_roundtrips(&[(Ok(Empty {}), &[0x11, 0x00])]);
}

#[test]
fn test_parse_with_unknown_fields() {
    let data = &[
        0x11, 0x1C, 0x00, 0x04, 0x2A, 0x00, 0x00, 0x00, 0x02, 0x0E, 0x0A, b'h', b'e', b'l', b'l',
        b'o',
    ];

    let result: ParseResult<Simple> = parse(Bytes::from(data.to_vec()));
    assert_eq!(result, Ok(Simple { value: 42 }));
}

#[derive(Debug, PartialEq)]
struct Ordered {
    a: u32,
    b: u32,
}

impl Relish for Ordered {
    const TYPE: TypeId = TypeId::Struct;

    fn parse_value(data: &mut BytesRef) -> ParseResult<Self> {
        let mut parser = StructParser::new(data);
        let a = parser.read_value_for_field_id::<u32>(0)?;
        let b = parser.read_value_for_field_id::<u32>(1)?;
        parser.finish()?;
        Ok(Self {
            a: FieldValue::from_option(a)?,
            b: FieldValue::from_option(b)?,
        })
    }

    fn write_value(&self, buffer: &mut Vec<u8>) -> WriteResult<()> {
        let content_len = add_lengths(field_length(&self.a), field_length(&self.b));
        write_tagged_varint_length(buffer, content_len)?;
        write_field(buffer, 0, &self.a)?;
        write_field(buffer, 1, &self.b)?;
        Ok(())
    }

    fn value_length(&self) -> usize {
        let content_size = add_lengths(field_length(&self.a), field_length(&self.b));
        add_lengths(tagged_varint_length_size(content_size), content_size)
    }
}

#[test]
fn test_parse_fields_not_in_order() {
    let data = &[
        0x11, 0x18, 0x01, 0x04, 0x14, 0x00, 0x00, 0x00, 0x00, 0x04, 0x0A, 0x00, 0x00, 0x00,
    ];

    let result: ParseResult<Ordered> = parse(Bytes::from(data.to_vec()));
    assert_eq!(
        result,
        Err(ParseError::new(ParseErrorKind::FieldOrderViolation {
            previous: 1,
            current: 0
        }))
    );
}

#[derive(Debug, PartialEq)]
struct Outer {
    inner: Simple,
    other: u32,
}

impl Relish for Outer {
    const TYPE: TypeId = TypeId::Struct;

    fn parse_value(data: &mut BytesRef) -> ParseResult<Self> {
        let mut parser = StructParser::new(data);
        let inner = parser.read_value_for_field_id::<Simple>(0)?;
        let other = parser.read_value_for_field_id::<u32>(1)?;
        parser.finish()?;
        Ok(Self {
            inner: FieldValue::from_option(inner)?,
            other: FieldValue::from_option(other)?,
        })
    }

    fn write_value(&self, buffer: &mut Vec<u8>) -> WriteResult<()> {
        let content_len = add_lengths(field_length(&self.inner), field_length(&self.other));
        write_tagged_varint_length(buffer, content_len)?;
        write_field(buffer, 0, &self.inner)?;
        write_field(buffer, 1, &self.other)?;
        Ok(())
    }

    fn value_length(&self) -> usize {
        let content_size = add_lengths(field_length(&self.inner), field_length(&self.other));
        add_lengths(tagged_varint_length_size(content_size), content_size)
    }
}

#[test]
fn test_nested_structs() {
    assert_roundtrips(&[(
        Ok(Outer {
            inner: Simple { value: 10 },
            other: 20,
        }),
        &[
            0x11, 0x1E, 0x00, 0x11, 0x0C, 0x00, 0x04, 0x0A, 0x00, 0x00, 0x00, 0x01, 0x04, 0x14,
            0x00, 0x00, 0x00,
        ],
    )]);
}

#[derive(Debug, PartialEq)]
enum SimpleEnum {
    A(u32),
    B(String),
}

impl SimpleEnum {
    fn content_length(&self) -> usize {
        match self {
            Self::A(value) => variant_length(value),
            Self::B(value) => variant_length(value),
        }
    }
}

impl Relish for SimpleEnum {
    const TYPE: TypeId = TypeId::Enum;

    fn parse_value(data: &mut BytesRef) -> ParseResult<Self> {
        let field_id = read_variant_id(data)?;
        let result = match field_id {
            0 => Self::A(parse_tlv::<u32>(data)?),
            1 => Self::B(parse_tlv::<String>(data)?),
            _ => return Err(unknown_variant(field_id)),
        };
        expect_end(data)?;
        Ok(result)
    }

    fn write_value(&self, buffer: &mut Vec<u8>) -> WriteResult<()> {
        write_tagged_varint_length(buffer, self.content_length())?;
        match self {
            Self::A(value) => write_variant(buffer, 0, value)?,
            Self::B(value) => write_variant(buffer, 1, value)?,
        }
        Ok(())
    }

    fn value_length(&self) -> usize {
        let content_size = self.content_length();
        add_lengths(tagged_varint_length_size(content_size), content_size)
    }
}

#[test]
fn test_simple_enum() {
    assert_roundtrips(&[
        (
            Ok(SimpleEnum::A(42)),
            &[0x12, 0x0C, 0x00, 0x04, 0x2A, 0x00, 0x00, 0x00],
        ),
        (
            Ok(SimpleEnum::B("hello".to_string())),
            &[0x12, 0x10, 0x01, 0x0E, 0x0A, b'h', b'e', b'l', b'l', b'o'],
        ),
    ]);
}

#[derive(Debug, PartialEq)]
enum EnumWithStruct {
    Simple(u32),
    Complex(Simple),
}

impl EnumWithStruct {
    fn content_length(&self) -> usize {
        match self {
            Self::Simple(value) => variant_length(value),
            Self::Complex(value) => variant_length(value),
        }
    }
}

impl Relish for EnumWithStruct {
    const TYPE: TypeId = TypeId::Enum;

    fn parse_value(data: &mut BytesRef) -> ParseResult<Self> {
        let field_id = read_variant_id(data)?;
        let result = match field_id {
            0 => Self::Simple(parse_tlv::<u32>(data)?),
            1 => Self::Complex(parse_tlv::<Simple>(data)?),
            _ => return Err(unknown_variant(field_id)),
        };
        expect_end(data)?;
        Ok(result)
    }

    fn write_value(&self, buffer: &mut Vec<u8>) -> WriteResult<()> {
        write_tagged_varint_length(buffer, self.content_length())?;
        match self {
            Self::Simple(value) => write_variant(buffer, 0, value)?,
            Self::Complex(value) => write_variant(buffer, 1, value)?,
        }
        Ok(())
    }

    fn value_length(&self) -> usize {
        let content_size = self.content_length();
        add_lengths(tagged_varint_length_size(content_size), content_size)
    }
}

#[test]
fn test_enum_with_nested_struct() {
    assert_roundtrips(&[
        (
            Ok(EnumWithStruct::Simple(10)),
            &[0x12, 0x0C, 0x00, 0x04, 0x0A, 0x00, 0x00, 0x00],
        ),
        (
            Ok(EnumWithStruct::Complex(Simple { value: 20 })),
            &[
                0x12, 0x12, 0x01, 0x11, 0x0C, 0x00, 0x04, 0x14, 0x00, 0x00, 0x00,
            ],
        ),
    ]);
}

#[derive(Debug, PartialEq)]
enum OnlyA {
    A(u32),
}

impl Relish for OnlyA {
    const TYPE: TypeId = TypeId::Enum;

    fn parse_value(data: &mut BytesRef) -> ParseResult<Self> {
        let field_id = read_variant_id(data)?;
        let result = match field_id {
            0 => Self::A(parse_tlv::<u32>(data)?),
            _ => return Err(unknown_variant(field_id)),
        };
        expect_end(data)?;
        Ok(result)
    }

    fn write_value(&self, buffer: &mut Vec<u8>) -> WriteResult<()> {
        let Self::A(value) = self;
        write_tagged_varint_length(buffer, variant_length(value))?;
        write_variant(buffer, 0, value)?;
        Ok(())
    }

    fn value_length(&self) -> usize {
        let Self::A(value) = self;
        let content_size = variant_length(value);
        add_lengths(tagged_varint_length_size(content_size), content_size)
    }
}

#[test]
fn test_enum_unknown_variant() {
    let data = &[0x12, 0x0C, 0x05, 0x04, 0x2A, 0x00, 0x00, 0x00];

    let result: ParseResult<OnlyA> = parse(Bytes::from(data.to_vec()));
    assert_eq!(
        result,
        Err(ParseError::new(ParseErrorKind::UnknownVariant(5)))
    );
}

#[derive(Debug, PartialEq)]
enum InnerEnum {
    X(u32),
    Y(String),
}

impl InnerEnum {
    fn content_length(&self) -> usize {
        match self {
            Self::X(value) => variant_length(value),
            Self::Y(value) => variant_length(value),
        }
    }
}

impl Relish for InnerEnum {
    const TYPE: TypeId = TypeId::Enum;

    fn parse_value(data: &mut BytesRef) -> ParseResult<Self> {
        let field_id = read_variant_id(data)?;
        let result = match field_id {
            0 => Self::X(parse_tlv::<u32>(data)?),
            1 => Self::Y(parse_tlv::<String>(data)?),
            _ => return Err(unknown_variant(field_id)),
        };
        expect_end(data)?;
        Ok(result)
    }

    fn write_value(&self, buffer: &mut Vec<u8>) -> WriteResult<()> {
        write_tagged_varint_length(buffer, self.content_length())?;
        match self {
            Self::X(value) => write_variant(buffer, 0, value)?,
            Self::Y(value) => write_variant(buffer, 1, value)?,
        }
        Ok(())
    }

    fn value_length(&self) -> usize {
        let content_size = self.content_length();
        add_lengths(tagged_varint_length_size(content_size), content_size)
    }
}

#[derive(Debug, PartialEq)]
enum OuterEnum {
    Nested(InnerEnum),
    Value(u32),
}

impl OuterEnum {
    fn content_length(&self) -> usize {
        match self {
            Self::Nested(value) => variant_length(value),
            Self::Value(value) => variant_length(value),
        }
    }
}

impl Relish for OuterEnum {
    const TYPE: TypeId = TypeId::Enum;

    fn parse_value(data: &mut BytesRef) -> ParseResult<Self> {
        let field_id = read_variant_id(data)?;
        let result = match field_id {
            0 => Self::Nested(parse_tlv::<InnerEnum>(data)?),
            1 => Self::Value(parse_tlv::<u32>(data)?),
            _ => return Err(unknown_variant(field_id)),
        };
        expect_end(data)?;
        Ok(result)
    }

    fn write_value(&self, buffer: &mut Vec<u8>) -> WriteResult<()> {
        write_tagged_varint_length(buffer, self.content_length())?;
        match self {
            Self::Nested(value) => write_variant(buffer, 0, value)?,
            Self::Value(value) => write_variant(buffer, 1, value)?,
        }
        Ok(())
    }

    fn value_length(&self) -> usize {
        let content_size = self.content_length();
        add_lengths(tagged_varint_length_size(content_size), content_size)
    }
}

#[test]
fn test_nested_enums() {
    assert_roundtrips(&[
        (
            Ok(OuterEnum::Nested(InnerEnum::X(42))),
            &[
                0x12, 0x12, 0x00, 0x12, 0x0C, 0x00, 0x04, 0x2A, 0x00, 0x00, 0x00,
            ],
        ),
        (
            Ok(OuterEnum::Value(10)),
            &[0x12, 0x0C, 0x01, 0x04, 0x0A, 0x00, 0x00, 0x00],
        ),
    ]);
}
