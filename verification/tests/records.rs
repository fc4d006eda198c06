use bytes::Bytes;
use relish::{
    add_lengths, check_variant, combine_markings, declared_ids, expect_end, field_length,
    order_by_id, parse, parse_variant, read_marking, read_variant_id, struct_layout,
    tagged_varint_length_size, to_vec, unknown_variant, variant_length, write_field,
    write_tagged_varint_length, write_variant, BytesRef, FieldValue, Marking, ParseError,
    ParseErrorKind, ParseResult, Relish, SchemaError, StructParser, TypeId, VariantShape,
    WriteError, WriteErrorKind, WriteResult,
};

#[derive(Debug, PartialEq)]
struct Point {
    x: u32,
    label: Option<String>,
}

impl Point {
    fn content_length(&self) -> usize {
        add_lengths(field_length(&self.x), field_length(&self.label))
    }
}

impl Relish for Point {
    const TYPE: TypeId = TypeId::Struct;

    fn parse_value(data: &mut BytesRef) -> ParseResult<Self> {
        let mut parser = StructParser::new(data);
        let x = parser.read_value_for_field_id::<u32>(1)?;
        let label = parser.read_value_for_field_id::<Option<String>>(4)?;
        parser.finish()?;
        Ok(Self {
            x: FieldValue::from_option(x)?,
            label: FieldValue::from_option(label)?,
        })
    }

    fn write_value(&self, buffer: &mut Vec<u8>) -> WriteResult<()> {
        write_tagged_varint_length(buffer, self.content_length())?;
        write_field(buffer, 1, &self.x)?;
        write_field(buffer, 4, &self.label)?;
        Ok(())
    }

    fn value_length(&self) -> usize {
        let content_size = self.content_length();
        add_lengths(tagged_varint_length_size(content_size), content_size)
    }
}

fn parse_point(bytes: &[u8]) -> ParseResult<Point> {
    parse::<Point>(Bytes::from(bytes.to_vec()))
}

fn error(kind: ParseErrorKind) -> ParseResult<Point> {
    Err(ParseError::new(kind))
}

#[test]
fn struct_round_trip() {
    let point = Point {
        x: 7,
        label: Some("a".to_string()),
    };
    let bytes = to_vec(&point).unwrap();
    assert_eq!(
        bytes,
        vec![0x11, 0x14, 0x01, 0x04, 0x07, 0x00, 0x00, 0x00, 0x04, 0x0E, 0x02, b'a']
    );
    assert_eq!(point.value_length() + 1, bytes.len());
    assert_eq!(parse_point(&bytes), Ok(point));
}

#[test]
fn added_field_with_greater_id_is_skipped() {
    let old = [0x11u8, 0x0C, 0x01, 0x04, 0x07, 0x00, 0x00, 0x00];
    let expected = Point { x: 7, label: None };
    assert_eq!(parse_point(&old), Ok(Point { x: 7, label: None }));
    let extended = [
        0x11u8, 0x12, 0x01, 0x04, 0x07, 0x00, 0x00, 0x00, 0x09, 0x01, 0xFF,
    ];
    assert_eq!(parse_point(&extended), Ok(expected));
}

#[test]
fn unknown_fields_between_known_ones_are_skipped() {
    let bytes = [
        0x11u8, 0x28, 0x00, 0x00, 0x01, 0x04, 0x07, 0x00, 0x00, 0x00, 0x02, 0x0F, 0x04, 0x02,
        0x09, 0x03, 0x0E, 0x00, 0x04, 0x0E, 0x02, b'z',
    ];
    assert_eq!(
        parse_point(&bytes),
        Ok(Point {
            x: 7,
            label: Some("z".to_string())
        })
    );
}

#[test]
fn missing_required_field() {
    assert_eq!(
        parse_point(&[0x11, 0x00]),
        error(ParseErrorKind::MissingRequiredField)
    );
    assert_eq!(
        parse_point(&[0x11, 0x08, 0x04, 0x0E, 0x02, b'z']),
        error(ParseErrorKind::MissingRequiredField)
    );
}

#[test]
fn disorder_among_unknown_fields_is_refused() {
    let bytes = [
        0x11u8, 0x18, 0x01, 0x04, 0x07, 0x00, 0x00, 0x00, 0x07, 0x01, 0xFF, 0x05, 0x01, 0x00,
    ];
    assert_eq!(
        parse_point(&bytes),
        error(ParseErrorKind::FieldOrderViolation {
            previous: 7,
            current: 5
        })
    );
}

#[test]
fn repeated_field_id_is_refused() {
    let bytes = [
        0x11u8, 0x18, 0x01, 0x04, 0x07, 0x00, 0x00, 0x00, 0x01, 0x04, 0x08, 0x00, 0x00, 0x00,
    ];
    assert_eq!(
        parse_point(&bytes),
        error(ParseErrorKind::FieldOrderViolation {
            previous: 1,
            current: 1
        })
    );
}

#[test]
fn field_id_with_high_bit_is_refused() {
    assert_eq!(
        parse_point(&[0x11, 0x06, 0x81, 0x01, 0xFF]),
        error(ParseErrorKind::InvalidFieldId(0x81))
    );
    let bytes = [
        0x11u8, 0x12, 0x01, 0x04, 0x07, 0x00, 0x00, 0x00, 0xFF, 0x01, 0xFF,
    ];
    assert_eq!(
        parse_point(&bytes),
        error(ParseErrorKind::InvalidFieldId(0xFF))
    );
}

#[test]
fn field_of_another_type_is_a_mismatch() {
    assert_eq!(
        parse_point(&[0x11, 0x06, 0x01, 0x01, 0xFF]),
        error(ParseErrorKind::TypeMismatch {
            expected: 0x04,
            actual: 0x01
        })
    );
}

#[test]
fn skipped_field_must_be_well_framed() {
    assert_eq!(
        parse_point(&[0x11, 0x04, 0x00, 0x55]),
        error(ParseErrorKind::InvalidTypeId(0x55))
    );
    assert_eq!(
        parse_point(&[0x11, 0x06, 0x00, 0x04, 0x01]),
        error(ParseErrorKind::InsufficientData {
            needed: 4,
            available: 1
        })
    );
    assert_eq!(
        parse_point(&[0x11, 0x02, 0x00]),
        error(ParseErrorKind::InsufficientData {
            needed: 1,
            available: 0
        })
    );
}

#[test]
fn cursor_hands_out_fields_in_order() {
    let container = Bytes::from(vec![
        0x00u8, 0x02, 0x09, 0x03, 0x04, 0x2A, 0x00, 0x00, 0x00, 0x06, 0x01, 0xFF,
    ]);
    let mut reader = BytesRef::new(&container);
    let mut parser = StructParser::new(&mut reader);
    assert!(reader.is_empty());
    assert_eq!(parser.read_value_for_field_id::<u8>(0), Ok(Some(9)));
    assert_eq!(parser.read_value_for_field_id::<u8>(1), Ok(None));
    assert_eq!(parser.read_value_for_field_id::<u8>(2), Ok(None));
    assert_eq!(parser.read_value_for_field_id::<u32>(3), Ok(Some(42)));
    assert_eq!(parser.read_value_for_field_id::<Option<bool>>(5), Ok(None));
    assert_eq!(parser.finish(), Ok(()));
    assert_eq!(parser.read_value_for_field_id::<bool>(9), Ok(None));
}

#[test]
fn refused_id_stays_at_the_front() {
    let container = Bytes::from(vec![0x00u8, 0x02, 0x09, 0x85, 0x02, 0x01]);
    let mut reader = BytesRef::new(&container);
    let mut parser = StructParser::new(&mut reader);
    assert_eq!(parser.read_value_for_field_id::<u8>(0), Ok(Some(9)));
    assert_eq!(
        parser.read_value_for_field_id::<u8>(5),
        Err(ParseError::new(ParseErrorKind::InvalidFieldId(0x85)))
    );
    assert_eq!(
        parser.read_value_for_field_id::<bool>(0x7F),
        Err(ParseError::new(ParseErrorKind::InvalidFieldId(0x85)))
    );
    assert_eq!(parser.finish(), Err(ParseError::new(ParseErrorKind::InvalidFieldId(0x85))));
    assert_eq!(parser.finish(), Err(ParseError::new(ParseErrorKind::InvalidFieldId(0x85))));
}

#[test]
fn record_out_of_order_stays_at_the_front() {
    let container = Bytes::from(vec![0x02u8, 0x02, 0x09, 0x01, 0x02, 0x07]);
    let mut reader = BytesRef::new(&container);
    let mut parser = StructParser::new(&mut reader);
    assert_eq!(parser.read_value_for_field_id::<u8>(2), Ok(Some(9)));
    let disorder = ParseErrorKind::FieldOrderViolation { previous: 2, current: 1 };
    assert_eq!(
        parser.read_value_for_field_id::<u8>(3),
        Err(ParseError::new(disorder.clone()))
    );
    assert_eq!(
        parser.read_value_for_field_id::<u8>(1),
        Err(ParseError::new(disorder.clone()))
    );
    assert_eq!(parser.finish(), Err(ParseError::new(disorder.clone())));
    assert_eq!(parser.finish(), Err(ParseError::new(disorder)));
}

#[test]
fn going_through_the_rest_keeps_to_the_order() {
    let container = Bytes::from(vec![0x01u8, 0x02, 0x09, 0x05, 0x02, 0x07, 0x03, 0x02, 0x08]);
    let mut reader = BytesRef::new(&container);
    let mut parser = StructParser::new(&mut reader);
    assert_eq!(parser.read_value_for_field_id::<u8>(1), Ok(Some(9)));
    let disorder = ParseErrorKind::FieldOrderViolation { previous: 5, current: 3 };
    assert_eq!(parser.finish(), Err(ParseError::new(disorder.clone())));
    assert_eq!(parser.read_value_for_field_id::<u8>(3), Err(ParseError::new(disorder)));
}

#[test]
fn write_field_refuses_ids_with_high_bit() {
    let mut buffer = vec![0x01];
    assert_eq!(
        write_field(&mut buffer, 0x80, &5u32),
        Err(WriteError::new(WriteErrorKind::FieldIdTooLarge(0x80)))
    );
    assert_eq!(
        write_field(&mut buffer, 0xFF, &None::<u32>),
        Err(WriteError::new(WriteErrorKind::FieldIdTooLarge(0xFF)))
    );
    assert_eq!(
        write_variant(&mut buffer, 0x80, &5u32),
        Err(WriteError::new(WriteErrorKind::FieldIdTooLarge(0x80)))
    );
    assert_eq!(buffer, vec![0x01]);
    assert_eq!(write_field(&mut buffer, 0x7F, &5u8), Ok(()));
    assert_eq!(buffer, vec![0x01, 0x7F, 0x02, 0x05]);
    assert_eq!(write_field(&mut buffer, 0x01, &None::<u8>), Ok(()));
    assert_eq!(buffer.len(), 4);
}

#[test]
fn record_lengths() {
    assert_eq!(field_length(&5u32), 6);
    assert_eq!(field_length(&Some(5u16)), 4);
    assert_eq!(field_length(&None::<u16>), 0);
    assert_eq!(field_length(&"ab".to_string()), 5);
    assert_eq!(variant_length(&true), 3);
    assert_eq!(add_lengths(usize::MAX, 1), usize::MAX);
    assert_eq!(add_lengths(3, 4), 7);
}

#[derive(Debug, PartialEq)]
enum Shape {
    Circle(u32),
    Named(String),
}

impl Relish for Shape {
    const TYPE: TypeId = TypeId::Enum;

    fn parse_value(data: &mut BytesRef) -> ParseResult<Self> {
        let field_id = read_variant_id(data)?;
        match field_id {
            0 => Ok(Self::Circle(parse_variant::<u32>(data)?)),
            3 => Ok(Self::Named(parse_variant::<String>(data)?)),
            _ => Err(unknown_variant(field_id)),
        }
    }

    fn write_value(&self, buffer: &mut Vec<u8>) -> WriteResult<()> {
        let content_len = match self {
            Self::Circle(value) => variant_length(value),
            Self::Named(value) => variant_length(value),
        };
        write_tagged_varint_length(buffer, content_len)?;
        match self {
            Self::Circle(value) => write_variant(buffer, 0, value)?,
            Self::Named(value) => write_variant(buffer, 3, value)?,
        }
        Ok(())
    }

    fn value_length(&self) -> usize {
        let content_size = match self {
            Self::Circle(value) => variant_length(value),
            Self::Named(value) => variant_length(value),
        };
        add_lengths(tagged_varint_length_size(content_size), content_size)
    }
}

fn parse_shape(bytes: &[u8]) -> ParseResult<Shape> {
    parse::<Shape>(Bytes::from(bytes.to_vec()))
}

#[test]
fn enum_round_trip() {
    let shape = Shape::Named("ab".to_string());
    let bytes = to_vec(&shape).unwrap();
    assert_eq!(bytes, vec![0x12, 0x0A, 0x03, 0x0E, 0x04, b'a', b'b']);
    assert_eq!(parse_shape(&bytes), Ok(shape));
    assert_eq!(
        parse_shape(&[0x12, 0x0C, 0x00, 0x04, 0x2A, 0x00, 0x00, 0x00]),
        Ok(Shape::Circle(42))
    );
}

#[test]
fn enum_value_must_fill_its_content() {
    assert_eq!(
        parse_shape(&[0x12, 0x10, 0x00, 0x04, 0x2A, 0x00, 0x00, 0x00, 0x00, 0x00]),
        Err(ParseError::new(ParseErrorKind::ExtraData {
            bytes_remaining: 2
        }))
    );
}

#[test]
fn enum_variant_id_errors() {
    assert_eq!(
        parse_shape(&[0x12, 0x0C, 0x80, 0x04, 0x2A, 0x00, 0x00, 0x00]),
        Err(ParseError::new(ParseErrorKind::InvalidFieldId(0x80)))
    );
    assert_eq!(
        parse_shape(&[0x12, 0x0C, 0x01, 0x04, 0x2A, 0x00, 0x00, 0x00]),
        Err(ParseError::new(ParseErrorKind::UnknownVariant(1)))
    );
    assert_eq!(
        parse_shape(&[0x12, 0x00]),
        Err(ParseError::new(ParseErrorKind::InsufficientData {
            needed: 1,
            available: 0
        }))
    );
    assert_eq!(
        parse_shape(&[0x12, 0x06, 0x00, 0x01, 0xFF]),
        Err(ParseError::new(ParseErrorKind::TypeMismatch {
            expected: 0x04,
            actual: 0x01
        }))
    );
}

#[test]
fn end_of_reader() {
    let container = Bytes::from(vec![1u8]);
    let mut reader = BytesRef::new(&container);
    assert_eq!(
        expect_end(&reader),
        Err(ParseError::new(ParseErrorKind::ExtraData {
            bytes_remaining: 1
        }))
    );
    let _taken = reader.take_all();
    assert_eq!(expect_end(&reader), Ok(()));
}

#[test]
fn layout_puts_fields_in_id_order() {
    let markings = vec![
        Marking::Id(5),
        Marking::Skip,
        Marking::Id(0),
        Marking::Id(127),
        Marking::Id(3),
    ];
    assert_eq!(
        declared_ids(&markings),
        Ok(vec![(0, 5), (2, 0), (3, 127), (4, 3)])
    );
    assert_eq!(
        struct_layout(&markings),
        Ok(vec![(2, 0), (4, 3), (0, 5), (3, 127)])
    );
    assert_eq!(struct_layout(&vec![]), Ok(vec![]));
    assert_eq!(struct_layout(&vec![Marking::Skip]), Ok(vec![]));
    assert_eq!(order_by_id(&vec![(0, 255), (1, 0)]), Ok(vec![(1, 0), (0, 255)]));
}

#[test]
fn layout_refuses_bad_declarations() {
    assert_eq!(
        struct_layout(&vec![Marking::Id(1), Marking::Missing, Marking::Id(1)]),
        Err(SchemaError::MissingFieldId(1))
    );
    assert_eq!(
        struct_layout(&vec![Marking::Id(1), Marking::Id(0x80), Marking::Missing]),
        Err(SchemaError::FieldIdTooLarge(0x80))
    );
    assert_eq!(
        struct_layout(&vec![
            Marking::Id(9),
            Marking::Id(4),
            Marking::Id(9),
            Marking::Id(4)
        ]),
        Err(SchemaError::DuplicateFieldId(4))
    );
    assert_eq!(
        order_by_id(&vec![(0, 200), (1, 200)]),
        Err(SchemaError::DuplicateFieldId(200))
    );
}

#[test]
fn variants_hold_one_unnamed_field() {
    assert_eq!(
        check_variant(Marking::Id(3), VariantShape::Tuple(1), 0),
        Ok(3)
    );
    assert_eq!(
        check_variant(Marking::Id(3), VariantShape::Unit, 2),
        Err(SchemaError::UnitVariant(2))
    );
    assert_eq!(
        check_variant(Marking::Id(3), VariantShape::Named, 1),
        Err(SchemaError::NamedVariant(1))
    );
    assert_eq!(
        check_variant(Marking::Id(3), VariantShape::Tuple(2), 1),
        Err(SchemaError::WrongFieldCount(1, 2))
    );
    assert_eq!(
        check_variant(Marking::Id(3), VariantShape::Tuple(0), 1),
        Err(SchemaError::WrongFieldCount(1, 0))
    );
    assert_eq!(
        check_variant(Marking::Id(0x80), VariantShape::Tuple(1), 1),
        Err(SchemaError::FieldIdTooLarge(0x80))
    );
    assert_eq!(
        check_variant(Marking::Missing, VariantShape::Tuple(1), 4),
        Err(SchemaError::MissingFieldId(4))
    );
    assert_eq!(
        check_variant(Marking::Skip, VariantShape::Tuple(1), 4),
        Err(SchemaError::MissingFieldId(4))
    );
}

#[test]
fn attribute_words() {
    assert_eq!(read_marking("field_id = 0"), Ok(Marking::Id(0)));
    assert_eq!(read_marking("field_id = 5"), Ok(Marking::Id(5)));
    assert_eq!(read_marking("field_id =255"), Ok(Marking::Id(255)));
    assert_eq!(read_marking("field_id = \t 007 \n"), Ok(Marking::Id(7)));
    assert_eq!(read_marking("field_id = +12"), Ok(Marking::Id(12)));
    assert_eq!(read_marking("field_id = 128"), Ok(Marking::Id(128)));
    assert_eq!(read_marking("skip"), Ok(Marking::Skip));
    assert_eq!(read_marking(""), Ok(Marking::Missing));
    assert_eq!(read_marking("skip "), Ok(Marking::Missing));
    assert_eq!(read_marking("field_id"), Ok(Marking::Missing));
    assert_eq!(read_marking("field_id=3"), Ok(Marking::Missing));
    assert_eq!(read_marking("rename = 3"), Ok(Marking::Missing));
    for text in [
        "field_id =",
        "field_id = ",
        "field_id = 256",
        "field_id = 1000000000000000000000",
        "field_id = -1",
        "field_id = +",
        "field_id = 1 2",
        "field_id = 0x10",
        "field_id = five",
        "field_id = 5u8",
    ] {
        assert_eq!(read_marking(text), Err(SchemaError::InvalidFieldIdText));
        let rest = text.strip_prefix("field_id =").unwrap();
        assert!(rest.trim().parse::<u8>().is_err());
    }
    for n in 0..=255u16 {
        let text = format!("field_id = {n}");
        assert_eq!(read_marking(&text), Ok(Marking::Id(n as u8)));
    }
}

#[test]
fn several_attributes_of_one_field() {
    assert_eq!(combine_markings(&vec![], true), Marking::Missing);
    assert_eq!(combine_markings(&vec![Marking::Missing], true), Marking::Missing);
    assert_eq!(combine_markings(&vec![Marking::Id(3)], true), Marking::Id(3));
    assert_eq!(
        combine_markings(&vec![Marking::Id(3), Marking::Missing, Marking::Id(9)], true),
        Marking::Id(9)
    );
    assert_eq!(
        combine_markings(&vec![Marking::Id(9), Marking::Id(3), Marking::Missing], false),
        Marking::Id(3)
    );
    assert_eq!(
        combine_markings(&vec![Marking::Skip, Marking::Id(3)], true),
        Marking::Skip
    );
    assert_eq!(
        combine_markings(&vec![Marking::Id(3), Marking::Skip], true),
        Marking::Skip
    );
    assert_eq!(
        combine_markings(&vec![Marking::Id(3), Marking::Skip], false),
        Marking::Id(3)
    );
    assert_eq!(combine_markings(&vec![Marking::Skip], false), Marking::Missing);
    assert_eq!(combine_markings(&vec![Marking::Skip], true), Marking::Skip);
}
