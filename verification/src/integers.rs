//! The integers on the wire: each takes the bytes of its width, lowest
//! byte first; a signed integer in two's complement.

use crate::buf::{is_tail, lemma_tail_of_skip, BytesRef};
use crate::error::{ParseErrorKind, ParseResult, WriteResult};
use crate::le::{
    from_twos_complement, le_bytes, le_value, lemma_le_bytes_len, lemma_le_value_bound,
    lemma_le_value_of_bytes, lemma_pow256_values, pow256, read_le, twos_complement, write_le,
};
use crate::traits::{roundtrips, Relish};
use crate::type_id::TypeId;
use vstd::prelude::*;

verus! {

/// The reason why `content` is too short for a value of `width` bytes, if
/// it is.
pub open spec fn short_of(width: nat, content: Seq<u8>) -> Option<ParseErrorKind> {
    if content.len() < width {
        Some(
            ParseErrorKind::InsufficientData {
                needed: width as usize,
                available: content.len() as usize,
            },
        )
    } else {
        None
    }
}

/// The number that the first `width` bytes of `content` spell.
pub open spec fn leading_value(width: nat, content: Seq<u8>) -> nat {
    le_value(content.subrange(0, width as int))
}

/// Reads the number that the next `width` bytes spell, lowest byte first.
/// With fewer bytes left nothing is read.
pub fn parse_unsigned(data: &mut BytesRef, width: usize) -> (r: ParseResult<u128>)
    requires
        width <= 16,
    ensures
        match r {
            Ok(value) => {
                &&& short_of(width as nat, old(data)@) is None
                &&& value == leading_value(width as nat, old(data)@)
                &&& value < pow256(width as nat)
                &&& final(data)@ == old(data)@.skip(width as int)
            },
            Err(e) => {
                &&& short_of(width as nat, old(data)@) == Some(*e.kind())
                &&& final(data)@ == old(data)@
            },
        },
        is_tail(final(data)@, old(data)@),
{
    proof {
        lemma_tail_of_skip(old(data)@, 0);
        if width <= old(data)@.len() {
            lemma_tail_of_skip(old(data)@, width as int);
        }
    }
    let bytes = data.read(width)?;
    proof {
        lemma_le_value_bound(bytes@);
    }
    Ok(read_le(bytes.as_slice()))
}

/// The signed number that `value` stands for in two's complement on
/// `width` bytes.
pub fn signed_of(value: u128, width: usize) -> (r: i128)
    requires
        width == 1 || width == 2 || width == 4 || width == 8 || width == 16,
        value < pow256(width as nat),
    ensures
        r == from_twos_complement(value as nat, width as nat),
        -(pow256(width as nat) as int) <= 2 * r < pow256(width as nat),
{
    proof {
        lemma_pow256_values();
    }
    if width == 16 {
        if value < 0x8000_0000_0000_0000_0000_0000_0000_0000 {
            value as i128
        } else {
            let low: u128 = value - 0x8000_0000_0000_0000_0000_0000_0000_0000;
            (low as i128) + i128::MIN
        }
    } else {
        let modulus: u128 = if width == 1 {
            0x100
        } else if width == 2 {
            0x1_0000
        } else if width == 4 {
            0x1_0000_0000
        } else {
            0x1_0000_0000_0000_0000
        };
        if value < modulus / 2 {
            value as i128
        } else {
            (value as i128) - (modulus as i128)
        }
    }
}

/// The unsigned number whose `width` bytes are the two's complement form
/// of `value`.
pub fn unsigned_of(value: i128, width: usize) -> (r: u128)
    requires
        width == 1 || width == 2 || width == 4 || width == 8 || width == 16,
        -(pow256(width as nat) as int) <= 2 * value < pow256(width as nat),
    ensures
        r == twos_complement(value as int, width as nat),
        r < pow256(width as nat),
{
    proof {
        lemma_pow256_values();
    }
    if value >= 0 {
        value as u128
    } else if width == 16 {
        let low: i128 = (value + i128::MAX) + 1;
        (low as u128) + 0x8000_0000_0000_0000_0000_0000_0000_0000
    } else {
        let modulus: i128 = if width == 1 {
            0x100
        } else if width == 2 {
            0x1_0000
        } else if width == 4 {
            0x1_0000_0000
        } else {
            0x1_0000_0000_0000_0000
        };
        (value + modulus) as u128
    }
}

/// `u8`: one byte.
impl Relish for u8 {
    const TYPE: TypeId = TypeId::U8;

    open spec fn obeys_wire_spec() -> bool {
        true
    }

    open spec fn content(&self) -> Seq<u8> {
        le_bytes(*self as nat, 1)
    }

    open spec fn write_error(&self) -> Option<crate::error::WriteErrorKind> {
        None
    }

    open spec fn parse_error(content: Seq<u8>) -> Option<ParseErrorKind> {
        short_of(1, content)
    }

    open spec fn parsed(content: Seq<u8>, value: &Self) -> bool {
        *value as nat == leading_value(1, content)
    }

    fn parse_value(data: &mut BytesRef) -> (r: ParseResult<Self>) {
        let value = parse_unsigned(data, 1)?;
        proof {
            lemma_pow256_values();
        }
        Ok(value as u8)
    }

    fn write_value(&self, buffer: &mut Vec<u8>) -> (r: WriteResult<()>) {
        write_le(buffer, *self as u128, 1);
        Ok(())
    }

    fn value_length(&self) -> (n: usize) {
        proof {
            lemma_le_bytes_len(*self as nat, 1);
        }
        1
    }
}

/// `u16`: two bytes.
impl Relish for u16 {
    const TYPE: TypeId = TypeId::U16;

    open spec fn obeys_wire_spec() -> bool {
        true
    }

    open spec fn content(&self) -> Seq<u8> {
        le_bytes(*self as nat, 2)
    }

    open spec fn write_error(&self) -> Option<crate::error::WriteErrorKind> {
        None
    }

    open spec fn parse_error(content: Seq<u8>) -> Option<ParseErrorKind> {
        short_of(2, content)
    }

    open spec fn parsed(content: Seq<u8>, value: &Self) -> bool {
        *value as nat == leading_value(2, content)
    }

    fn parse_value(data: &mut BytesRef) -> (r: ParseResult<Self>) {
        let value = parse_unsigned(data, 2)?;
        proof {
            lemma_pow256_values();
        }
        Ok(value as u16)
    }

    fn write_value(&self, buffer: &mut Vec<u8>) -> (r: WriteResult<()>) {
        write_le(buffer, *self as u128, 2);
        Ok(())
    }

    fn value_length(&self) -> (n: usize) {
        proof {
            lemma_le_bytes_len(*self as nat, 2);
        }
        2
    }
}

/// `u32`: four bytes.
impl Relish for u32 {
    const TYPE: TypeId = TypeId::U32;

    open spec fn obeys_wire_spec() -> bool {
        true
    }

    open spec fn content(&self) -> Seq<u8> {
        le_bytes(*self as nat, 4)
    }

    open spec fn write_error(&self) -> Option<crate::error::WriteErrorKind> {
        None
    }

    open spec fn parse_error(content: Seq<u8>) -> Option<ParseErrorKind> {
        short_of(4, content)
    }

    open spec fn parsed(content: Seq<u8>, value: &Self) -> bool {
        *value as nat == leading_value(4, content)
    }

    fn parse_value(data: &mut BytesRef) -> (r: ParseResult<Self>) {
        let value = parse_unsigned(data, 4)?;
        proof {
            lemma_pow256_values();
        }
        Ok(value as u32)
    }

    fn write_value(&self, buffer: &mut Vec<u8>) -> (r: WriteResult<()>) {
        write_le(buffer, *self as u128, 4);
        Ok(())
    }

    fn value_length(&self) -> (n: usize) {
        proof {
            lemma_le_bytes_len(*self as nat, 4);
        }
        4
    }
}

/// `u64`: eight bytes.
impl Relish for u64 {
    const TYPE: TypeId = TypeId::U64;

    open spec fn obeys_wire_spec() -> bool {
        true
    }

    open spec fn content(&self) -> Seq<u8> {
        le_bytes(*self as nat, 8)
    }

    open spec fn write_error(&self) -> Option<crate::error::WriteErrorKind> {
        None
    }

    open spec fn parse_error(content: Seq<u8>) -> Option<ParseErrorKind> {
        short_of(8, content)
    }

    open spec fn parsed(content: Seq<u8>, value: &Self) -> bool {
        *value as nat == leading_value(8, content)
    }

    fn parse_value(data: &mut BytesRef) -> (r: ParseResult<Self>) {
        let value = parse_unsigned(data, 8)?;
        proof {
            lemma_pow256_values();
        }
        Ok(value as u64)
    }

    fn write_value(&self, buffer: &mut Vec<u8>) -> (r: WriteResult<()>) {
        write_le(buffer, *self as u128, 8);
        Ok(())
    }

    fn value_length(&self) -> (n: usize) {
        proof {
            lemma_le_bytes_len(*self as nat, 8);
        }
        8
    }
}

/// `u128`: sixteen bytes.
impl Relish for u128 {
    const TYPE: TypeId = TypeId::U128;

    open spec fn obeys_wire_spec() -> bool {
        true
    }

    open spec fn content(&self) -> Seq<u8> {
        le_bytes(*self as nat, 16)
    }

    open spec fn write_error(&self) -> Option<crate::error::WriteErrorKind> {
        None
    }

    open spec fn parse_error(content: Seq<u8>) -> Option<ParseErrorKind> {
        short_of(16, content)
    }

    open spec fn parsed(content: Seq<u8>, value: &Self) -> bool {
        *value as nat == leading_value(16, content)
    }

    fn parse_value(data: &mut BytesRef) -> (r: ParseResult<Self>) {
        let value = parse_unsigned(data, 16)?;
        proof {
            lemma_pow256_values();
        }
        Ok(value as u128)
    }

    fn write_value(&self, buffer: &mut Vec<u8>) -> (r: WriteResult<()>) {
        write_le(buffer, *self as u128, 16);
        Ok(())
    }

    fn value_length(&self) -> (n: usize) {
        proof {
            lemma_le_bytes_len(*self as nat, 16);
        }
        16
    }
}

/// `i8`: one byte, two's complement.
impl Relish for i8 {
    const TYPE: TypeId = TypeId::I8;

    open spec fn obeys_wire_spec() -> bool {
        true
    }

    open spec fn content(&self) -> Seq<u8> {
        le_bytes(twos_complement(*self as int, 1), 1)
    }

    open spec fn write_error(&self) -> Option<crate::error::WriteErrorKind> {
        None
    }

    open spec fn parse_error(content: Seq<u8>) -> Option<ParseErrorKind> {
        short_of(1, content)
    }

    open spec fn parsed(content: Seq<u8>, value: &Self) -> bool {
        *value as int == from_twos_complement(leading_value(1, content), 1)
    }

    fn parse_value(data: &mut BytesRef) -> (r: ParseResult<Self>) {
        let value = parse_unsigned(data, 1)?;
        proof {
            lemma_pow256_values();
        }
        Ok(signed_of(value, 1) as i8)
    }

    fn write_value(&self, buffer: &mut Vec<u8>) -> (r: WriteResult<()>) {
        proof {
            lemma_pow256_values();
        }
        write_le(buffer, unsigned_of(*self as i128, 1), 1);
        Ok(())
    }

    fn value_length(&self) -> (n: usize) {
        proof {
            lemma_le_bytes_len(twos_complement(*self as int, 1), 1);
        }
        1
    }
}

/// `i16`: two bytes, two's complement.
impl Relish for i16 {
    const TYPE: TypeId = TypeId::I16;

    open spec fn obeys_wire_spec() -> bool {
        true
    }

    open spec fn content(&self) -> Seq<u8> {
        le_bytes(twos_complement(*self as int, 2), 2)
    }

    open spec fn write_error(&self) -> Option<crate::error::WriteErrorKind> {
        None
    }

    open spec fn parse_error(content: Seq<u8>) -> Option<ParseErrorKind> {
        short_of(2, content)
    }

    open spec fn parsed(content: Seq<u8>, value: &Self) -> bool {
        *value as int == from_twos_complement(leading_value(2, content), 2)
    }

    fn parse_value(data: &mut BytesRef) -> (r: ParseResult<Self>) {
        let value = parse_unsigned(data, 2)?;
        proof {
            lemma_pow256_values();
        }
        Ok(signed_of(value, 2) as i16)
    }

    fn write_value(&self, buffer: &mut Vec<u8>) -> (r: WriteResult<()>) {
        proof {
            lemma_pow256_values();
        }
        write_le(buffer, unsigned_of(*self as i128, 2), 2);
        Ok(())
    }

    fn value_length(&self) -> (n: usize) {
        proof {
            lemma_le_bytes_len(twos_complement(*self as int, 2), 2);
        }
        2
    }
}

/// `i32`: four bytes, two's complement.
impl Relish for i32 {
    const TYPE: TypeId = TypeId::I32;

    open spec fn obeys_wire_spec() -> bool {
        true
    }

    open spec fn content(&self) -> Seq<u8> {
        le_bytes(twos_complement(*self as int, 4), 4)
    }

    open spec fn write_error(&self) -> Option<crate::error::WriteErrorKind> {
        None
    }

    open spec fn parse_error(content: Seq<u8>) -> Option<ParseErrorKind> {
        short_of(4, content)
    }

    open spec fn parsed(content: Seq<u8>, value: &Self) -> bool {
        *value as int == from_twos_complement(leading_value(4, content), 4)
    }

    fn parse_value(data: &mut BytesRef) -> (r: ParseResult<Self>) {
        let value = parse_unsigned(data, 4)?;
        proof {
            lemma_pow256_values();
        }
        Ok(signed_of(value, 4) as i32)
    }

    fn write_value(&self, buffer: &mut Vec<u8>) -> (r: WriteResult<()>) {
        proof {
            lemma_pow256_values();
        }
        write_le(buffer, unsigned_of(*self as i128, 4), 4);
        Ok(())
    }

    fn value_length(&self) -> (n: usize) {
        proof {
            lemma_le_bytes_len(twos_complement(*self as int, 4), 4);
        }
        4
    }
}

/// `i64`: eight bytes, two's complement.
impl Relish for i64 {
    const TYPE: TypeId = TypeId::I64;

    open spec fn obeys_wire_spec() -> bool {
        true
    }

    open spec fn content(&self) -> Seq<u8> {
        le_bytes(twos_complement(*self as int, 8), 8)
    }

    open spec fn write_error(&self) -> Option<crate::error::WriteErrorKind> {
        None
    }

    open spec fn parse_error(content: Seq<u8>) -> Option<ParseErrorKind> {
        short_of(8, content)
    }

    open spec fn parsed(content: Seq<u8>, value: &Self) -> bool {
        *value as int == from_twos_complement(leading_value(8, content), 8)
    }

    fn parse_value(data: &mut BytesRef) -> (r: ParseResult<Self>) {
        let value = parse_unsigned(data, 8)?;
        proof {
            lemma_pow256_values();
        }
        Ok(signed_of(value, 8) as i64)
    }

    fn write_value(&self, buffer: &mut Vec<u8>) -> (r: WriteResult<()>) {
        proof {
            lemma_pow256_values();
        }
        write_le(buffer, unsigned_of(*self as i128, 8), 8);
        Ok(())
    }

    fn value_length(&self) -> (n: usize) {
        proof {
            lemma_le_bytes_len(twos_complement(*self as int, 8), 8);
        }
        8
    }
}

/// `i128`: sixteen bytes, two's complement.
impl Relish for i128 {
    const TYPE: TypeId = TypeId::I128;

    open spec fn obeys_wire_spec() -> bool {
        true
    }

    open spec fn content(&self) -> Seq<u8> {
        le_bytes(twos_complement(*self as int, 16), 16)
    }

    open spec fn write_error(&self) -> Option<crate::error::WriteErrorKind> {
        None
    }

    open spec fn parse_error(content: Seq<u8>) -> Option<ParseErrorKind> {
        short_of(16, content)
    }

    open spec fn parsed(content: Seq<u8>, value: &Self) -> bool {
        *value as int == from_twos_complement(leading_value(16, content), 16)
    }

    fn parse_value(data: &mut BytesRef) -> (r: ParseResult<Self>) {
        let value = parse_unsigned(data, 16)?;
        proof {
            lemma_pow256_values();
        }
        Ok(signed_of(value, 16) as i128)
    }

    fn write_value(&self, buffer: &mut Vec<u8>) -> (r: WriteResult<()>) {
        proof {
            lemma_pow256_values();
        }
        write_le(buffer, unsigned_of(*self as i128, 16), 16);
        Ok(())
    }

    fn value_length(&self) -> (n: usize) {
        proof {
            lemma_le_bytes_len(twos_complement(*self as int, 16), 16);
        }
        16
    }
}

/// An unsigned number that fits its width is read back from its bytes,
/// whatever follows them.
pub proof fn lemma_unsigned_roundtrip(value: nat, width: nat, rest: Seq<u8>)
    requires
        value < pow256(width),
    ensures
        le_bytes(value, width).len() == width,
        short_of(width, le_bytes(value, width) + rest) is None,
        leading_value(width, le_bytes(value, width) + rest) == value,
{
    let bytes = le_bytes(value, width);
    lemma_le_bytes_len(value, width);
    lemma_le_value_of_bytes(value, width);
    assert((bytes + rest).subrange(0, width as int) =~= bytes);
}

/// Decoding undoes encoding at every integer of the ten integer types.
pub proof fn lemma_integers_roundtrip()
    ensures
        forall|v: u8| #[trigger] roundtrips(v),
        forall|v: u16| #[trigger] roundtrips(v),
        forall|v: u32| #[trigger] roundtrips(v),
        forall|v: u64| #[trigger] roundtrips(v),
        forall|v: u128| #[trigger] roundtrips(v),
        forall|v: i8| #[trigger] roundtrips(v),
        forall|v: i16| #[trigger] roundtrips(v),
        forall|v: i32| #[trigger] roundtrips(v),
        forall|v: i64| #[trigger] roundtrips(v),
        forall|v: i128| #[trigger] roundtrips(v),
{
    lemma_pow256_values();
    assert forall|v: u8| #[trigger] roundtrips(v) by {
        lemma_unsigned_roundtrip(v as nat, 1, Seq::empty());
        assert(le_bytes(v as nat, 1) + Seq::<u8>::empty() =~= le_bytes(v as nat, 1));
    }
    assert forall|v: u16| #[trigger] roundtrips(v) by {
        lemma_unsigned_roundtrip(v as nat, 2, Seq::empty());
        assert(le_bytes(v as nat, 2) + Seq::<u8>::empty() =~= le_bytes(v as nat, 2));
    }
    assert forall|v: u32| #[trigger] roundtrips(v) by {
        lemma_unsigned_roundtrip(v as nat, 4, Seq::empty());
        assert(le_bytes(v as nat, 4) + Seq::<u8>::empty() =~= le_bytes(v as nat, 4));
    }
    assert forall|v: u64| #[trigger] roundtrips(v) by {
        lemma_unsigned_roundtrip(v as nat, 8, Seq::empty());
        assert(le_bytes(v as nat, 8) + Seq::<u8>::empty() =~= le_bytes(v as nat, 8));
    }
    assert forall|v: u128| #[trigger] roundtrips(v) by {
        lemma_unsigned_roundtrip(v as nat, 16, Seq::empty());
        assert(le_bytes(v as nat, 16) + Seq::<u8>::empty() =~= le_bytes(v as nat, 16));
    }
    assert forall|v: i8| #[trigger] roundtrips(v) by {
        let u = twos_complement(v as int, 1);
        lemma_unsigned_roundtrip(u, 1, Seq::empty());
        assert(le_bytes(u, 1) + Seq::<u8>::empty() =~= le_bytes(u, 1));
    }
    assert forall|v: i16| #[trigger] roundtrips(v) by {
        let u = twos_complement(v as int, 2);
        lemma_unsigned_roundtrip(u, 2, Seq::empty());
        assert(le_bytes(u, 2) + Seq::<u8>::empty() =~= le_bytes(u, 2));
    }
    assert forall|v: i32| #[trigger] roundtrips(v) by {
        let u = twos_complement(v as int, 4);
        lemma_unsigned_roundtrip(u, 4, Seq::empty());
        assert(le_bytes(u, 4) + Seq::<u8>::empty() =~= le_bytes(u, 4));
    }
    assert forall|v: i64| #[trigger] roundtrips(v) by {
        let u = twos_complement(v as int, 8);
        lemma_unsigned_roundtrip(u, 8, Seq::empty());
        assert(le_bytes(u, 8) + Seq::<u8>::empty() =~= le_bytes(u, 8));
    }
    assert forall|v: i128| #[trigger] roundtrips(v) by {
        let u = twos_complement(v as int, 16);
        lemma_unsigned_roundtrip(u, 16, Seq::empty());
        assert(le_bytes(u, 16) + Seq::<u8>::empty() =~= le_bytes(u, 16));
    }
}

/// The wire types of the ten integer types.
pub proof fn lemma_integer_wire_types()
    ensures
        <u8 as Relish>::TYPE == TypeId::U8,
        <u16 as Relish>::TYPE == TypeId::U16,
        <u32 as Relish>::TYPE == TypeId::U32,
        <u64 as Relish>::TYPE == TypeId::U64,
        <u128 as Relish>::TYPE == TypeId::U128,
        <i8 as Relish>::TYPE == TypeId::I8,
        <i16 as Relish>::TYPE == TypeId::I16,
        <i32 as Relish>::TYPE == TypeId::I32,
        <i64 as Relish>::TYPE == TypeId::I64,
        <i128 as Relish>::TYPE == TypeId::I128,
{
}

} // verus!
