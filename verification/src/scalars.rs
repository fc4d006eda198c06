//! The scalar types that are no integers: null, bool, the two
//! floating-point widths as bit patterns, and text.

use crate::buf::{is_tail, lemma_tail_of_skip, BytesRef};
use crate::error::{ParseError, ParseErrorKind, ParseResult, WriteErrorKind, WriteResult};
use crate::integers::{leading_value, lemma_unsigned_roundtrip, parse_unsigned, short_of};
use crate::le::{le_bytes, lemma_le_bytes_len, lemma_pow256_values, write_le};
use crate::traits::{add_lengths, lemma_prefix_of_sum, roundtrips, Relish};
use crate::type_id::TypeId;
use crate::varint::{
    tagged_varint_length_size, varint_bytes, write_tagged_varint_length, MAX_CONTENT_LENGTH,
};
use std::sync::Arc;
use vstd::prelude::*;
use vstd::slice::slice_to_vec;
use vstd::utf8::{decode_utf8, encode_utf8, valid_utf8};

verus! {

/// Appends the bytes of a slice.
pub fn append_bytes(buffer: &mut Vec<u8>, bytes: &[u8])
    ensures
        final(buffer)@ == old(buffer)@ + bytes@,
{
    buffer.extend_from_slice(bytes);
    proof {
        assert(buffer@ =~= old(buffer)@ + bytes@);
    }
}

/// The null value: it has no content.
#[derive(Debug, Clone, Copy, PartialEq, Eq, Structural)]
pub struct Null;

impl Relish for Null {
    const TYPE: TypeId = TypeId::Null;

    open spec fn obeys_wire_spec() -> bool {
        true
    }

    open spec fn content(&self) -> Seq<u8> {
        Seq::empty()
    }

    open spec fn write_error(&self) -> Option<WriteErrorKind> {
        None
    }

    open spec fn parse_error(content: Seq<u8>) -> Option<ParseErrorKind> {
        None
    }

    open spec fn parsed(content: Seq<u8>, value: &Self) -> bool {
        true
    }

    fn parse_value(data: &mut BytesRef) -> (r: ParseResult<Self>) {
        proof {
            lemma_tail_of_skip(data@, 0);
        }
        Ok(Null)
    }

    fn write_value(&self, buffer: &mut Vec<u8>) -> (r: WriteResult<()>) {
        proof {
            assert(buffer@ =~= old(buffer)@ + Seq::<u8>::empty());
        }
        Ok(())
    }

    fn value_length(&self) -> (n: usize) {
        0
    }
}

/// The byte that stands for a bool.
pub open spec fn bool_byte(b: bool) -> u8 {
    if b {
        0xFF
    } else {
        0x00
    }
}

/// `bool`: one byte, `0x00` for false and `0xFF` for true. No other byte
/// is a bool.
impl Relish for bool {
    const TYPE: TypeId = TypeId::Bool;

    open spec fn obeys_wire_spec() -> bool {
        true
    }

    open spec fn content(&self) -> Seq<u8> {
        seq![bool_byte(*self)]
    }

    open spec fn write_error(&self) -> Option<WriteErrorKind> {
        None
    }

    open spec fn parse_error(content: Seq<u8>) -> Option<ParseErrorKind> {
        if content.len() == 0 {
            Some(ParseErrorKind::InsufficientData { needed: 1, available: 0 })
        } else if content[0] != 0x00 && content[0] != 0xFF {
            Some(ParseErrorKind::InvalidBoolValue(content[0]))
        } else {
            None
        }
    }

    open spec fn parsed(content: Seq<u8>, value: &Self) -> bool {
        *value == (content[0] == 0xFF)
    }

    fn parse_value(data: &mut BytesRef) -> (r: ParseResult<Self>) {
        proof {
            lemma_tail_of_skip(data@, 0);
        }
        match data.peek_byte() {
            None => Err(
                ParseError::new(ParseErrorKind::InsufficientData { needed: 1, available: 0 }),
            ),
            Some(0x00) => Ok(false),
            Some(0xFF) => Ok(true),
            Some(b) => Err(ParseError::new(ParseErrorKind::InvalidBoolValue(b))),
        }
    }

    fn write_value(&self, buffer: &mut Vec<u8>) -> (r: WriteResult<()>) {
        buffer.push(if *self { 0xFF } else { 0x00 });
        proof {
            assert(buffer@ =~= old(buffer)@ + seq![bool_byte(*self)]);
        }
        Ok(())
    }

    fn value_length(&self) -> (n: usize) {
        1
    }
}

/// A single-precision floating-point number, held as its bit pattern.
/// Two of them are equal when their bits are.
#[derive(Debug, Clone, Copy, PartialEq, Eq, Structural, Hash)]
pub struct Float32 {
    bits: u32,
}

impl Float32 {
    /// The bit pattern, for use in contracts.
    pub closed spec fn spec_bits(self) -> u32 {
        self.bits
    }

    /// The number with the given bit pattern.
    pub fn from_bits(bits: u32) -> (r: Self)
        ensures
            r.to_bits() == bits,
    {
        Float32 { bits }
    }

    /// The bit pattern of the number.
    #[verifier::when_used_as_spec(spec_bits)]
    pub fn to_bits(self) -> (bits: u32)
        ensures
            bits == self.to_bits(),
    {
        self.bits
    }

    /// A number is nothing but its bits.
    pub proof fn lemma_bits_determine(a: Self, b: Self)
        requires
            a.to_bits() == b.to_bits(),
        ensures
            a == b,
    {
    }
}

/// A single-precision number: the four bytes of its bit pattern.
impl Relish for Float32 {
    const TYPE: TypeId = TypeId::F32;

    open spec fn obeys_wire_spec() -> bool {
        true
    }

    open spec fn content(&self) -> Seq<u8> {
        le_bytes(self.to_bits() as nat, 4)
    }

    open spec fn write_error(&self) -> Option<WriteErrorKind> {
        None
    }

    open spec fn parse_error(content: Seq<u8>) -> Option<ParseErrorKind> {
        short_of(4, content)
    }

    open spec fn parsed(content: Seq<u8>, value: &Self) -> bool {
        value.to_bits() as nat == leading_value(4, content)
    }

    fn parse_value(data: &mut BytesRef) -> (r: ParseResult<Self>) {
        let value = parse_unsigned(data, 4)?;
        proof {
            lemma_pow256_values();
        }
        Ok(Float32::from_bits(value as u32))
    }

    fn write_value(&self, buffer: &mut Vec<u8>) -> (r: WriteResult<()>) {
        write_le(buffer, self.bits as u128, 4);
        Ok(())
    }

    fn value_length(&self) -> (n: usize) {
        proof {
            lemma_le_bytes_len(self.to_bits() as nat, 4);
        }
        4
    }
}

/// A double-precision floating-point number, held as its bit pattern.
/// Two of them are equal when their bits are.
#[derive(Debug, Clone, Copy, PartialEq, Eq, Structural, Hash)]
pub struct Float64 {
    bits: u64,
}

impl Float64 {
    /// The bit pattern, for use in contracts.
    pub closed spec fn spec_bits(self) -> u64 {
        self.bits
    }

    /// The number with the given bit pattern.
    pub fn from_bits(bits: u64) -> (r: Self)
        ensures
            r.to_bits() == bits,
    {
        Float64 { bits }
    }

    /// The bit pattern of the number.
    #[verifier::when_used_as_spec(spec_bits)]
    pub fn to_bits(self) -> (bits: u64)
        ensures
            bits == self.to_bits(),
    {
        self.bits
    }

    /// A number is nothing but its bits.
    pub proof fn lemma_bits_determine(a: Self, b: Self)
        requires
            a.to_bits() == b.to_bits(),
        ensures
            a == b,
    {
    }
}

/// A double-precision number: the eight bytes of its bit pattern.
impl Relish for Float64 {
    const TYPE: TypeId = TypeId::F64;

    open spec fn obeys_wire_spec() -> bool {
        true
    }

    open spec fn content(&self) -> Seq<u8> {
        le_bytes(self.to_bits() as nat, 8)
    }

    open spec fn write_error(&self) -> Option<WriteErrorKind> {
        None
    }

    open spec fn parse_error(content: Seq<u8>) -> Option<ParseErrorKind> {
        short_of(8, content)
    }

    open spec fn parsed(content: Seq<u8>, value: &Self) -> bool {
        value.to_bits() as nat == leading_value(8, content)
    }

    fn parse_value(data: &mut BytesRef) -> (r: ParseResult<Self>) {
        let value = parse_unsigned(data, 8)?;
        proof {
            lemma_pow256_values();
        }
        Ok(Float64::from_bits(value as u64))
    }

    fn write_value(&self, buffer: &mut Vec<u8>) -> (r: WriteResult<()>) {
        write_le(buffer, self.bits as u128, 8);
        Ok(())
    }

    fn value_length(&self) -> (n: usize) {
        proof {
            lemma_le_bytes_len(self.to_bits() as nat, 8);
        }
        8
    }
}

/// `String::from_utf8`: the text that the bytes spell in UTF-8. Trusted: the
/// call succeeds exactly on valid UTF-8, and the text it returns is the
/// decoding of the bytes.
#[verifier::external_body]
pub(crate) fn string_from_utf8(bytes: Vec<u8>) -> (r: Option<String>)
    ensures
        r is Some <==> valid_utf8(bytes@),
        r matches Some(s) ==> s@ == decode_utf8(bytes@),
{
    String::from_utf8(bytes).ok()
}

/// `Arc::from` on a string slice: a shared copy of the text. Trusted: the
/// copy holds the same text.
#[verifier::external_body]
pub(crate) fn arc_from_str(s: &str) -> (r: Arc<str>)
    ensures
        (*r)@ == s@,
{
    Arc::from(s)
}

/// The reason why a content of `length` bytes cannot be written, if there
/// is one.
pub open spec fn too_large(length: nat) -> Option<WriteErrorKind> {
    if length > MAX_CONTENT_LENGTH {
        Some(WriteErrorKind::ContentTooLarge(crate::traits::clamp_length(length)))
    } else {
        None
    }
}

/// The reason why `content` is no text, if there is one.
pub open spec fn text_error(content: Seq<u8>) -> Option<ParseErrorKind> {
    if valid_utf8(content) {
        None
    } else {
        Some(ParseErrorKind::InvalidUtf8)
    }
}

/// Decodes the whole of what is left as text.
pub fn parse_text(data: &mut BytesRef) -> (r: ParseResult<String>)
    ensures
        match r {
            Ok(s) => text_error(old(data)@) is None && s@ == decode_utf8(old(data)@),
            Err(e) => text_error(old(data)@) == Some(*e.kind()),
        },
        final(data)@ == old(data)@,
        is_tail(final(data)@, old(data)@),
{
    proof {
        lemma_tail_of_skip(data@, 0);
    }
    match string_from_utf8(slice_to_vec(data.as_slice())) {
        Some(s) => Ok(s),
        None => Err(ParseError::new(ParseErrorKind::InvalidUtf8)),
    }
}

/// Appends text as a payload: the length prefix, then the bytes.
pub fn write_text(text: &str, buffer: &mut Vec<u8>) -> (r: WriteResult<()>)
    ensures
        match r {
            Ok(()) => too_large(encode_utf8(text@).len()) is None && final(buffer)@ == old(
                buffer,
            )@ + varint_bytes(encode_utf8(text@).len()) + encode_utf8(text@),
            Err(e) => too_large(encode_utf8(text@).len()) == Some(*e.kind()),
        },
        old(buffer)@.is_prefix_of(final(buffer)@),
{
    let bytes = text.as_bytes();
    let len = bytes.len();
    proof {
        lemma_prefix_of_sum(old(buffer)@, Seq::empty());
    }
    write_tagged_varint_length(buffer, len)?;
    buffer.reserve(len);
    append_bytes(buffer, bytes);
    proof {
        lemma_prefix_of_sum(old(buffer)@, varint_bytes(len as nat) + bytes@);
        assert(buffer@ =~= old(buffer)@ + (varint_bytes(len as nat) + bytes@));
    }
    Ok(())
}

/// The number of bytes that text takes as a payload.
pub fn text_length(text: &str) -> (n: usize)
    ensures
        n == crate::traits::clamp_length(
            (varint_bytes(encode_utf8(text@).len()) + encode_utf8(text@)).len(),
        ),
{
    let len = text.as_bytes().len();
    proof {
        crate::varint::lemma_varint_size(len as nat);
    }
    add_lengths(tagged_varint_length_size(len), len)
}

/// Text: its UTF-8 bytes.
impl Relish for String {
    const TYPE: TypeId = TypeId::String;

    open spec fn obeys_wire_spec() -> bool {
        true
    }

    open spec fn content(&self) -> Seq<u8> {
        encode_utf8(self@)
    }

    open spec fn write_error(&self) -> Option<WriteErrorKind> {
        too_large(encode_utf8(self@).len())
    }

    open spec fn parse_error(content: Seq<u8>) -> Option<ParseErrorKind> {
        text_error(content)
    }

    open spec fn parsed(content: Seq<u8>, value: &Self) -> bool {
        value@ == decode_utf8(content)
    }

    fn parse_value(data: &mut BytesRef) -> (r: ParseResult<Self>) {
        parse_text(data)
    }

    fn write_value(&self, buffer: &mut Vec<u8>) -> (r: WriteResult<()>) {
        write_text(self.as_str(), buffer)
    }

    fn value_length(&self) -> (n: usize) {
        text_length(self.as_str())
    }
}

/// Shared text: its UTF-8 bytes, as for [`String`].
impl Relish for Arc<str> {
    const TYPE: TypeId = TypeId::String;

    open spec fn obeys_wire_spec() -> bool {
        true
    }

    open spec fn content(&self) -> Seq<u8> {
        encode_utf8((**self)@)
    }

    open spec fn write_error(&self) -> Option<WriteErrorKind> {
        too_large(encode_utf8((**self)@).len())
    }

    open spec fn parse_error(content: Seq<u8>) -> Option<ParseErrorKind> {
        text_error(content)
    }

    open spec fn parsed(content: Seq<u8>, value: &Self) -> bool {
        (**value)@ == decode_utf8(content)
    }

    fn parse_value(data: &mut BytesRef) -> (r: ParseResult<Self>) {
        let s = parse_text(data)?;
        Ok(arc_from_str(s.as_str()))
    }

    fn write_value(&self, buffer: &mut Vec<u8>) -> (r: WriteResult<()>) {
        write_text(&**self, buffer)
    }

    fn value_length(&self) -> (n: usize) {
        text_length(&**self)
    }
}

/// The wire types of the scalar types of this module.
pub proof fn lemma_scalar_wire_types()
    ensures
        <Null as Relish>::TYPE == TypeId::Null,
        <bool as Relish>::TYPE == TypeId::Bool,
        <Float32 as Relish>::TYPE == TypeId::F32,
        <Float64 as Relish>::TYPE == TypeId::F64,
        <String as Relish>::TYPE == TypeId::String,
        <Arc<str> as Relish>::TYPE == TypeId::String,
{
}

/// Decoding undoes encoding at null, at both bools, at every bit pattern
/// of the two floating-point widths and at every text.
pub proof fn lemma_scalars_roundtrip()
    ensures
        forall|v: Null| #[trigger] roundtrips(v),
        forall|v: bool| #[trigger] roundtrips(v),
        forall|v: Float32| #[trigger] roundtrips(v),
        forall|v: Float64| #[trigger] roundtrips(v),
        forall|v: String| #[trigger] roundtrips(v),
        forall|v: Arc<str>| #[trigger] roundtrips(v),
{
    lemma_pow256_values();
    assert forall|v: Float32| #[trigger] roundtrips(v) by {
        lemma_unsigned_roundtrip(v.to_bits() as nat, 4, Seq::empty());
        assert(le_bytes(v.to_bits() as nat, 4) + Seq::<u8>::empty() =~= le_bytes(
            v.to_bits() as nat,
            4,
        ));
    }
    assert forall|v: Float64| #[trigger] roundtrips(v) by {
        lemma_unsigned_roundtrip(v.to_bits() as nat, 8, Seq::empty());
        assert(le_bytes(v.to_bits() as nat, 8) + Seq::<u8>::empty() =~= le_bytes(
            v.to_bits() as nat,
            8,
        ));
    }
    assert forall|v: String| #[trigger] roundtrips(v) by {
        vstd::utf8::encode_utf8_valid_utf8(v@);
        vstd::utf8::encode_utf8_decode_utf8(v@);
    }
    assert forall|v: Arc<str>| #[trigger] roundtrips(v) by {
        vstd::utf8::encode_utf8_valid_utf8((*v)@);
        vstd::utf8::encode_utf8_decode_utf8((*v)@);
    }
}

} // verus!
