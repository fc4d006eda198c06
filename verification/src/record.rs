//! The pieces that the codec of a struct or of an enum is made of: a
//! record is an id, then a tagged value. A struct payload is a run of
//! records with rising ids; an enum payload is one record.

use crate::buf::{is_tail, lemma_tail_of_skip, BytesRef};
use crate::error::{
    ParseError, ParseErrorKind, ParseResult, WriteError, WriteErrorKind, WriteResult,
};
use crate::traits::{
    add_lengths, clamp_length, lemma_prefix_of_sum, lemma_prefixes_of_prefix, FieldValue, Relish,
};
use crate::parse::{parse_outcome, parse_tlv};
use crate::wire::{read_byte, tagged};
use vstd::prelude::*;

verus! {

/// The greatest id that a field or a variant can have.
pub const MAX_FIELD_ID: u8 = 0x7F;

/// The record of a value under an id: the id, the type byte, the payload.
pub open spec fn record_bytes<T: Relish>(id: u8, value: &T) -> Seq<u8> {
    seq![id] + tagged(T::TYPE, value.content())
}

/// The reason why a value cannot be written under an id, if there is one:
/// an id with the top bit set, or a value that cannot be written.
pub open spec fn record_write_error<T: Relish>(id: u8, value: &T) -> Option<WriteErrorKind> {
    if id > MAX_FIELD_ID {
        Some(WriteErrorKind::FieldIdTooLarge(id))
    } else {
        value.write_error()
    }
}

/// What a field adds to the content of its struct: its record where it
/// holds a value, and nothing where it does not.
pub open spec fn field_bytes<F: FieldValue>(id: u8, field: &F) -> Seq<u8> {
    match field.present() {
        Some(value) => record_bytes(id, value),
        None => Seq::empty(),
    }
}

/// The reason why a field cannot be written under an id, if there is one.
pub open spec fn field_write_error<F: FieldValue>(id: u8, field: &F) -> Option<WriteErrorKind> {
    if id > MAX_FIELD_ID {
        Some(WriteErrorKind::FieldIdTooLarge(id))
    } else {
        match field.present() {
            Some(value) => value.write_error(),
            None => None,
        }
    }
}

/// The number of bytes of the record of a value.
pub fn variant_length<T: Relish>(value: &T) -> (n: usize)
    ensures
        T::obeys_wire_spec() ==> forall|id: u8|
            n == clamp_length(#[trigger] record_bytes(id, value).len()),
{
    add_lengths(2, value.value_length())
}

/// Appends the record of a value under an id.
pub fn write_variant<T: Relish>(buffer: &mut Vec<u8>, variant_id: u8, value: &T) -> (r:
    WriteResult<()>)
    ensures
        variant_id > MAX_FIELD_ID ==> (r matches Err(e) && *e.kind()
            == WriteErrorKind::FieldIdTooLarge(variant_id) && final(buffer)@ == old(buffer)@),
        T::obeys_wire_spec() ==> match r {
            Ok(()) => record_write_error(variant_id, value) is None && final(buffer)@ == old(
                buffer,
            )@ + record_bytes(variant_id, value),
            Err(e) => record_write_error(variant_id, value) == Some(*e.kind()),
        },
        T::obeys_wire_spec() ==> old(buffer)@.is_prefix_of(final(buffer)@),
{
    proof {
        lemma_prefix_of_sum(old(buffer)@, Seq::empty());
    }
    if variant_id > MAX_FIELD_ID {
        return Err(WriteError::new(WriteErrorKind::FieldIdTooLarge(variant_id)));
    }
    buffer.push(variant_id);
    buffer.push(T::TYPE.to_byte());
    let ghost here = buffer@;
    proof {
        lemma_prefix_of_sum(old(buffer)@, seq![variant_id, T::TYPE.code()]);
        assert(here =~= old(buffer)@ + seq![variant_id, T::TYPE.code()]);
        lemma_prefixes_of_prefix(old(buffer)@, here);
    }
    value.write_value(buffer)?;
    proof {
        if T::obeys_wire_spec() {
            assert(buffer@ =~= old(buffer)@ + record_bytes(variant_id, value));
        }
    }
    Ok(())
}

/// The number of bytes that a field adds to the content of its struct.
pub fn field_length<F: FieldValue>(field: &F) -> (n: usize)
    ensures
        <F::T as Relish>::obeys_wire_spec() ==> forall|id: u8|
            n == clamp_length(#[trigger] field_bytes(id, field).len()),
{
    match field.as_relish() {
        Some(value) => variant_length(value),
        None => 0,
    }
}

/// Appends what a field adds to the content of its struct.
pub fn write_field<F: FieldValue>(buffer: &mut Vec<u8>, field_id: u8, field: &F) -> (r:
    WriteResult<()>)
    ensures
        field_id > MAX_FIELD_ID ==> (r matches Err(e) && *e.kind()
            == WriteErrorKind::FieldIdTooLarge(field_id) && final(buffer)@ == old(buffer)@),
        <F::T as Relish>::obeys_wire_spec() ==> match r {
            Ok(()) => field_write_error(field_id, field) is None && final(buffer)@ == old(
                buffer,
            )@ + field_bytes(field_id, field),
            Err(e) => field_write_error(field_id, field) == Some(*e.kind()),
        },
        <F::T as Relish>::obeys_wire_spec() ==> old(buffer)@.is_prefix_of(final(buffer)@),
{
    proof {
        lemma_prefix_of_sum(old(buffer)@, Seq::empty());
    }
    if field_id > MAX_FIELD_ID {
        return Err(WriteError::new(WriteErrorKind::FieldIdTooLarge(field_id)));
    }
    match field.as_relish() {
        Some(value) => write_variant(buffer, field_id, value),
        None => {
            proof {
                assert(buffer@ =~= old(buffer)@ + field_bytes(field_id, field));
            }
            Ok(())
        },
    }
}

/// What reading a variant id off the front of `s` gives: the id and what
/// follows it, or the reason for the refusal.
pub open spec fn variant_id_read(s: Seq<u8>) -> Result<(u8, Seq<u8>), ParseErrorKind> {
    if s.len() == 0 {
        Err(ParseErrorKind::InsufficientData { needed: 1, available: 0 })
    } else if s[0] > MAX_FIELD_ID {
        Err(ParseErrorKind::InvalidFieldId(s[0]))
    } else {
        Ok((s[0], s.skip(1)))
    }
}

/// Reads the id of the variant that an enum content holds.
pub fn read_variant_id(data: &mut BytesRef) -> (r: ParseResult<u8>)
    ensures
        match r {
            Ok(id) => variant_id_read(old(data)@) == Ok::<(u8, Seq<u8>), ParseErrorKind>(
                (id, final(data)@),
            ),
            Err(e) => variant_id_read(old(data)@) == Err::<(u8, Seq<u8>), ParseErrorKind>(
                *e.kind(),
            ),
        },
        is_tail(final(data)@, old(data)@),
{
    proof {
        lemma_tail_of_skip(old(data)@, 0);
        if old(data)@.len() >= 1 {
            lemma_tail_of_skip(old(data)@, 1);
        }
    }
    let id = read_byte(data)?;
    if id > MAX_FIELD_ID {
        return Err(ParseError::new(ParseErrorKind::InvalidFieldId(id)));
    }
    Ok(id)
}

/// Reads the value of a variant of type `T`: one tagged value that uses
/// up the reader. Bytes behind the value are an error, so that after a
/// value is returned the reader is empty.
pub fn parse_variant<T: Relish>(data: &mut BytesRef) -> (r: ParseResult<T>)
    ensures
        parse_outcome::<T>(old(data)@, r),
        r is Ok ==> final(data)@.len() == 0,
        is_tail(final(data)@, old(data)@),
{
    let result = parse_tlv::<T>(data)?;
    expect_end(data)?;
    Ok(result)
}

/// The error for a variant id that a schema does not declare.
pub fn unknown_variant(variant_id: u8) -> (e: ParseError)
    ensures
        *e.kind() == ParseErrorKind::UnknownVariant(variant_id),
{
    ParseError::new(ParseErrorKind::UnknownVariant(variant_id))
}

/// What is wrong with bytes behind the end of a value, if there are any.
pub open spec fn end_error(s: Seq<u8>) -> Option<ParseErrorKind> {
    if s.len() == 0 {
        None
    } else {
        Some(ParseErrorKind::ExtraData { bytes_remaining: s.len() as usize })
    }
}

/// Checks that nothing is left in the reader.
pub fn expect_end(data: &BytesRef) -> (r: ParseResult<()>)
    ensures
        match r {
            Ok(()) => end_error(data@) is None,
            Err(e) => end_error(data@) == Some(*e.kind()),
        },
{
    if !data.is_empty() {
        return Err(ParseError::new(ParseErrorKind::ExtraData { bytes_remaining: data.len() }));
    }
    Ok(())
}

} // verus!
