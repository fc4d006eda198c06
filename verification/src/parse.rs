//! Reading typed values: the top-level entry and the tagged value.

use crate::buf::{bytes_contents, is_tail, lemma_tail_of_tail, BytesRef};
use crate::error::{ParseError, ParseErrorKind, ParseResult};
use crate::traits::{decoded, roundtrips, Relish};
use crate::type_id::TypeId;
use crate::wire::{
    expect_type_id, fits, frame, framed, lemma_tagged_frame_tagged, read_value_for_typeid, tagged,
    tagged_frame, type_byte,
};
use vstd::prelude::*;

verus! {

/// Whether `r` is what decoding the whole of `s` as one tagged `T` has to
/// return: the errors of the type byte and of the framing first, then those
/// of the content, then the error for bytes behind the value.
///
/// Whatever the reader of `T` does with the content, the result is a value
/// only where nothing follows the value in `s`.
pub open spec fn parse_outcome<T: Relish>(s: Seq<u8>, r: ParseResult<T>) -> bool {
    match tagged_frame(T::TYPE, s) {
        Err(k) => r matches Err(e) && *e.kind() == k,
        Ok((content, rest)) => {
            &&& r is Ok ==> rest.len() == 0
            &&& T::obeys_wire_spec() ==> match r {
                Ok(v) => T::parse_error(content) is None && T::parsed(content, &v),
                Err(e) => match T::parse_error(content) {
                    Some(k) => *e.kind() == k,
                    None => rest.len() > 0 && *e.kind() == (ParseErrorKind::ExtraData {
                        bytes_remaining: rest.len() as usize,
                    }),
                },
            }
        },
    }
}

/// Whether `r` is what reading one tagged `T` off the front of `s` has to
/// return.
pub open spec fn tlv_outcome<T: Relish>(s: Seq<u8>, r: ParseResult<T>) -> bool {
    match tagged_frame(T::TYPE, s) {
        Err(k) => r matches Err(e) && *e.kind() == k,
        Ok((content, rest)) => T::obeys_wire_spec() ==> decoded::<T>(content, r),
    }
}

impl TypeId {
    /// Reads a type byte and checks that it names the wire type of `T`.
    pub fn read_for_type<T: Relish>(data: &mut BytesRef) -> (r: ParseResult<TypeId>)
        ensures
            match r {
                Ok(t) => t == T::TYPE && type_byte(T::TYPE, old(data)@) == Ok::<
                    Seq<u8>,
                    ParseErrorKind,
                >(final(data)@),
                Err(e) => type_byte(T::TYPE, old(data)@) == Err::<Seq<u8>, ParseErrorKind>(
                    *e.kind(),
                ),
            },
            is_tail(final(data)@, old(data)@),
    {
        expect_type_id(data, T::TYPE)
    }
}

/// Carves the value of a `type_id` off the front of the reader and decodes
/// it as a `T`.
pub fn parse_value_for_typeid<T: Relish>(data: &mut BytesRef, type_id: TypeId) -> (r: ParseResult<
    T,
>)
    ensures
        match frame(type_id, old(data)@) {
            Err(k) => r matches Err(e) && *e.kind() == k,
            Ok((content, rest)) => final(data)@ == rest && (T::obeys_wire_spec() ==> decoded::<T>(
                content,
                r,
            )),
        },
        is_tail(final(data)@, old(data)@),
{
    let mut value_data = read_value_for_typeid(data, type_id)?;
    T::parse_value(&mut value_data)
}

/// Reads one tagged value: the type byte of `T`, then the value. On
/// success the reader stands behind the value.
pub fn parse_tlv<T: Relish>(data: &mut BytesRef) -> (r: ParseResult<T>)
    ensures
        tlv_outcome::<T>(old(data)@, r),
        tagged_frame(T::TYPE, old(data)@) matches Ok((content, rest)) ==> final(data)@ == rest,
        is_tail(final(data)@, old(data)@),
{
    let type_id = TypeId::read_for_type::<T>(data)?;
    let ghost middle = data@;
    let r = parse_value_for_typeid(data, type_id);
    proof {
        lemma_tail_of_tail(data@, middle, old(data)@);
    }
    r
}

/// Decodes a value from a complete encoding: one tagged value and nothing
/// behind it.
pub fn parse<T: Relish>(data: bytes::Bytes) -> (r: ParseResult<T>)
    ensures
        parse_outcome::<T>(bytes_contents(data), r),
{
    let mut data = BytesRef::new(&data);
    let result = parse_tlv::<T>(&mut data)?;
    if !data.is_empty() {
        return Err(ParseError::new(ParseErrorKind::ExtraData { bytes_remaining: data.len() }));
    }
    Ok(result)
}

/// Decoding undoes encoding: the encoding of a value that can be written
/// is decoded without error, and to a value that the content of the first
/// decodes to. The content decodes to the first value as well.
pub proof fn lemma_parse_of_encoding<T: Relish>(v: T, r: ParseResult<T>)
    requires
        T::obeys_wire_spec(),
        roundtrips(v),
        v.write_error() is None,
        parse_outcome::<T>(tagged(T::TYPE, v.content()), r),
    ensures
        r matches Ok(w) && T::parsed(v.content(), &w),
        T::parsed(v.content(), &v),
{
    lemma_tagged_frame_tagged(T::TYPE, v.content(), Seq::empty());
    assert(tagged(T::TYPE, v.content()) + Seq::<u8>::empty() =~= tagged(T::TYPE, v.content()));
}

/// Length agreement: the encoding of a value that can be written is one
/// byte longer than its payload, and the length of the payload is what
/// [`Relish::value_length`] returns: no length is cut short.
pub proof fn lemma_length_agreement<T: Relish>(v: T)
    requires
        v.write_error() is None,
        fits(T::TYPE, v.content()),
    ensures
        tagged(T::TYPE, v.content()).len() == 1 + framed(T::TYPE, v.content()).len(),
        crate::traits::clamp_length(framed(T::TYPE, v.content()).len()) == framed(
            T::TYPE,
            v.content(),
        ).len(),
{
    crate::varint::lemma_varint_size(v.content().len());
}

/// A byte with the top bit set at the front of an encoding is refused as
/// an invalid type id, whatever type is asked for.
pub proof fn lemma_parse_rejects_high_bit<T: Relish>(s: Seq<u8>, r: ParseResult<T>)
    requires
        s.len() > 0,
        s[0] >= 0x80,
        parse_outcome::<T>(s, r),
    ensures
        r matches Err(e) && *e.kind() == ParseErrorKind::InvalidTypeId(s[0]),
{
}

} // verus!
