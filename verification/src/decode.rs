//! The schema-less decoder: it reads any encoding into a value tree,
//! recording the types it finds instead of checking them against a schema.

use crate::array::element_frames;
use crate::buf::{
    bytes_contents, is_tail, lemma_tail_of_skip, lemma_tail_of_tail, lemma_tails_of_tail, BytesRef,
};
use crate::error::{ParseError, ParseErrorKind, ParseResult};
use crate::integers::{parse_unsigned, signed_of};
use crate::le::lemma_pow256_values;
use crate::record::{expect_end, read_variant_id, MAX_FIELD_ID};
use crate::scalars::{parse_text, Float32, Float64};
use crate::traits::Relish;
use crate::type_id::TypeId;
use crate::value::{
    alike, decode_error, decoded_key_seen, decodes_to, describes, entries_describe,
    entries_error, entry_frames, fields_describe, fields_error, items_describe, items_error,
    key_among, lemma_alike_transitive, lemma_describes_alike, lemma_entries_describe_pointwise,
    record_frames, same_decoded, value_error, Value,
};
use crate::wire::{
    any_frame, frame, lemma_any_frame_parts, lemma_frame_parts, read_byte, read_type_id,
    read_value_for_typeid,
};
use vstd::prelude::*;

verus! {

/// Decodes a complete encoding, of whatever type, into a value tree.
pub fn from_bytes(data: bytes::Bytes) -> (r: ParseResult<Value>)
    ensures
        match r {
            Ok(v) => decode_error(bytes_contents(data)) is None && decodes_to(
                bytes_contents(data),
                v,
            ),
            Err(e) => decode_error(bytes_contents(data)) == Some(*e.kind()),
        },
{
    let mut reader = BytesRef::new(&data);
    let value = parse_value(&mut reader)?;
    if !reader.is_empty() {
        return Err(ParseError::new(ParseErrorKind::ExtraData { bytes_remaining: reader.len() }));
    }
    Ok(value)
}

/// Reads one tagged value of whatever type. On success the reader stands
/// behind the value.
pub fn parse_value(reader: &mut BytesRef) -> (r: ParseResult<Value>)
    ensures
        match any_frame(old(reader)@) {
            Err(k) => r matches Err(e) && *e.kind() == k,
            Ok((t, content, rest)) => match r {
                Ok(v) => value_error(t, content) is None && describes(t, content, v)
                    && final(reader)@ == rest,
                Err(e) => value_error(t, content) == Some(*e.kind()),
            },
        },
        is_tail(final(reader)@, old(reader)@),
    decreases old(reader)@.len(), 1nat,
{
    let type_id = read_type_id(reader)?;
    let ghost middle = reader@;
    let r = parse_typed_value(reader, type_id);
    proof {
        lemma_tail_of_tail(reader@, middle, old(reader)@);
    }
    r
}

/// Reads the value of a `type_id` that lies at the front of the reader.
/// On success the reader stands behind the value.
pub fn parse_typed_value(reader: &mut BytesRef, type_id: TypeId) -> (r: ParseResult<Value>)
    ensures
        match frame(type_id, old(reader)@) {
            Err(k) => r matches Err(e) && *e.kind() == k,
            Ok((content, rest)) => match r {
                Ok(v) => value_error(type_id, content) is None && describes(type_id, content, v)
                    && final(reader)@ == rest,
                Err(e) => value_error(type_id, content) == Some(*e.kind()),
            },
        },
        is_tail(final(reader)@, old(reader)@),
    decreases old(reader)@.len(), 0nat,
{
    let mut content = read_value_for_typeid(reader, type_id)?;
    proof {
        lemma_frame_parts(type_id, old(reader)@);
        lemma_pow256_values();
    }
    match type_id {
        TypeId::Null => Ok(Value::Null),
        TypeId::Bool => Ok(Value::Bool(bool::parse_value(&mut content)?)),
        TypeId::U8 => Ok(Value::U8(parse_unsigned(&mut content, 1)? as u8)),
        TypeId::U16 => Ok(Value::U16(parse_unsigned(&mut content, 2)? as u16)),
        TypeId::U32 => Ok(Value::U32(parse_unsigned(&mut content, 4)? as u32)),
        TypeId::U64 => Ok(Value::U64(parse_unsigned(&mut content, 8)? as u64)),
        TypeId::U128 => Ok(Value::U128(parse_unsigned(&mut content, 16)?)),
        TypeId::I8 => Ok(Value::I8(signed_of(parse_unsigned(&mut content, 1)?, 1) as i8)),
        TypeId::I16 => Ok(Value::I16(signed_of(parse_unsigned(&mut content, 2)?, 2) as i16)),
        TypeId::I32 => Ok(Value::I32(signed_of(parse_unsigned(&mut content, 4)?, 4) as i32)),
        TypeId::I64 => Ok(Value::I64(signed_of(parse_unsigned(&mut content, 8)?, 8) as i64)),
        TypeId::I128 => Ok(Value::I128(signed_of(parse_unsigned(&mut content, 16)?, 16))),
        TypeId::F32 => Ok(
            Value::F32(Float32::from_bits(parse_unsigned(&mut content, 4)? as u32)),
        ),
        TypeId::F64 => Ok(
            Value::F64(Float64::from_bits(parse_unsigned(&mut content, 8)? as u64)),
        ),
        TypeId::Timestamp => Ok(Value::Timestamp(parse_unsigned(&mut content, 8)? as u64)),
        TypeId::String => Ok(Value::String(parse_text(&mut content)?)),
        TypeId::Array => parse_array_content(&mut content),
        TypeId::Dict => parse_dict_content(&mut content),
        TypeId::Struct => parse_struct_content(&mut content),
        TypeId::Enum => parse_enum_content(&mut content),
    }
}

/// Decodes the content of an array: the type of the elements, then the
/// elements until the content is used up.
pub fn parse_array_content(content: &mut BytesRef) -> (r: ParseResult<Value>)
    ensures
        match r {
            Ok(v) => value_error(TypeId::Array, old(content)@) is None && describes(
                TypeId::Array,
                old(content)@,
                v,
            ),
            Err(e) => value_error(TypeId::Array, old(content)@) == Some(*e.kind()),
        },
        is_tail(final(content)@, old(content)@),
    decreases old(content)@.len(), 2nat,
{
    let element_type = read_type_id(content)?;
    let ghost start = content@;
    let ghost mut done: Seq<Seq<u8>> = Seq::empty();
    let mut elements: Vec<Value> = Vec::new();
    proof {
        assert(done + element_frames(element_type, content@) =~= element_frames(
            element_type,
            start,
        ));
    }
    while !content.is_empty()
        invariant
            content@.len() <= start.len() < old(content)@.len(),
            old(content)@.len() > 0,
            is_tail(content@, old(content)@),
            TypeId::of_byte(old(content)@[0]) == Some(element_type),
            old(content)@.skip(1) == start,
            items_error(element_type, start) == items_error(element_type, content@),
            element_frames(element_type, start) == done + element_frames(element_type, content@),
            items_describe(element_type, done, elements@),
        decreases content@.len(),
    {
        let before = content.len();
        let ghost here = content@;
        let ghost seen = elements@;
        proof {
            lemma_tails_of_tail(here, old(content)@);
        }
        let element = parse_typed_value(content, element_type)?;
        if content.len() >= before {
            return Err(
                ParseError::new(ParseErrorKind::ExtraData { bytes_remaining: content.len() }),
            );
        }
        elements.push(element);
        proof {
            let piece = frame(element_type, here)->Ok_0.0;
            assert(done.push(piece) + element_frames(element_type, content@) =~= done + (
            seq![piece] + element_frames(element_type, content@)));
            assert(done.push(piece).drop_last() =~= done);
            assert(elements@.drop_last() =~= seen);
            done = done.push(piece);
        }
    }
    proof {
        assert(done + Seq::<Seq<u8>>::empty() =~= done);
    }
    Ok(Value::Array { element_type, elements })
}

/// One pair that is carved off and decoded, with a key not seen before,
/// leaves the rest of the pairs to decide.
proof fn lemma_entries_step(
    kt: TypeId,
    vt: TypeId,
    s: Seq<u8>,
    middle: Seq<u8>,
    rest: Seq<u8>,
    seen: Seq<Seq<u8>>,
)
    requires
        s.len() > 0,
        rest.len() < s.len(),
        frame(kt, s) matches Ok((key, after_key)) && after_key == middle && value_error(kt, key)
            is None && !decoded_key_seen(kt, seen, key),
        frame(vt, middle) matches Ok((value, after_value)) && after_value == rest && value_error(
            vt,
            value,
        ) is None,
    ensures
        entries_error(kt, vt, s, seen) == entries_error(
            kt,
            vt,
            rest,
            seen.push(frame(kt, s)->Ok_0.0),
        ),
        entry_frames(kt, vt, s) == seq![(frame(kt, s)->Ok_0.0, frame(vt, middle)->Ok_0.0)]
            + entry_frames(kt, vt, rest),
{
}

/// A key that is alike to none of the keys decoded before it decodes to
/// nothing that a content seen before decodes to.
proof fn lemma_key_is_new(
    kt: TypeId,
    vt: TypeId,
    done: Seq<(Seq<u8>, Seq<u8>)>,
    seen: Seq<Seq<u8>>,
    entries: Seq<(Value, Value)>,
    content: Seq<u8>,
    key: Value,
)
    requires
        entries_describe(kt, vt, done, entries),
        seen.len() == done.len(),
        forall|i: int| 0 <= i < done.len() ==> #[trigger] seen[i] == done[i].0,
        describes(kt, content, key),
    ensures
        decoded_key_seen(kt, seen, content) <==> exists|i: int|
            0 <= i < entries.len() && alike((#[trigger] entries[i]).0, key),
{
    lemma_entries_describe_pointwise(kt, vt, done, entries);
    if decoded_key_seen(kt, seen, content) {
        let i = choose|i: int| 0 <= i < seen.len() && same_decoded(kt, #[trigger] seen[i], content);
        let (x, y) = choose|x: Value, y: Value|
            #![trigger describes(kt, seen[i], x), describes(kt, content, y)]
            describes(kt, seen[i], x) && describes(kt, content, y) && alike(x, y);
        assert(describes(kt, done[i].0, entries[i].0));
        lemma_describes_alike(kt, seen[i], entries[i].0, x);
        lemma_describes_alike(kt, content, y, key);
        lemma_alike_transitive(entries[i].0, x, y);
        lemma_alike_transitive(entries[i].0, y, key);
        assert(alike(entries[i].0, key));
    }
    if exists|i: int| 0 <= i < entries.len() && alike((#[trigger] entries[i]).0, key) {
        let i = choose|i: int| 0 <= i < entries.len() && alike((#[trigger] entries[i]).0, key);
        assert(describes(kt, done[i].0, entries[i].0));
        assert(describes(kt, seen[i], entries[i].0));
        assert(same_decoded(kt, seen[i], content));
    }
}

/// Reads one pair of a dictionary: the value of a key, then the value of
/// a value, each of its type.
pub fn parse_entry(content: &mut BytesRef, key_type: TypeId, value_type: TypeId) -> (r:
    ParseResult<(Value, Value)>)
    ensures
        match frame(key_type, old(content)@) {
            Err(k) => r matches Err(e) && *e.kind() == k,
            Ok((key, after_key)) => match value_error(key_type, key) {
                Some(k) => r matches Err(e) && *e.kind() == k,
                None => match frame(value_type, after_key) {
                    Err(k) => r matches Err(e) && *e.kind() == k,
                    Ok((value, rest)) => match r {
                        Ok(pair) => {
                            &&& value_error(value_type, value) is None
                            &&& describes(key_type, key, pair.0)
                            &&& describes(value_type, value, pair.1)
                            &&& final(content)@ == rest
                        },
                        Err(e) => value_error(value_type, value) == Some(*e.kind()),
                    },
                },
            },
        },
        is_tail(final(content)@, old(content)@),
    decreases old(content)@.len(), 1nat,
{
    let ghost here = content@;
    proof {
        lemma_frame_parts(key_type, here);
    }
    let key = parse_typed_value(content, key_type)?;
    let ghost middle = content@;
    proof {
        lemma_frame_parts(value_type, middle);
        lemma_tails_of_tail(middle, here);
    }
    let value = parse_typed_value(content, value_type)?;
    Ok((key, value))
}

/// Decodes the content of a dictionary: the type of the keys, the type of
/// the values, then the pairs until the content is used up. A pair whose
/// key is alike to the key of a pair before it is refused.
#[verifier::rlimit(20)]
pub fn parse_dict_content(content: &mut BytesRef) -> (r: ParseResult<Value>)
    ensures
        match r {
            Ok(v) => value_error(TypeId::Dict, old(content)@) is None && describes(
                TypeId::Dict,
                old(content)@,
                v,
            ),
            Err(e) => value_error(TypeId::Dict, old(content)@) == Some(*e.kind()),
        },
        is_tail(final(content)@, old(content)@),
    decreases old(content)@.len(), 2nat,
{
    let key_type = read_type_id(content)?;
    proof {
        let here = content@;
        lemma_tails_of_tail(here, old(content)@);
    }
    let value_type = read_type_id(content)?;
    let ghost start = content@;
    let ghost mut done: Seq<(Seq<u8>, Seq<u8>)> = Seq::empty();
    let ghost mut seen: Seq<Seq<u8>> = Seq::empty();
    let mut entries: Vec<(Value, Value)> = Vec::new();
    proof {
        assert(old(content)@.skip(1).skip(1) =~= old(content)@.skip(2));
        assert(done + entry_frames(key_type, value_type, content@) =~= entry_frames(
            key_type,
            value_type,
            start,
        ));
    }
    while !content.is_empty()
        invariant
            content@.len() <= start.len() < old(content)@.len(),
            old(content)@.len() > 1,
            is_tail(content@, old(content)@),
            TypeId::of_byte(old(content)@[0]) == Some(key_type),
            TypeId::of_byte(old(content)@[1]) == Some(value_type),
            old(content)@.skip(2) == start,
            seen.len() == done.len(),
            forall|i: int| 0 <= i < done.len() ==> #[trigger] seen[i] == done[i].0,
            entries_error(key_type, value_type, start, Seq::empty()) == entries_error(
                key_type,
                value_type,
                content@,
                seen,
            ),
            entry_frames(key_type, value_type, start) == done + entry_frames(
                key_type,
                value_type,
                content@,
            ),
            entries_describe(key_type, value_type, done, entries@),
        decreases content@.len(),
    {
        let before = content.len();
        let ghost here = content@;
        let ghost earlier = entries@;
        proof {
            lemma_frame_parts(key_type, here);
            lemma_tails_of_tail(here, old(content)@);
        }
        let entry = parse_entry(content, key_type, value_type)?;
        proof {
            lemma_key_is_new(
                key_type,
                value_type,
                done,
                seen,
                entries@,
                frame(key_type, here)->Ok_0.0,
                entry.0,
            );
        }
        if key_among(&entries, &entry.0) {
            return Err(ParseError::new(ParseErrorKind::DuplicateMapKey));
        }
        if content.len() >= before {
            return Err(
                ParseError::new(ParseErrorKind::ExtraData { bytes_remaining: content.len() }),
            );
        }
        entries.push(entry);
        proof {
            let middle = frame(key_type, here)->Ok_0.1;
            let piece = (frame(key_type, here)->Ok_0.0, frame(value_type, middle)->Ok_0.0);
            lemma_entries_step(key_type, value_type, here, middle, content@, seen);
            seen = seen.push(piece.0);
            assert(done.push(piece) + entry_frames(key_type, value_type, content@) =~= done + (
            seq![piece] + entry_frames(key_type, value_type, content@)));
            assert(done.push(piece).drop_last() =~= done);
            assert(entries@.drop_last() =~= earlier);
            done = done.push(piece);
        }
    }
    proof {
        assert(done + Seq::<(Seq<u8>, Seq<u8>)>::empty() =~= done);
    }
    Ok(Value::Dict { key_type, value_type, entries })
}

/// Decodes the content of a struct: records until the content is used up.
/// An id with the top bit set is refused; the order of the ids is recorded
/// as it is.
pub fn parse_struct_content(content: &mut BytesRef) -> (r: ParseResult<Value>)
    ensures
        match r {
            Ok(v) => value_error(TypeId::Struct, old(content)@) is None && describes(
                TypeId::Struct,
                old(content)@,
                v,
            ),
            Err(e) => value_error(TypeId::Struct, old(content)@) == Some(*e.kind()),
        },
        is_tail(final(content)@, old(content)@),
    decreases old(content)@.len(), 2nat,
{
    let ghost start = content@;
    let ghost mut done: Seq<(u8, TypeId, Seq<u8>)> = Seq::empty();
    let mut fields: Vec<(u8, Value)> = Vec::new();
    proof {
        assert(done + record_frames(content@) =~= record_frames(start));
        lemma_tail_of_skip(start, 0);
    }
    while !content.is_empty()
        invariant
            content@.len() <= start.len() == old(content)@.len(),
            old(content)@ == start,
            is_tail(content@, old(content)@),
            fields_error(start) == fields_error(content@),
            record_frames(start) == done + record_frames(content@),
            fields_describe(done, fields@),
        decreases content@.len(),
    {
        let ghost here = content@;
        let ghost seen = fields@;
        proof {
            lemma_tail_of_skip(here, 1);
            lemma_tail_of_tail(here.skip(1), here, old(content)@);
        }
        let field_id = read_byte(content)?;
        if field_id > MAX_FIELD_ID {
            return Err(ParseError::new(ParseErrorKind::InvalidFieldId(field_id)));
        }
        proof {
            lemma_any_frame_parts(here.skip(1));
            let middle = content@;
            lemma_tails_of_tail(middle, old(content)@);
        }
        let value = parse_value(content)?;
        fields.push((field_id, value));
        proof {
            let found = any_frame(here.skip(1))->Ok_0;
            let piece = (field_id, found.0, found.1);
            assert(done.push(piece) + record_frames(content@) =~= done + (seq![piece]
                + record_frames(content@)));
            assert(done.push(piece).drop_last() =~= done);
            assert(fields@.drop_last() =~= seen);
            done = done.push(piece);
        }
    }
    proof {
        assert(done + Seq::<(u8, TypeId, Seq<u8>)>::empty() =~= done);
    }
    Ok(Value::Struct { fields })
}

/// Decodes the content of an enum: the id of the variant, one tagged
/// value, and nothing behind it.
pub fn parse_enum_content(content: &mut BytesRef) -> (r: ParseResult<Value>)
    ensures
        match r {
            Ok(v) => value_error(TypeId::Enum, old(content)@) is None && describes(
                TypeId::Enum,
                old(content)@,
                v,
            ),
            Err(e) => value_error(TypeId::Enum, old(content)@) == Some(*e.kind()),
        },
        is_tail(final(content)@, old(content)@),
    decreases old(content)@.len(), 2nat,
{
    let variant_id = read_variant_id(content)?;
    proof {
        let here = content@;
        lemma_tails_of_tail(here, old(content)@);
    }
    let value = parse_value(content)?;
    expect_end(content)?;
    Ok(Value::Enum { variant_id, value: Box::new(value) })
}

} // verus!
