//! Framing: how the value of a type is laid out after its type byte, and
//! how a reader carves it off the front of a buffer.

use crate::buf::{is_tail, lemma_tail_of_skip, lemma_tail_of_tail, BytesRef};
use crate::error::{ParseError, ParseErrorKind, ParseResult};
use crate::le::le_value;
use crate::type_id::{TypeId, TypeLength};
use crate::varint::{
    lemma_varint_read_bound, lemma_varint_roundtrip, varint_bytes, varint_read, varint_size,
    MAX_CONTENT_LENGTH,
};
use vstd::prelude::*;

verus! {

/// Whether `content` can be the content of a value of type `t`: of the
/// type's size for a fixed type, within reach of a prefix otherwise.
pub open spec fn fits(t: TypeId, content: Seq<u8>) -> bool {
    match t.length() {
        TypeLength::Fixed(n) => content.len() == n,
        TypeLength::Varsize => content.len() <= MAX_CONTENT_LENGTH,
    }
}

/// The payload of a value of type `t`: its content, behind a length prefix
/// if the type has no fixed size.
pub open spec fn framed(t: TypeId, content: Seq<u8>) -> Seq<u8> {
    match t.length() {
        TypeLength::Fixed(_) => content,
        TypeLength::Varsize => varint_bytes(content.len()) + content,
    }
}

/// What carving the value of a `t` off the front of `s` gives: the content
/// and what follows it, or the reason why `s` is too short.
pub open spec fn frame(t: TypeId, s: Seq<u8>) -> Result<(Seq<u8>, Seq<u8>), ParseErrorKind> {
    match t.length() {
        TypeLength::Fixed(n) => {
            if n > s.len() {
                Err(ParseErrorKind::InsufficientData { needed: n, available: s.len() as usize })
            } else {
                Ok((s.subrange(0, n as int), s.skip(n as int)))
            }
        },
        TypeLength::Varsize => match varint_read(s) {
            Err(e) => Err(e),
            Ok((length, used)) => {
                let after = s.skip(used as int);
                if length > after.len() {
                    Err(
                        ParseErrorKind::InsufficientData {
                            needed: length as usize,
                            available: after.len() as usize,
                        },
                    )
                } else {
                    Ok((after.subrange(0, length as int), after.skip(length as int)))
                }
            },
        },
    }
}

/// What reading a type byte for a value of type `expected` off the front of
/// `s` gives: what follows the byte, or the reason for the refusal. A byte
/// with the top bit set, like every byte that names no type, is an
/// [`ParseErrorKind::InvalidTypeId`].
pub open spec fn type_byte(expected: TypeId, s: Seq<u8>) -> Result<Seq<u8>, ParseErrorKind> {
    if s.len() == 0 {
        Err(ParseErrorKind::InsufficientData { needed: 1, available: 0 })
    } else {
        match TypeId::of_byte(s[0]) {
            None => Err(ParseErrorKind::InvalidTypeId(s[0])),
            Some(t) => if t != expected {
                Err(ParseErrorKind::TypeMismatch { expected: expected.code(), actual: s[0] })
            } else {
                Ok(s.skip(1))
            },
        }
    }
}

/// What reading a tagged value of whatever type off the front of `s`
/// gives: its type, its content and what follows it.
pub open spec fn any_frame(s: Seq<u8>) -> Result<(TypeId, Seq<u8>, Seq<u8>), ParseErrorKind> {
    if s.len() == 0 {
        Err(ParseErrorKind::InsufficientData { needed: 1, available: 0 })
    } else {
        match TypeId::of_byte(s[0]) {
            None => Err(ParseErrorKind::InvalidTypeId(s[0])),
            Some(t) => match frame(t, s.skip(1)) {
                Err(e) => Err(e),
                Ok((content, rest)) => Ok((t, content, rest)),
            },
        }
    }
}

/// A tagged value takes at least its type byte.
pub proof fn lemma_any_frame_parts(s: Seq<u8>)
    ensures
        any_frame(s) matches Ok((t, content, rest)) ==> {
            &&& fits(t, content)
            &&& content.len() + rest.len() < s.len()
        },
{
    if s.len() > 0 {
        match TypeId::of_byte(s[0]) {
            None => {},
            Some(t) => {
                lemma_frame_parts(t, s.skip(1));
            },
        }
    }
}

/// What reading a tagged value of type `expected` off the front of `s`
/// gives: its content and what follows it.
pub open spec fn tagged_frame(expected: TypeId, s: Seq<u8>) -> Result<
    (Seq<u8>, Seq<u8>),
    ParseErrorKind,
> {
    match type_byte(expected, s) {
        Err(e) => Err(e),
        Ok(rest) => frame(expected, rest),
    }
}

/// The encoding of a value of type `t` with the given content: the type
/// byte, then the payload.
pub open spec fn tagged(t: TypeId, content: Seq<u8>) -> Seq<u8> {
    seq![t.code()] + framed(t, content)
}

/// The content of a carved value and what follows it are parts of what was
/// there, and a value that is not of size zero takes bytes.
pub proof fn lemma_frame_parts(t: TypeId, s: Seq<u8>)
    ensures
        frame(t, s) matches Ok((content, rest)) ==> {
            &&& fits(t, content)
            &&& content.len() + rest.len() <= s.len()
            &&& (t.length() is Fixed ==> s == content + rest)
            &&& (t.length() is Varsize ==> content.len() + rest.len() < s.len())
            &&& (t != TypeId::Null ==> rest.len() < s.len())
            &&& (t == TypeId::Null ==> rest == s)
        },
{
    match t.length() {
        TypeLength::Fixed(n) => {
            if n <= s.len() {
                assert(s =~= s.subrange(0, n as int) + s.skip(n as int));
                assert(s.skip(0) =~= s);
            }
        },
        TypeLength::Varsize => {
            lemma_varint_read_bound(s);
        },
    }
}

/// A payload that was laid out is carved off again as it was, whatever
/// follows it.
pub proof fn lemma_frame_framed(t: TypeId, content: Seq<u8>, rest: Seq<u8>)
    requires
        fits(t, content),
    ensures
        frame(t, framed(t, content) + rest) == Ok::<(Seq<u8>, Seq<u8>), ParseErrorKind>(
            (content, rest),
        ),
{
    let s = framed(t, content) + rest;
    match t.length() {
        TypeLength::Fixed(n) => {
            assert(s.subrange(0, n as int) =~= content);
            assert(s.skip(n as int) =~= rest);
        },
        TypeLength::Varsize => {
            let prefix = varint_bytes(content.len());
            lemma_varint_roundtrip(content.len(), content + rest);
            assert(s =~= prefix + (content + rest));
            let after = s.skip(varint_size(content.len()) as int);
            assert(after =~= content + rest);
            assert(after.subrange(0, content.len() as int) =~= content);
            assert(after.skip(content.len() as int) =~= rest);
        },
    }
}

/// An encoding is read back as the content it was made of, whatever
/// follows it.
pub proof fn lemma_tagged_frame_tagged(t: TypeId, content: Seq<u8>, rest: Seq<u8>)
    requires
        fits(t, content),
    ensures
        tagged_frame(t, tagged(t, content) + rest) == Ok::<(Seq<u8>, Seq<u8>), ParseErrorKind>(
            (content, rest),
        ),
        tagged(t, content).len() == 1 + framed(t, content).len(),
{
    let s = tagged(t, content) + rest;
    t.lemma_code_of_byte(s[0]);
    assert(s[0] == t.code());
    assert(s.skip(1) =~= framed(t, content) + rest);
    lemma_frame_framed(t, content, rest);
}

/// A value that can be carved off is carved off alike when bytes are put
/// behind what it was carved from, and they then follow it.
pub proof fn lemma_frame_appended(t: TypeId, s: Seq<u8>, more: Seq<u8>)
    ensures
        frame(t, s) matches Ok((content, rest)) ==> frame(t, s + more) == Ok::<
            (Seq<u8>, Seq<u8>),
            ParseErrorKind,
        >((content, rest + more)),
{
    if let Ok((content, rest)) = frame(t, s) {
        let longer = s + more;
        match t.length() {
            TypeLength::Fixed(n) => {
                assert(longer.subrange(0, n as int) =~= content);
                assert(longer.skip(n as int) =~= rest + more);
            },
            TypeLength::Varsize => {
                lemma_varint_read_bound(s);
                let (length, used) = varint_read(s)->Ok_0;
                assert(longer[0] == s[0]);
                if used == 4 {
                    assert(longer.subrange(0, 4) =~= s.subrange(0, 4));
                }
                assert(varint_read(longer) == varint_read(s));
                let after = s.skip(used as int);
                let after_longer = longer.skip(used as int);
                assert(after_longer =~= after + more);
                assert(after_longer.subrange(0, length as int) =~= content);
                assert(after_longer.skip(length as int) =~= rest + more);
            },
        }
    }
}

/// A tagged value that can be read is read alike when bytes are put
/// behind what it was read from, and they then follow it.
pub proof fn lemma_any_frame_appended(s: Seq<u8>, more: Seq<u8>)
    ensures
        any_frame(s) matches Ok((t, content, rest)) ==> any_frame(s + more) == Ok::<
            (TypeId, Seq<u8>, Seq<u8>),
            ParseErrorKind,
        >((t, content, rest + more)),
        forall|expected: TypeId| #[trigger]
            tagged_frame(expected, s) matches Ok((content, rest)) ==> tagged_frame(
                expected,
                s + more,
            ) == Ok::<(Seq<u8>, Seq<u8>), ParseErrorKind>((content, rest + more)),
{
    if s.len() > 0 {
        assert((s + more)[0] == s[0]);
        assert((s + more).skip(1) =~= s.skip(1) + more);
        match TypeId::of_byte(s[0]) {
            None => {},
            Some(t) => {
                lemma_frame_appended(t, s.skip(1), more);
            },
        }
    }
}

/// Reads one byte. On an empty reader nothing is read.
pub fn read_byte(data: &mut BytesRef) -> (r: ParseResult<u8>)
    ensures
        match r {
            Ok(b) => old(data)@.len() > 0 && b == old(data)@[0] && final(data)@ == old(data)@.skip(
                1,
            ),
            Err(e) => old(data)@.len() == 0 && *e.kind() == (ParseErrorKind::InsufficientData {
                needed: 1,
                available: 0,
            }) && final(data)@ == old(data)@,
        },
{
    let bytes = data.read(1)?;
    let s = bytes.as_slice();
    Ok(s[0])
}

/// Reads a length prefix. On success the reader stands behind the prefix.
pub fn read_tagged_varint_length(data: &mut BytesRef) -> (r: ParseResult<u32>)
    ensures
        match r {
            Ok(length) => varint_read(old(data)@) matches Ok((l, used)) && l == length
                && final(data)@ == old(data)@.skip(used as int),
            Err(e) => varint_read(old(data)@) == Err::<(nat, nat), ParseErrorKind>(*e.kind()),
        },
        is_tail(final(data)@, old(data)@),
{
    proof {
        lemma_tail_of_skip(old(data)@, 0);
        if old(data)@.len() >= 1 {
            lemma_tail_of_skip(old(data)@, 1);
        }
        if old(data)@.len() >= 4 {
            lemma_tail_of_skip(old(data)@, 4);
        }
    }
    let first_byte = read_byte(data)?;
    if first_byte % 2 == 0 {
        Ok((first_byte / 2) as u32)
    } else {
        let remaining = data.read(3)?;
        let rest = remaining.as_slice();
        let full_value: u32 = first_byte as u32 + 0x100 * (rest[0] as u32) + 0x1_0000 * (
        rest[1] as u32) + 0x100_0000 * (rest[2] as u32);
        proof {
            let s = old(data)@;
            let head = s.subrange(0, 4);
            assert(head.skip(1).skip(1).skip(1).skip(1).len() == 0);
            assert(head[0] == first_byte);
            assert(head.skip(1)[0] == rest@[0]);
            assert(head.skip(1).skip(1)[0] == rest@[1]);
            assert(head.skip(1).skip(1).skip(1)[0] == rest@[2]);
            reveal_with_fuel(le_value, 5);
            assert(le_value(head) == full_value);
            assert(s.skip(1).skip(3) =~= s.skip(4));
        }
        Ok(full_value / 2)
    }
}

/// Carves the value of a `type_id` off the front of the reader: as many
/// bytes as the type has, or as a length prefix announces.
pub fn read_value_for_typeid<'a>(data: &mut BytesRef<'a>, type_id: TypeId) -> (r: ParseResult<
    BytesRef<'a>,
>)
    ensures
        match r {
            Ok(content) => frame(type_id, old(data)@) == Ok::<(Seq<u8>, Seq<u8>), ParseErrorKind>(
                (content@, final(data)@),
            ),
            Err(e) => frame(type_id, old(data)@) == Err::<(Seq<u8>, Seq<u8>), ParseErrorKind>(
                *e.kind(),
            ),
        },
        is_tail(final(data)@, old(data)@),
{
    proof {
        lemma_tail_of_skip(old(data)@, 0);
    }
    match type_id.length() {
        TypeLength::Fixed(size) => {
            proof {
                if size <= old(data)@.len() {
                    lemma_tail_of_skip(old(data)@, size as int);
                }
            }
            data.read(size)
        },
        TypeLength::Varsize => {
            let length = read_tagged_varint_length(data)? as usize;
            let ghost middle = data@;
            proof {
                lemma_tail_of_skip(middle, 0);
                if length <= middle.len() {
                    lemma_tail_of_skip(middle, length as int);
                    lemma_tail_of_tail(middle.skip(length as int), middle, old(data)@);
                }
            }
            data.read(length)
        },
    }
}

/// Reads a type byte and returns the type it names.
pub fn read_type_id(data: &mut BytesRef) -> (r: ParseResult<TypeId>)
    ensures
        match r {
            Ok(t) => old(data)@.len() > 0 && TypeId::of_byte(old(data)@[0]) == Some(t)
                && final(data)@ == old(data)@.skip(1),
            Err(e) => if old(data)@.len() == 0 {
                *e.kind() == (ParseErrorKind::InsufficientData { needed: 1, available: 0 })
            } else {
                TypeId::of_byte(old(data)@[0]) is None && *e.kind()
                    == ParseErrorKind::InvalidTypeId(old(data)@[0])
            },
        },
        is_tail(final(data)@, old(data)@),
{
    proof {
        lemma_tail_of_skip(old(data)@, 0);
        if old(data)@.len() >= 1 {
            lemma_tail_of_skip(old(data)@, 1);
        }
    }
    let type_byte = read_byte(data)?;
    match TypeId::from_byte(type_byte) {
        Some(t) => Ok(t),
        None => Err(ParseError::new(ParseErrorKind::InvalidTypeId(type_byte))),
    }
}

/// Reads a type byte and checks that it names `expected`.
pub fn expect_type_id(data: &mut BytesRef, expected: TypeId) -> (r: ParseResult<TypeId>)
    ensures
        match r {
            Ok(t) => t == expected && type_byte(expected, old(data)@) == Ok::<
                Seq<u8>,
                ParseErrorKind,
            >(final(data)@),
            Err(e) => type_byte(expected, old(data)@) == Err::<Seq<u8>, ParseErrorKind>(*e.kind()),
        },
        is_tail(final(data)@, old(data)@),
{
    proof {
        lemma_tail_of_skip(old(data)@, 0);
        if old(data)@.len() >= 1 {
            lemma_tail_of_skip(old(data)@, 1);
        }
    }
    let type_byte = read_byte(data)?;
    match TypeId::from_byte(type_byte) {
        None => Err(ParseError::new(ParseErrorKind::InvalidTypeId(type_byte))),
        Some(t) => {
            if t != expected {
                Err(
                    ParseError::new(
                        ParseErrorKind::TypeMismatch {
                            expected: expected.to_byte(),
                            actual: type_byte,
                        },
                    ),
                )
            } else {
                Ok(t)
            }
        },
    }
}

} // verus!
