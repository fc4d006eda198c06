//! The contract between a type and the codec: what a type says of its wire
//! form, and what its reader and writer owe in return.

use crate::buf::{is_tail, BytesRef};
use crate::error::{ParseError, ParseErrorKind, ParseResult, WriteErrorKind, WriteResult};
use crate::type_id::TypeId;
use crate::wire::{fits, framed};
use vstd::prelude::*;

verus! {

/// A length as a `usize` holds it: the greatest `usize` stands for every
/// length beyond it.
pub open spec fn clamp_length(n: nat) -> usize {
    if n > usize::MAX {
        usize::MAX
    } else {
        n as usize
    }
}

/// What is in a buffer stays in front when bytes are appended.
pub proof fn lemma_prefix_of_sum(before: Seq<u8>, more: Seq<u8>)
    ensures
        before.is_prefix_of(before + more),
        before.is_prefix_of(before),
{
    assert(before =~= (before + more).subrange(0, before.len() as int));
    assert(before =~= before.subrange(0, before.len() as int));
}

/// What stays in front through one change and through the next stays in
/// front through both.
pub proof fn lemma_prefix_of_prefix(first: Seq<u8>, second: Seq<u8>, third: Seq<u8>)
    requires
        first.is_prefix_of(second),
        second.is_prefix_of(third),
    ensures
        first.is_prefix_of(third),
{
    assert(first =~= third.subrange(0, first.len() as int));
}

/// What stays in front of a buffer stays in front of everything that the
/// buffer stays in front of.
pub proof fn lemma_prefixes_of_prefix(first: Seq<u8>, second: Seq<u8>)
    requires
        first.is_prefix_of(second),
    ensures
        forall|third: Seq<u8>| #[trigger] second.is_prefix_of(third) ==> first.is_prefix_of(third),
{
    assert forall|third: Seq<u8>| #[trigger] second.is_prefix_of(third) implies first.is_prefix_of(
        third,
    ) by {
        lemma_prefix_of_prefix(first, second, third);
    }
}

/// The sum of two lengths; the greatest `usize` where the sum is beyond it.
pub fn add_lengths(a: usize, b: usize) -> (n: usize)
    ensures
        n == clamp_length((a + b) as nat),
{
    if a > usize::MAX - b {
        usize::MAX
    } else {
        a + b
    }
}

/// A type with a wire form.
///
/// The `spec` functions are the type's account of its wire form. A type
/// that overrides [`Relish::obeys_wire_spec`] with `true` vouches that its
/// three executable methods keep the contracts below with respect to that
/// account. A type that gives no account keeps the defaults: its methods
/// are called, and nothing is claimed of what they return.
pub trait Relish: Sized {
    /// The wire type of the values of this type.
    const TYPE: TypeId;

    /// Whether the executable methods keep their contracts.
    open spec fn obeys_wire_spec() -> bool {
        false
    }

    /// The content of the value on the wire: what follows the type byte
    /// and, for a type without fixed size, the length prefix.
    open spec fn content(&self) -> Seq<u8> {
        Seq::empty()
    }

    /// The reason why the value cannot be written, if there is one.
    open spec fn write_error(&self) -> Option<WriteErrorKind> {
        None
    }

    /// The reason why `content` is not the content of a value of this type,
    /// if there is one.
    open spec fn parse_error(content: Seq<u8>) -> Option<ParseErrorKind> {
        None
    }

    /// Whether `value` is what `content` decodes to. Meaningful where
    /// `parse_error(content)` is `None`.
    open spec fn parsed(content: Seq<u8>, value: &Self) -> bool {
        true
    }

    /// Decodes a value from its content. The reader holds the content and
    /// nothing else; what is left in it afterwards is a tail of what was
    /// there.
    fn parse_value(data: &mut BytesRef) -> (r: ParseResult<Self>)
        ensures
            Self::obeys_wire_spec() ==> match r {
                Ok(v) => Self::parse_error(old(data)@) is None && Self::parsed(old(data)@, &v),
                Err(e) => Self::parse_error(old(data)@) == Some(*e.kind()),
            },
            Self::obeys_wire_spec() ==> is_tail(final(data)@, old(data)@),
    ;

    /// Appends the payload of the value: its content, behind a length
    /// prefix if the type has no fixed size. On an error the buffer holds
    /// what it held, and after it bytes of no meaning.
    fn write_value(&self, buffer: &mut Vec<u8>) -> (r: WriteResult<()>)
        ensures
            Self::obeys_wire_spec() ==> match r {
                Ok(()) => self.write_error() is None && final(buffer)@ == old(buffer)@ + framed(
                    Self::TYPE,
                    self.content(),
                ),
                Err(e) => self.write_error() == Some(*e.kind()),
            },
            Self::obeys_wire_spec() ==> old(buffer)@.is_prefix_of(final(buffer)@),
    ;

    /// The number of bytes that [`Relish::write_value`] appends, with the
    /// greatest `usize` for every number beyond it.
    fn value_length(&self) -> (n: usize)
        ensures
            Self::obeys_wire_spec() ==> n == clamp_length(
                framed(Self::TYPE, self.content()).len(),
            ),
    ;
}

/// Whether decoding undoes encoding at `v`: a value that can be written has
/// a content that suits its wire type and decodes to the value.
pub open spec fn roundtrips<T: Relish>(v: T) -> bool {
    v.write_error() is None ==> {
        &&& fits(T::TYPE, v.content())
        &&& T::parse_error(v.content()) is None
        &&& T::parsed(v.content(), &v)
    }
}

/// Whether `r` is what decoding `content` as a `T` has to return.
pub open spec fn decoded<T: Relish>(content: Seq<u8>, r: ParseResult<T>) -> bool {
    match r {
        Ok(v) => T::parse_error(content) is None && T::parsed(content, &v),
        Err(e) => T::parse_error(content) == Some(*e.kind()),
    }
}

/// The declared type of a struct field: a value that is always there, or
/// one that may be absent.
pub trait FieldValue: Sized {
    /// The type of the value on the wire.
    type T: Relish;

    /// The value to write, if the field holds one.
    spec fn present(&self) -> Option<&Self::T>;

    /// What a field is made of when the payload holds or lacks its record.
    spec fn filled(v: Option<Self::T>) -> Result<Self, ParseErrorKind>;

    /// The value to write, if the field holds one.
    fn as_relish(&self) -> (r: Option<&Self::T>)
        ensures
            r == self.present(),
    ;

    /// Makes the field from what the payload held for it.
    fn from_option(v: Option<Self::T>) -> (r: ParseResult<Self>)
        ensures
            match r {
                Ok(f) => Self::filled(v) == Ok::<Self, ParseErrorKind>(f),
                Err(e) => Self::filled(v) == Err::<Self, ParseErrorKind>(*e.kind()),
            },
    ;
}

/// A required field: always written, and missed when the payload lacks it.
impl<T: Relish> FieldValue for T {
    type T = T;

    open spec fn present(&self) -> Option<&Self::T> {
        Some(self)
    }

    open spec fn filled(v: Option<Self::T>) -> Result<Self, ParseErrorKind> {
        match v {
            Some(value) => Ok(value),
            None => Err(ParseErrorKind::MissingRequiredField),
        }
    }

    fn as_relish(&self) -> (r: Option<&Self::T>) {
        Some(self)
    }

    fn from_option(v: Option<Self::T>) -> (r: ParseResult<Self>) {
        match v {
            Some(value) => Ok(value),
            None => Err(ParseError::new(ParseErrorKind::MissingRequiredField)),
        }
    }
}

/// An optional field: written when it holds a value, and empty when the
/// payload lacks it.
impl<T: Relish> FieldValue for Option<T> {
    type T = T;

    open spec fn present(&self) -> Option<&Self::T> {
        match self {
            Some(value) => Some(value),
            None => None,
        }
    }

    open spec fn filled(v: Option<Self::T>) -> Result<Self, ParseErrorKind> {
        Ok(v)
    }

    fn as_relish(&self) -> (r: Option<&Self::T>) {
        self.as_ref()
    }

    fn from_option(v: Option<Self::T>) -> (r: ParseResult<Self>) {
        Ok(v)
    }
}

} // verus!
