//! The two error taxonomies of the codec: what can go wrong while decoding a
//! payload, and what can go wrong while encoding a value.

use vstd::prelude::*;

verus! {

/// The ways in which decoding a payload can fail.
#[derive(Debug, Clone, PartialEq, Eq, Structural)]
#[allow(inconsistent_fields)]
pub enum ParseErrorKind {
    /// A type byte that names no wire type.
    InvalidTypeId(u8),
    /// A field or variant id whose top bit is set.
    InvalidFieldId(u8),
    /// A struct record whose id does not exceed the id before it.
    FieldOrderViolation { previous: u8, current: u8 },
    /// String content that is not UTF-8.
    InvalidUtf8,
    /// A map payload that holds one key twice.
    DuplicateMapKey,
    /// Kept for payloads whose enum content length disagrees with the value
    /// inside; no decoder of this crate raises it.
    EnumContentLengthMismatch { expected: u32, actual: u32 },
    /// A type byte that differs from the one the reader asked for.
    TypeMismatch { expected: u8, actual: u8 },
    /// A bool byte that is neither `0x00` nor `0xFF`.
    InvalidBoolValue(u8),
    /// Fewer bytes are left than the next item needs.
    InsufficientData { needed: usize, available: usize },
    /// A required struct field does not occur in the payload.
    MissingRequiredField,
    /// Bytes are left over where the payload had to end.
    ExtraData { bytes_remaining: usize },
    /// An enum variant id that the schema does not declare.
    UnknownVariant(u8),
    /// A timestamp that the calendar cannot hold.
    InvalidTimestamp(u64),
}

/// The error that decoding returns.
#[derive(Debug, Clone, PartialEq, Eq, Structural)]
pub struct ParseError {
    kind: ParseErrorKind,
}

impl ParseError {
    /// The kind this error carries, for use in contracts.
    pub closed spec fn spec_kind(&self) -> &ParseErrorKind {
        &self.kind
    }

    /// An error of the given kind.
    pub fn new(kind: ParseErrorKind) -> (e: Self)
        ensures
            *e.kind() == kind,
    {
        Self { kind }
    }

    /// The kind of failure.
    #[verifier::when_used_as_spec(spec_kind)]
    pub fn kind(&self) -> (k: &ParseErrorKind)
        ensures
            k == self.kind(),
    {
        &self.kind
    }

    /// An error is nothing but its kind.
    pub proof fn lemma_kind_determines(a: Self, b: Self)
        requires
            a.kind() == b.kind(),
        ensures
            a == b,
    {
    }
}

/// What decoding returns.
pub type ParseResult<T> = Result<T, ParseError>;

/// The ways in which encoding a value can fail.
#[derive(Debug, Clone, PartialEq, Eq, Structural)]
pub enum WriteErrorKind {
    /// A field or variant id whose top bit is set.
    FieldIdTooLarge(u8),
    /// A content length that no length prefix can express.
    ContentTooLarge(usize),
    /// A point in time before the Unix epoch.
    InvalidTimestamp,
}

/// The error that encoding returns.
#[derive(Debug, Clone, PartialEq, Eq, Structural)]
pub struct WriteError {
    kind: WriteErrorKind,
}

impl WriteError {
    /// The kind this error carries, for use in contracts.
    pub closed spec fn spec_kind(&self) -> &WriteErrorKind {
        &self.kind
    }

    /// An error of the given kind.
    pub fn new(kind: WriteErrorKind) -> (e: Self)
        ensures
            *e.kind() == kind,
    {
        Self { kind }
    }

    /// The kind of failure.
    #[verifier::when_used_as_spec(spec_kind)]
    pub fn kind(&self) -> (k: &WriteErrorKind)
        ensures
            k == self.kind(),
    {
        &self.kind
    }

    /// An error is nothing but its kind.
    pub proof fn lemma_kind_determines(a: Self, b: Self)
        requires
            a.kind() == b.kind(),
        ensures
            a == b,
    {
    }
}

/// What encoding returns.
pub type WriteResult<T> = Result<T, WriteError>;

} // verus!
