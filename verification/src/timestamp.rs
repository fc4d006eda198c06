//! Points in time: whole seconds since the Unix epoch, as far as the
//! calendar of the `chrono` crate reaches.

use crate::buf::BytesRef;
use crate::error::{
    ParseError, ParseErrorKind, ParseResult, WriteError, WriteErrorKind, WriteResult,
};
use crate::integers::{leading_value, lemma_unsigned_roundtrip, parse_unsigned, short_of};
use crate::le::{le_bytes, lemma_le_bytes_len, lemma_pow256_values, write_le};
use crate::traits::{roundtrips, Relish};
use crate::type_id::TypeId;
use vstd::prelude::*;

verus! {

/// Whether the calendar has a date and time for this number of seconds
/// since the epoch: whether `chrono::DateTime::from_timestamp` returns one
/// for it, with no nanoseconds.
pub uninterp spec fn calendar_holds(secs: i64) -> bool;

/// `chrono::DateTime::from_timestamp`, asked only whether it returns a
/// date and time. Trusted: the answer depends on the number of seconds
/// alone.
#[verifier::external_body]
pub(crate) fn in_calendar(secs: i64) -> (b: bool)
    ensures
        b == calendar_holds(secs),
{
    chrono::DateTime::from_timestamp(secs, 0).is_some()
}

/// A point in time, to the second.
#[derive(Debug, Clone, Copy, PartialEq, Eq, Structural, Hash)]
pub struct Timestamp {
    secs: i64,
}

/// The number of seconds that a wire value stands for, if it stands for a
/// point in time: it must fit a signed integer, and the calendar must hold
/// it.
pub open spec fn wire_seconds(seconds: u64, in_calendar: bool) -> Result<i64, ParseErrorKind> {
    if seconds <= i64::MAX && in_calendar {
        Ok(seconds as i64)
    } else {
        Err(ParseErrorKind::InvalidTimestamp(seconds))
    }
}

impl Timestamp {
    /// The seconds since the epoch, for use in contracts.
    pub closed spec fn spec_secs(self) -> i64 {
        self.secs
    }

    /// Whether the calendar holds this point in time.
    pub open spec fn in_calendar(self) -> bool {
        calendar_holds(self.secs())
    }

    /// The point in time that lies `secs` seconds after the epoch, or
    /// before it for a negative number; `None` where the calendar does not
    /// reach that far.
    pub fn from_secs(secs: i64) -> (r: Option<Self>)
        ensures
            r is Some <==> calendar_holds(secs),
            r matches Some(t) ==> t.secs() == secs && t.in_calendar(),
    {
        if in_calendar(secs) {
            Some(Timestamp { secs })
        } else {
            None
        }
    }

    /// The seconds since the epoch.
    #[verifier::when_used_as_spec(spec_secs)]
    pub fn secs(self) -> (secs: i64)
        ensures
            secs == self.secs(),
    {
        self.secs
    }

    /// The point in time that a wire value stands for, given whether the
    /// calendar holds it.
    pub fn from_wire(seconds: u64, in_calendar: bool) -> (r: ParseResult<Self>)
        ensures
            match r {
                Ok(t) => wire_seconds(seconds, in_calendar) == Ok::<i64, ParseErrorKind>(
                    t.secs(),
                ),
                Err(e) => wire_seconds(seconds, in_calendar) == Err::<i64, ParseErrorKind>(
                    *e.kind(),
                ),
            },
    {
        if seconds <= i64::MAX as u64 && in_calendar {
            Ok(Timestamp { secs: seconds as i64 })
        } else {
            Err(ParseError::new(ParseErrorKind::InvalidTimestamp(seconds)))
        }
    }

    /// A point in time is nothing but its number of seconds.
    pub proof fn lemma_secs_determine(a: Self, b: Self)
        requires
            a.secs() == b.secs(),
        ensures
            a == b,
    {
    }
}

/// Whether the calendar holds a wire value. A value that fits no signed
/// integer is not asked for.
pub open spec fn wire_in_calendar(seconds: u64) -> bool {
    seconds <= i64::MAX && calendar_holds(seconds as i64)
}

/// A point in time: eight bytes, the seconds since the epoch as an
/// unsigned number. A time before the epoch cannot be written.
impl Relish for Timestamp {
    const TYPE: TypeId = TypeId::Timestamp;

    open spec fn obeys_wire_spec() -> bool {
        true
    }

    open spec fn content(&self) -> Seq<u8> {
        le_bytes(
            if self.secs() >= 0 {
                self.secs() as nat
            } else {
                0
            },
            8,
        )
    }

    open spec fn write_error(&self) -> Option<WriteErrorKind> {
        if self.secs() < 0 {
            Some(WriteErrorKind::InvalidTimestamp)
        } else {
            None
        }
    }

    open spec fn parse_error(content: Seq<u8>) -> Option<ParseErrorKind> {
        match short_of(8, content) {
            Some(e) => Some(e),
            None => {
                let seconds = leading_value(8, content) as u64;
                match wire_seconds(seconds, wire_in_calendar(seconds)) {
                    Err(e) => Some(e),
                    Ok(_) => None,
                }
            },
        }
    }

    open spec fn parsed(content: Seq<u8>, value: &Self) -> bool {
        value.secs() as nat == leading_value(8, content)
    }

    fn parse_value(data: &mut BytesRef) -> (r: ParseResult<Self>) {
        let value = parse_unsigned(data, 8)?;
        proof {
            lemma_pow256_values();
        }
        let seconds = value as u64;
        let holds = seconds <= i64::MAX as u64 && in_calendar(seconds as i64);
        Timestamp::from_wire(seconds, holds)
    }

    fn write_value(&self, buffer: &mut Vec<u8>) -> (r: WriteResult<()>) {
        if self.secs < 0 {
            return Err(WriteError::new(WriteErrorKind::InvalidTimestamp));
        }
        write_le(buffer, self.secs as u128, 8);
        Ok(())
    }

    fn value_length(&self) -> (n: usize) {
        proof {
            lemma_le_bytes_len(0, 8);
            if self.secs() >= 0 {
                lemma_le_bytes_len(self.secs() as nat, 8);
            }
        }
        8
    }
}

/// The wire type of a point in time.
pub proof fn lemma_timestamp_wire_type()
    ensures
        <Timestamp as Relish>::TYPE == TypeId::Timestamp,
{
}

/// Decoding undoes encoding at every point in time that the calendar
/// holds.
pub proof fn lemma_timestamp_roundtrips(t: Timestamp)
    requires
        t.in_calendar(),
    ensures
        roundtrips(t),
{
    lemma_pow256_values();
    if t.secs() >= 0 {
        lemma_unsigned_roundtrip(t.secs() as nat, 8, Seq::empty());
        assert(le_bytes(t.secs() as nat, 8) + Seq::<u8>::empty() =~= le_bytes(
            t.secs() as nat,
            8,
        ));
    }
}

} // verus!
