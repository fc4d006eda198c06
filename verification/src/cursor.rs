//! The struct reader: a forward-only cursor over the records of a struct
//! payload. It hands out the fields that a schema asks for, skips the
//! fields that the schema does not know, and refuses records out of order.

use crate::buf::{is_tail, lemma_tail_of_skip, lemma_tails_of_tail, BytesRef};
use crate::error::{ParseError, ParseErrorKind, ParseResult};
use crate::traits::{FieldValue, Relish};
use crate::type_id::TypeId;
use crate::record::MAX_FIELD_ID;
use crate::wire::{
    fits, frame, lemma_any_frame_appended, lemma_frame_appended, lemma_frame_parts,
    lemma_tagged_frame_tagged, read_byte, read_type_id, read_value_for_typeid, tagged, tagged_frame,
};
use vstd::prelude::*;

verus! {

/// The id of the record at the front of `s`: none where `s` is empty, and
/// an error where the top bit of the id is set.
pub open spec fn next_field_id(s: Seq<u8>) -> Result<Option<u8>, ParseErrorKind> {
    if s.len() == 0 {
        Ok(None)
    } else if s[0] >= 0x80 {
        Err(ParseErrorKind::InvalidFieldId(s[0]))
    } else {
        Ok(Some(s[0]))
    }
}

/// What follows the record at the front of `s`, whatever type its value
/// has; or the reason why the record cannot be passed over.
pub open spec fn skip_record(s: Seq<u8>) -> Result<Seq<u8>, ParseErrorKind> {
    if s.len() < 2 {
        Err(ParseErrorKind::InsufficientData { needed: 1, available: 0 })
    } else {
        match TypeId::of_byte(s[1]) {
            None => Err(ParseErrorKind::InvalidTypeId(s[1])),
            Some(t) => match frame(t, s.skip(2)) {
                Err(e) => Err(e),
                Ok((_, rest)) => Ok(rest),
            },
        }
    }
}

/// A record that is passed over takes at least its two leading bytes.
pub proof fn lemma_skip_record_shrinks(s: Seq<u8>)
    ensures
        skip_record(s) matches Ok(rest) ==> rest.len() + 2 <= s.len(),
{
    if s.len() >= 2 {
        match TypeId::of_byte(s[1]) {
            None => {},
            Some(t) => {
                lemma_frame_parts(t, s.skip(2));
            },
        }
    }
}

/// What the order rule has against the id `current` behind the id `last`,
/// if anything: ids must rise strictly.
pub open spec fn order_error(last: Option<u8>, current: u8) -> Option<ParseErrorKind> {
    match last {
        Some(previous) => if current <= previous {
            Some(ParseErrorKind::FieldOrderViolation { previous, current })
        } else {
            None
        },
        None => None,
    }
}

/// What asking for the field `target` of type `expected` does to a cursor
/// that has `s` before it and saw the id `last` last. On success: the
/// content of the field if the payload holds it, what the cursor has
/// before it afterwards, and the id it saw last.
///
/// Records with a lower id are passed over. A record with a higher id
/// stays where it is.
pub open spec fn seek(s: Seq<u8>, last: Option<u8>, target: u8, expected: TypeId) -> Result<
    (Option<Seq<u8>>, Seq<u8>, Option<u8>),
    ParseErrorKind,
>
    decreases s.len(),
{
    match next_field_id(s) {
        Err(e) => Err(e),
        Ok(None) => Ok((None, s, last)),
        Ok(Some(id)) => match order_error(last, id) {
            Some(e) => Err(e),
            None => if id < target {
                match skip_record(s) {
                    Err(e) => Err(e),
                    Ok(rest) => {
                        proof {
                            lemma_skip_record_shrinks(s);
                        }
                        seek(rest, Some(id), target, expected)
                    },
                }
            } else if id == target {
                match tagged_frame(expected, s.skip(1)) {
                    Err(e) => Err(e),
                    Ok((content, rest)) => Ok((Some(content), rest, Some(id))),
                }
            } else {
                Ok((None, s, last))
            },
        },
    }
}

/// The first error on the way through all the records in `s`, behind the
/// id `last`, if there is one.
pub open spec fn drain_error(s: Seq<u8>, last: Option<u8>) -> Option<ParseErrorKind>
    decreases s.len(),
{
    match next_field_id(s) {
        Err(e) => Some(e),
        Ok(None) => None,
        Ok(Some(id)) => match order_error(last, id) {
            Some(e) => Some(e),
            None => match skip_record(s) {
                Err(e) => Some(e),
                Ok(rest) => {
                    proof {
                        lemma_skip_record_shrinks(s);
                    }
                    drain_error(rest, Some(id))
                },
            },
        },
    }
}

/// A record on the wire: the id, the type byte, the payload.
pub open spec fn record(id: u8, t: TypeId, content: Seq<u8>) -> Seq<u8> {
    seq![id] + tagged(t, content)
}

/// Records back to back.
pub open spec fn records_bytes(fields: Seq<(u8, TypeId, Seq<u8>)>) -> Seq<u8>
    decreases fields.len(),
{
    if fields.len() == 0 {
        Seq::empty()
    } else {
        record(fields[0].0, fields[0].1, fields[0].2) + records_bytes(fields.skip(1))
    }
}

/// Whether each record has an id with the top bit clear and a content that
/// suits its type.
pub open spec fn records_well_formed(fields: Seq<(u8, TypeId, Seq<u8>)>) -> bool {
    forall|i: int|
        0 <= i < fields.len() ==> (#[trigger] fields[i]).0 <= MAX_FIELD_ID && fits(
            fields[i].1,
            fields[i].2,
        )
}

/// The first breach of the order rule among the ids of the records,
/// behind the id `last`, if there is one.
pub open spec fn first_disorder(fields: Seq<(u8, TypeId, Seq<u8>)>, last: Option<u8>) -> Option<
    ParseErrorKind,
>
    decreases fields.len(),
{
    if fields.len() == 0 {
        None
    } else {
        match order_error(last, fields[0].0) {
            Some(e) => Some(e),
            None => first_disorder(fields.skip(1), Some(fields[0].0)),
        }
    }
}

/// Whether every id met on the way through the records in `s` is below
/// `bound`.
pub open spec fn ids_below(s: Seq<u8>, bound: u8) -> bool
    decreases s.len(),
{
    match next_field_id(s) {
        Ok(Some(id)) => id < bound && match skip_record(s) {
            Ok(rest) => {
                proof {
                    lemma_skip_record_shrinks(s);
                }
                ids_below(rest, bound)
            },
            Err(_) => true,
        },
        _ => true,
    }
}

/// Whether the id seen last, if any, is below `bound`.
pub open spec fn seen_below(last: Option<u8>, bound: u8) -> bool {
    match last {
        Some(id) => id < bound,
        None => true,
    }
}

/// A well-formed record in front of other bytes is passed over, and the
/// other bytes are what follows.
pub proof fn lemma_skip_record_of_record(id: u8, t: TypeId, content: Seq<u8>, rest: Seq<u8>)
    requires
        fits(t, content),
    ensures
        skip_record(record(id, t, content) + rest) == Ok::<Seq<u8>, ParseErrorKind>(rest),
        (record(id, t, content) + rest)[0] == id,
        tagged_frame(t, (record(id, t, content) + rest).skip(1)) == Ok::<
            (Seq<u8>, Seq<u8>),
            ParseErrorKind,
        >((content, rest)),
{
    let s = record(id, t, content) + rest;
    lemma_tagged_frame_tagged(t, content, rest);
    assert(s.skip(1) =~= tagged(t, content) + rest);
    assert(s[1] == t.code());
    t.lemma_code_of_byte(s[1]);
    assert(s.skip(2) =~= s.skip(1).skip(1));
}

/// A record that can be passed over is passed over alike when bytes are
/// put behind what it stood in, and they then follow it.
pub proof fn lemma_skip_record_appended(s: Seq<u8>, more: Seq<u8>)
    ensures
        skip_record(s) matches Ok(rest) ==> skip_record(s + more) == Ok::<
            Seq<u8>,
            ParseErrorKind,
        >(rest + more),
{
    if s.len() >= 2 {
        assert((s + more)[1] == s[1]);
        assert((s + more).skip(2) =~= s.skip(2) + more);
        match TypeId::of_byte(s[1]) {
            None => {},
            Some(t) => {
                lemma_frame_appended(t, s.skip(2), more);
            },
        }
    }
}

/// Going through well-formed records finds the first breach of the order
/// rule and nothing else.
pub proof fn lemma_drain_of_records(fields: Seq<(u8, TypeId, Seq<u8>)>, last: Option<u8>)
    requires
        records_well_formed(fields),
    ensures
        drain_error(records_bytes(fields), last) == first_disorder(fields, last),
    decreases fields.len(),
{
    if fields.len() > 0 {
        let first = fields[0];
        let rest = records_bytes(fields.skip(1));
        lemma_skip_record_of_record(first.0, first.1, first.2, rest);
        assert(records_well_formed(fields.skip(1))) by {
            assert forall|i: int| 0 <= i < fields.skip(1).len() implies (
            #[trigger] fields.skip(1)[i]).0 <= MAX_FIELD_ID && fits(
                fields.skip(1)[i].1,
                fields.skip(1)[i].2,
            ) by {
                assert(fields.skip(1)[i] == fields[i + 1]);
            }
        }
        lemma_drain_of_records(fields.skip(1), Some(first.0));
    }
}

/// A record whose id does not exceed the id of the record before it is a
/// breach of the order rule, found unless an earlier breach is.
pub proof fn lemma_disorder_found(fields: Seq<(u8, TypeId, Seq<u8>)>, last: Option<u8>, i: int)
    requires
        0 < i < fields.len(),
        fields[i].0 <= fields[i - 1].0,
    ensures
        first_disorder(fields, last) matches Some(ParseErrorKind::FieldOrderViolation { .. }),
    decreases fields.len(),
{
    if order_error(last, fields[0].0) is None {
        let tail = fields.skip(1);
        if i == 1 {
            assert(tail[0] == fields[1]);
            assert(order_error(Some(fields[0].0), tail[0].0) is Some);
        } else {
            assert(tail[i - 1] == fields[i]);
            assert(tail[i - 2] == fields[i - 1]);
            lemma_disorder_found(tail, Some(fields[0].0), i - 1);
        }
    }
}

/// Order enforcement: a payload of well-formed records whose ids do not
/// rise strictly is refused as a breach of the order rule when the cursor
/// goes through it.
pub proof fn lemma_order_enforced(fields: Seq<(u8, TypeId, Seq<u8>)>, i: int)
    requires
        records_well_formed(fields),
        0 < i < fields.len(),
        fields[i].0 <= fields[i - 1].0,
    ensures
        drain_error(records_bytes(fields), None) matches Some(
            ParseErrorKind::FieldOrderViolation { .. },
        ),
{
    lemma_drain_of_records(fields, None);
    lemma_disorder_found(fields, None, i);
}

/// Whether the ids of the records rise strictly.
pub open spec fn record_ids_rise(fields: Seq<(u8, TypeId, Seq<u8>)>) -> bool {
    forall|i: int| 0 < i < fields.len() ==> fields[i - 1].0 < (#[trigger] fields[i]).0
}

/// A well-formed record at the front whose id rises above the id seen
/// last is found by a request for its id and its type: the request gives
/// its content, and the cursor then stands behind it.
pub proof fn lemma_record_found(fields: Seq<(u8, TypeId, Seq<u8>)>, last: Option<u8>)
    requires
        records_well_formed(fields),
        fields.len() > 0,
        order_error(last, fields[0].0) is None,
    ensures
        seek(records_bytes(fields), last, fields[0].0, fields[0].1) == Ok::<
            (Option<Seq<u8>>, Seq<u8>, Option<u8>),
            ParseErrorKind,
        >((Some(fields[0].2), records_bytes(fields.skip(1)), Some(fields[0].0))),
{
    let first = fields[0];
    lemma_skip_record_of_record(first.0, first.1, first.2, records_bytes(fields.skip(1)));
}

/// A request for an id below the id of the record at the front, or with
/// no record left, finds nothing and leaves the cursor where it was.
pub proof fn lemma_record_absent(s: Seq<u8>, last: Option<u8>, target: u8, expected: TypeId)
    requires
        s.len() > 0 ==> target < s[0] <= MAX_FIELD_ID && order_error(last, s[0]) is None,
    ensures
        seek(s, last, target, expected) == Ok::<
            (Option<Seq<u8>>, Seq<u8>, Option<u8>),
            ParseErrorKind,
        >((None, s, last)),
        seek_halt(s, last, target) == (s, last, true),
{
}

/// A struct is read back as it was written: from a payload of well-formed
/// records whose ids rise strictly, requests for the ids and types of the
/// records, one after the other, find each content in turn, and each
/// leaves the cursor in front of the records behind it. Going through what
/// is left after any of them finds nothing to refuse.
pub proof fn lemma_records_read_back(fields: Seq<(u8, TypeId, Seq<u8>)>, i: int)
    requires
        records_well_formed(fields),
        record_ids_rise(fields),
        0 <= i < fields.len(),
    ensures
        seek(
            records_bytes(fields.skip(i)),
            if i == 0 {
                None
            } else {
                Some(fields[i - 1].0)
            },
            fields[i].0,
            fields[i].1,
        ) == Ok::<(Option<Seq<u8>>, Seq<u8>, Option<u8>), ParseErrorKind>(
            (Some(fields[i].2), records_bytes(fields.skip(i + 1)), Some(fields[i].0)),
        ),
        drain_error(records_bytes(fields.skip(i + 1)), Some(fields[i].0)) is None,
{
    let from = fields.skip(i);
    let behind = fields.skip(i + 1);
    assert(from[0] == fields[i]);
    assert(from.skip(1) =~= behind);
    assert(records_well_formed(from)) by {
        assert forall|k: int| 0 <= k < from.len() implies (#[trigger] from[k]).0 <= MAX_FIELD_ID
            && fits(from[k].1, from[k].2) by {
            assert(from[k] == fields[i + k]);
        }
    }
    assert(records_well_formed(behind)) by {
        assert forall|k: int| 0 <= k < behind.len() implies (#[trigger] behind[k]).0
            <= MAX_FIELD_ID && fits(behind[k].1, behind[k].2) by {
            assert(behind[k] == fields[i + 1 + k]);
        }
    }
    lemma_record_found(
        from,
        if i == 0 {
            None
        } else {
            Some(fields[i - 1].0)
        },
    );
    lemma_drain_of_records(behind, Some(fields[i].0));
    lemma_rising_ids_in_order(fields, i + 1);
}

/// Records whose ids rise strictly hold no breach of the order rule.
proof fn lemma_rising_ids_in_order(fields: Seq<(u8, TypeId, Seq<u8>)>, from: int)
    requires
        record_ids_rise(fields),
        0 < from <= fields.len(),
    ensures
        first_disorder(fields.skip(from), Some(fields[from - 1].0)) is None,
    decreases fields.len() - from,
{
    let rest = fields.skip(from);
    if rest.len() > 0 {
        assert(rest[0] == fields[from]);
        assert(rest.skip(1) =~= fields.skip(from + 1));
        lemma_rising_ids_in_order(fields, from + 1);
    }
}

/// A request that is answered without error leaves the cursor in front of
/// the records it did not pass, and leaves the first breach of the order
/// rule, if there is one, to be found.
pub proof fn lemma_seek_keeps_disorder(
    fields: Seq<(u8, TypeId, Seq<u8>)>,
    last: Option<u8>,
    target: u8,
    expected: TypeId,
)
    requires
        records_well_formed(fields),
    ensures
        seek(records_bytes(fields), last, target, expected) matches Ok((_, rest, seen))
            ==> exists|k: int|
            {
                &&& 0 <= k <= fields.len()
                &&& rest == #[trigger] records_bytes(fields.skip(k))
                &&& first_disorder(fields.skip(k), seen) == first_disorder(fields, last)
            },
    decreases fields.len(),
{
    let s = records_bytes(fields);
    if let Ok((_, rest, seen)) = seek(s, last, target, expected) {
        if fields.len() == 0 {
            assert(fields.skip(0) =~= fields);
        } else {
            let first = fields[0];
            let tail = fields.skip(1);
            lemma_skip_record_of_record(first.0, first.1, first.2, records_bytes(tail));
            assert(records_well_formed(tail)) by {
                assert forall|i: int| 0 <= i < tail.len() implies (#[trigger] tail[i]).0
                    <= MAX_FIELD_ID && fits(tail[i].1, tail[i].2) by {
                    assert(tail[i] == fields[i + 1]);
                }
            }
            if first.0 < target {
                lemma_seek_keeps_disorder(tail, Some(first.0), target, expected);
                let k = choose|k: int|
                    {
                        &&& 0 <= k <= tail.len()
                        &&& rest == #[trigger] records_bytes(tail.skip(k))
                        &&& first_disorder(tail.skip(k), seen) == first_disorder(
                            tail,
                            Some(first.0),
                        )
                    };
                assert(tail.skip(k) =~= fields.skip(k + 1));
                assert(rest == records_bytes(fields.skip(k + 1)));
            } else if first.0 == target {
                assert(rest == records_bytes(fields.skip(1)));
            } else {
                assert(fields.skip(0) =~= fields);
                assert(rest == records_bytes(fields.skip(0)));
            }
        }
    }
}

/// Order enforcement, for a reader with a schema: whatever fields the
/// reader asked for without error, going through the rest of a payload of
/// well-formed records whose ids do not rise strictly is refused as a
/// breach of the order rule.
pub proof fn lemma_order_enforced_after_seek(
    fields: Seq<(u8, TypeId, Seq<u8>)>,
    i: int,
    last: Option<u8>,
    target: u8,
    expected: TypeId,
)
    requires
        records_well_formed(fields),
        0 < i < fields.len(),
        fields[i].0 <= fields[i - 1].0,
        seek(records_bytes(fields), last, target, expected) is Ok,
    ensures
        ({
            let (_, rest, seen) = seek(records_bytes(fields), last, target, expected)->Ok_0;
            drain_error(rest, seen) matches Some(ParseErrorKind::FieldOrderViolation { .. })
        }),
{
    let (_, rest, seen) = seek(records_bytes(fields), last, target, expected)->Ok_0;
    lemma_seek_keeps_disorder(fields, last, target, expected);
    let k = choose|k: int|
        {
            &&& 0 <= k <= fields.len()
            &&& rest == #[trigger] records_bytes(fields.skip(k))
            &&& first_disorder(fields.skip(k), seen) == first_disorder(fields, last)
        };
    lemma_disorder_found(fields, last, i);
    assert(records_well_formed(fields.skip(k))) by {
        assert forall|j: int| 0 <= j < fields.skip(k).len() implies (
        #[trigger] fields.skip(k)[j]).0 <= MAX_FIELD_ID && fits(
            fields.skip(k)[j].1,
            fields.skip(k)[j].2,
        ) by {
            assert(fields.skip(k)[j] == fields[j + k]);
        }
    }
    lemma_drain_of_records(fields.skip(k), seen);
}

/// Additive evolution, for a request: a record with a new, greater id
/// behind a payload changes nothing for a reader that asks for a field it
/// knows. It finds what it found, and has the new record before it in the
/// end.
pub proof fn lemma_seek_appended(
    s: Seq<u8>,
    last: Option<u8>,
    target: u8,
    expected: TypeId,
    id: u8,
    t: TypeId,
    content: Seq<u8>,
)
    requires
        id <= MAX_FIELD_ID,
        fits(t, content),
        target < id,
        ids_below(s, id),
        seen_below(last, id),
        seek(s, last, target, expected) is Ok,
    ensures
        ({
            let (found, rest, seen) = seek(s, last, target, expected)->Ok_0;
            &&& seek(s + record(id, t, content), last, target, expected) == Ok::<
                (Option<Seq<u8>>, Seq<u8>, Option<u8>),
                ParseErrorKind,
            >((found, rest + record(id, t, content), seen))
            &&& ids_below(rest, id)
            &&& seen_below(seen, id)
        }),
    decreases s.len(),
{
    let new = record(id, t, content);
    let longer = s + new;
    if s.len() == 0 {
        assert(longer =~= new);
        assert(new[0] == id);
        assert(s + new =~= new);
    } else {
        assert(longer[0] == s[0]);
        let first = s[0];
        if first < target {
            lemma_skip_record_shrinks(s);
            lemma_skip_record_appended(s, new);
            let rest = skip_record(s)->Ok_0;
            lemma_seek_appended(rest, Some(first), target, expected, id, t, content);
        } else if first == target {
            assert(longer.skip(1) =~= s.skip(1) + new);
            lemma_any_frame_appended(s.skip(1), new);
            assert(s.skip(1).skip(1) =~= s.skip(2));
        }
    }
}

/// Additive evolution, for the end of a struct: a record with a new,
/// greater id behind a payload that a reader goes through without error is
/// gone through without error too.
pub proof fn lemma_drain_appended(
    s: Seq<u8>,
    last: Option<u8>,
    id: u8,
    t: TypeId,
    content: Seq<u8>,
)
    requires
        id <= MAX_FIELD_ID,
        fits(t, content),
        ids_below(s, id),
        seen_below(last, id),
        drain_error(s, last) is None,
    ensures
        drain_error(s + record(id, t, content), last) is None,
    decreases s.len(),
{
    let new = record(id, t, content);
    let longer = s + new;
    if s.len() == 0 {
        assert(longer =~= new);
        assert(new + Seq::<u8>::empty() =~= new);
        lemma_skip_record_of_record(id, t, content, Seq::empty());
        assert(drain_error(Seq::empty(), Some(id)) is None);
        assert(order_error(last, id) is None);
        assert(drain_error(new, last) is None);
    } else {
        assert(longer[0] == s[0]);
        lemma_skip_record_shrinks(s);
        lemma_skip_record_appended(s, new);
        let rest = skip_record(s)->Ok_0;
        lemma_drain_appended(rest, Some(s[0]), id, t, content);
    }
}

/// Where a request for the field `target` comes to a halt: the bytes
/// from the record on at which it ends, the id seen last by then, and
/// whether the cursor stands in front of that record, or else somewhere
/// inside it.
///
/// The id of a record counts as seen as soon as the cursor sets out to
/// take it or to pass over it. A record whose id is refused, out of order
/// or greater than the one asked for is not touched.
pub open spec fn seek_halt(s: Seq<u8>, last: Option<u8>, target: u8) -> (Seq<u8>, Option<u8>, bool)
    decreases s.len(),
{
    match next_field_id(s) {
        Ok(Some(id)) => if order_error(last, id) is Some || id > target {
            (s, last, true)
        } else if id == target {
            (s, Some(id), false)
        } else {
            match skip_record(s) {
                Err(_) => (s, Some(id), false),
                Ok(rest) => {
                    proof {
                        lemma_skip_record_shrinks(s);
                    }
                    seek_halt(rest, Some(id), target)
                },
            }
        },
        _ => (s, last, true),
    }
}

/// Where going through all the records comes to a halt: the bytes from
/// the record on at which it ends, or nothing where it ends behind the
/// last record; the id seen last by then; and whether the cursor stands
/// in front of that record, or else somewhere inside it.
pub open spec fn drain_halt(s: Seq<u8>, last: Option<u8>) -> (Seq<u8>, Option<u8>, bool)
    decreases s.len(),
{
    match next_field_id(s) {
        Ok(Some(id)) => if order_error(last, id) is Some {
            (s, last, true)
        } else {
            match skip_record(s) {
                Err(_) => (s, Some(id), false),
                Ok(rest) => {
                    proof {
                        lemma_skip_record_shrinks(s);
                    }
                    drain_halt(rest, Some(id))
                },
            }
        },
        _ => (s, last, true),
    }
}

/// Whether a cursor that has `remaining` before it and saw `seen` last
/// stands where `halt` says.
pub open spec fn stands_at(
    remaining: Seq<u8>,
    seen: Option<u8>,
    halt: (Seq<u8>, Option<u8>, bool),
) -> bool {
    &&& seen == halt.1
    &&& is_tail(remaining, halt.0)
    &&& halt.2 ==> remaining == halt.0
}

/// A record that is refused is not touched. Where the id at the front is
/// not an id, or does not rise above the id seen last, a request for a
/// field and a pass over all the records both leave the cursor where it
/// was: with the same bytes before it and the same id seen last.
pub proof fn lemma_refused_record_untouched(
    s: Seq<u8>,
    last: Option<u8>,
    target: u8,
    remaining: Seq<u8>,
    seen: Option<u8>,
)
    requires
        next_field_id(s) is Err || (next_field_id(s) matches Ok(Some(id)) && order_error(
            last,
            id,
        ) is Some),
        stands_at(remaining, seen, seek_halt(s, last, target)) || stands_at(
            remaining,
            seen,
            drain_halt(s, last),
        ),
    ensures
        seek_halt(s, last, target) == (s, last, true),
        drain_halt(s, last) == (s, last, true),
        remaining == s,
        seen == last,
{
}

/// A forward-only cursor over the records of a struct payload.
pub struct StructParser<'b> {
    data: BytesRef<'b>,
    last_seen_field_id: Option<u8>,
}

impl<'b> StructParser<'b> {
    /// The bytes that the cursor has before it.
    pub closed spec fn remaining(&self) -> Seq<u8> {
        self.data@
    }

    /// The id of the record that the cursor took or passed over last.
    pub closed spec fn last_seen(&self) -> Option<u8> {
        self.last_seen_field_id
    }

    /// A cursor over everything that is left in `data`. The reader is left
    /// empty: the cursor has its bytes.
    pub fn new(data: &mut BytesRef<'b>) -> (r: Self)
        ensures
            r.remaining() == old(data)@,
            r.last_seen() is None,
            final(data)@.len() == 0,
    {
        StructParser { data: data.take_all(), last_seen_field_id: None }
    }

    /// The id of the record at the front, without taking it.
    fn peek_field_id(&self) -> (r: ParseResult<Option<u8>>)
        ensures
            match r {
                Ok(id) => next_field_id(self.remaining()) == Ok::<Option<u8>, ParseErrorKind>(id),
                Err(e) => next_field_id(self.remaining()) == Err::<Option<u8>, ParseErrorKind>(
                    *e.kind(),
                ),
            },
    {
        match self.data.peek_byte() {
            None => Ok(None),
            Some(field_id) => {
                if field_id >= 0x80 {
                    Err(ParseError::new(ParseErrorKind::InvalidFieldId(field_id)))
                } else {
                    Ok(Some(field_id))
                }
            },
        }
    }

    /// Passes over the record at the front.
    fn skip_current_field(&mut self) -> (r: ParseResult<()>)
        ensures
            final(self).last_seen() == old(self).last_seen(),
            match r {
                Ok(()) => skip_record(old(self).remaining()) == Ok::<Seq<u8>, ParseErrorKind>(
                    final(self).remaining(),
                ),
                Err(e) => skip_record(old(self).remaining()) == Err::<Seq<u8>, ParseErrorKind>(
                    *e.kind(),
                ),
            },
            is_tail(final(self).remaining(), old(self).remaining()),
    {
        let ghost s = self.data@;
        proof {
            lemma_tail_of_skip(s, 0);
            if s.len() >= 1 {
                lemma_tail_of_skip(s, 1);
                lemma_tails_of_tail(s.skip(1), s);
            }
            if s.len() >= 2 {
                assert(s.skip(1).skip(1) =~= s.skip(2));
                lemma_tail_of_skip(s, 2);
                lemma_tails_of_tail(s.skip(2), s);
            }
        }
        let _field_id = read_byte(&mut self.data)?;
        let type_id = read_type_id(&mut self.data)?;
        let _value = read_value_for_typeid(&mut self.data, type_id)?;
        Ok(())
    }

    /// The value of the field `target_field_id`, or `None` where the
    /// payload does not hold the field. Records with a lower id are passed
    /// over; the first record out of order ends the reading.
    pub fn read_value_for_field_id<T: FieldValue>(&mut self, target_field_id: u8) -> (r:
        ParseResult<Option<T::T>>)
        ensures
            match seek(
                old(self).remaining(),
                old(self).last_seen(),
                target_field_id,
                <T::T as Relish>::TYPE,
            ) {
                Err(k) => r matches Err(e) && *e.kind() == k,
                Ok((None, rest, last)) => {
                    &&& r matches Ok(None)
                    &&& final(self).remaining() == rest
                    &&& final(self).last_seen() == last
                },
                Ok((Some(content), rest, last)) => {
                    &&& final(self).remaining() == rest
                    &&& final(self).last_seen() == last
                    &&& <T::T as Relish>::obeys_wire_spec() ==> match r {
                        Ok(Some(v)) => <T::T as Relish>::parse_error(content) is None && <
                            T::T as Relish
                        >::parsed(content, &v),
                        Ok(None) => false,
                        Err(e) => <T::T as Relish>::parse_error(content) == Some(*e.kind()),
                    }
                },
            },
            stands_at(
                final(self).remaining(),
                final(self).last_seen(),
                seek_halt(old(self).remaining(), old(self).last_seen(), target_field_id),
            ),
            is_tail(final(self).remaining(), old(self).remaining()),
    {
        proof {
            lemma_tail_of_skip(self.remaining(), 0);
        }
        loop
            invariant
                is_tail(self.remaining(), old(self).remaining()),
                seek_halt(old(self).remaining(), old(self).last_seen(), target_field_id)
                    == seek_halt(self.remaining(), self.last_seen(), target_field_id),
                seek(
                    old(self).remaining(),
                    old(self).last_seen(),
                    target_field_id,
                    <T::T as Relish>::TYPE,
                ) == seek(
                    self.remaining(),
                    self.last_seen(),
                    target_field_id,
                    <T::T as Relish>::TYPE,
                ),
            decreases self.remaining().len(),
        {
            proof {
                lemma_tail_of_skip(self.remaining(), 0);
            }
            let field_id = match self.peek_field_id()? {
                None => {
                    return Ok(None);
                },
                Some(field_id) => field_id,
            };
            if let Some(last_id) = self.last_seen_field_id {
                if field_id <= last_id {
                    return Err(
                        ParseError::new(
                            ParseErrorKind::FieldOrderViolation {
                                previous: last_id,
                                current: field_id,
                            },
                        ),
                    );
                }
            }
            let ghost here = self.remaining();
            proof {
                lemma_tails_of_tail(here, old(self).remaining());
                lemma_tail_of_skip(here, 1);
                lemma_tails_of_tail(here.skip(1), here);
            }
            if field_id < target_field_id {
                proof {
                    lemma_skip_record_shrinks(self.remaining());
                }
                self.last_seen_field_id = Some(field_id);
                self.skip_current_field()?;
            } else if field_id == target_field_id {
                self.last_seen_field_id = Some(field_id);
                let _field_id = read_byte(&mut self.data)?;
                let type_id = TypeId::read_for_type::<T::T>(&mut self.data)?;
                proof {
                    let after_type = self.remaining();
                    lemma_tails_of_tail(after_type, here.skip(1));
                }
                let mut value_data = read_value_for_typeid(&mut self.data, type_id)?;
                let value = <T::T as Relish>::parse_value(&mut value_data)?;
                return Ok(Some(value));
            } else {
                return Ok(None);
            }
        }
    }

    /// Passes over all the records that are left. The first record out of
    /// order, and the first that cannot be passed over, ends the reading.
    pub fn finish(&mut self) -> (r: ParseResult<()>)
        ensures
            match r {
                Ok(()) => drain_error(old(self).remaining(), old(self).last_seen()) is None
                    && final(self).remaining().len() == 0,
                Err(e) => drain_error(old(self).remaining(), old(self).last_seen()) == Some(
                    *e.kind(),
                ),
            },
            stands_at(
                final(self).remaining(),
                final(self).last_seen(),
                drain_halt(old(self).remaining(), old(self).last_seen()),
            ),
            is_tail(final(self).remaining(), old(self).remaining()),
    {
        proof {
            lemma_tail_of_skip(self.remaining(), 0);
        }
        loop
            invariant
                is_tail(self.remaining(), old(self).remaining()),
                drain_halt(old(self).remaining(), old(self).last_seen()) == drain_halt(
                    self.remaining(),
                    self.last_seen(),
                ),
                drain_error(old(self).remaining(), old(self).last_seen()) == drain_error(
                    self.remaining(),
                    self.last_seen(),
                ),
            decreases self.remaining().len(),
        {
            proof {
                lemma_tail_of_skip(self.remaining(), 0);
            }
            let field_id = match self.peek_field_id()? {
                None => {
                    return Ok(());
                },
                Some(field_id) => field_id,
            };
            if let Some(last_id) = self.last_seen_field_id {
                if field_id <= last_id {
                    return Err(
                        ParseError::new(
                            ParseErrorKind::FieldOrderViolation {
                                previous: last_id,
                                current: field_id,
                            },
                        ),
                    );
                }
            }
            proof {
                let here = self.remaining();
                lemma_skip_record_shrinks(here);
                lemma_tails_of_tail(here, old(self).remaining());
            }
            self.last_seen_field_id = Some(field_id);
            self.skip_current_field()?;
        }
    }
}

} // verus!
