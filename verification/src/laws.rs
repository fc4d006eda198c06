//! What holds of the wire format as a whole: ids with the top bit set are
//! refused wherever they stand, a field and a variant are read back as
//! they were written, an enum holds one value and nothing behind it, and
//! a dictionary holds no key twice.

use crate::cursor::{
    drain_error, drain_halt, lemma_skip_record_of_record, next_field_id, order_error, seek,
    seek_halt,
};
use crate::dict::{entries_bytes, lemma_first_entry};
use crate::error::{ParseErrorKind, ParseResult};
use crate::parse::{lemma_parse_of_encoding, parse_outcome};
use crate::record::{record_bytes, variant_id_read, MAX_FIELD_ID};
use crate::traits::{roundtrips, Relish};
use crate::type_id::TypeId;
use crate::value::{
    decode_error, decoded_key_seen, entries_error, fields_error, same_decoded, value_error,
};
use crate::wire::{
    fits, frame, framed, lemma_tagged_frame_tagged, tagged, tagged_frame, type_byte,
};
use vstd::prelude::*;

verus! {

/// A byte with the top bit set is refused wherever an id stands: as the
/// type byte of a value, for a reader that knows the type and for one
/// that does not; as the id of a struct field, for the cursor and for the
/// schema-less decoder; and as the id of an enum variant. The cursor
/// stays in front of such a byte.
pub proof fn lemma_high_bit_rejected(
    s: Seq<u8>,
    expected: TypeId,
    last: Option<u8>,
    target: u8,
)
    requires
        s.len() > 0,
        s[0] >= 0x80,
    ensures
        TypeId::of_byte(s[0]) is None,
        type_byte(expected, s) == Err::<Seq<u8>, ParseErrorKind>(
            ParseErrorKind::InvalidTypeId(s[0]),
        ),
        tagged_frame(expected, s) == Err::<(Seq<u8>, Seq<u8>), ParseErrorKind>(
            ParseErrorKind::InvalidTypeId(s[0]),
        ),
        decode_error(s) == Some(ParseErrorKind::InvalidTypeId(s[0])),
        next_field_id(s) == Err::<Option<u8>, ParseErrorKind>(
            ParseErrorKind::InvalidFieldId(s[0]),
        ),
        seek(s, last, target, expected) == Err::<
            (Option<Seq<u8>>, Seq<u8>, Option<u8>),
            ParseErrorKind,
        >(ParseErrorKind::InvalidFieldId(s[0])),
        drain_error(s, last) == Some(ParseErrorKind::InvalidFieldId(s[0])),
        seek_halt(s, last, target) == (s, last, true),
        drain_halt(s, last) == (s, last, true),
        value_error(TypeId::Struct, s) == Some(ParseErrorKind::InvalidFieldId(s[0])),
        variant_id_read(s) == Err::<(u8, Seq<u8>), ParseErrorKind>(
            ParseErrorKind::InvalidFieldId(s[0]),
        ),
        value_error(TypeId::Enum, s) == Some(ParseErrorKind::InvalidFieldId(s[0])),
{
    assert(fields_error(s) == Some(ParseErrorKind::InvalidFieldId(s[0])));
}

/// A field is read back as it was written: the record of a value at
/// which decoding undoes encoding, in front of other records, is found by
/// a request for its id and type. The request is handed the content of
/// the value, which decodes without error and to the value, and the
/// cursor then stands in front of the other records.
pub proof fn lemma_field_read_back<T: Relish>(id: u8, v: T, rest: Seq<u8>, last: Option<u8>)
    requires
        roundtrips(v),
        v.write_error() is None,
        id <= MAX_FIELD_ID,
        order_error(last, id) is None,
    ensures
        seek(record_bytes(id, &v) + rest, last, id, T::TYPE) == Ok::<
            (Option<Seq<u8>>, Seq<u8>, Option<u8>),
            ParseErrorKind,
        >((Some(v.content()), rest, Some(id))),
        T::parse_error(v.content()) is None,
        T::parsed(v.content(), &v),
{
    lemma_skip_record_of_record(id, T::TYPE, v.content(), rest);
}

/// A variant is read back as it was written: the record of a value at
/// which decoding undoes encoding gives its id, and what follows the id
/// is decoded without error, to a value that the content of the first
/// decodes to.
pub proof fn lemma_variant_read_back<T: Relish>(id: u8, v: T, r: ParseResult<T>)
    requires
        T::obeys_wire_spec(),
        roundtrips(v),
        v.write_error() is None,
        id <= MAX_FIELD_ID,
        parse_outcome::<T>(tagged(T::TYPE, v.content()), r),
    ensures
        variant_id_read(record_bytes(id, &v)) == Ok::<(u8, Seq<u8>), ParseErrorKind>(
            (id, tagged(T::TYPE, v.content())),
        ),
        r matches Ok(w) && T::parsed(v.content(), &w),
{
    let s = record_bytes(id, &v);
    assert(s[0] == id);
    assert(s.skip(1) =~= tagged(T::TYPE, v.content()));
    lemma_parse_of_encoding(v, r);
}

/// Exact fit, for a reader that knows the type of the variant: bytes
/// behind the value of a variant are refused as extra data.
pub proof fn lemma_variant_exact_fit<T: Relish>(
    content: Seq<u8>,
    extra: Seq<u8>,
    r: ParseResult<T>,
)
    requires
        T::obeys_wire_spec(),
        fits(T::TYPE, content),
        T::parse_error(content) is None,
        extra.len() > 0,
        parse_outcome::<T>(tagged(T::TYPE, content) + extra, r),
    ensures
        r matches Err(e) && *e.kind() == (ParseErrorKind::ExtraData {
            bytes_remaining: extra.len() as usize,
        }),
{
    lemma_tagged_frame_tagged(T::TYPE, content, extra);
}

/// Exact fit, for the schema-less decoder: an enum content whose one
/// value does not use up the content is refused as extra data.
pub proof fn lemma_enum_exact_fit(id: u8, t: TypeId, content: Seq<u8>, extra: Seq<u8>)
    requires
        id <= MAX_FIELD_ID,
        fits(t, content),
        value_error(t, content) is None,
        extra.len() > 0,
    ensures
        value_error(TypeId::Enum, seq![id] + tagged(t, content) + extra) == Some(
            ParseErrorKind::ExtraData { bytes_remaining: extra.len() as usize },
        ),
{
    let s = seq![id] + tagged(t, content) + extra;
    assert(s[0] == id);
    assert(s.skip(1) =~= tagged(t, content) + extra);
    lemma_tagged_frame_tagged(t, content, extra);
    t.lemma_code_of_byte(s.skip(1)[0]);
    assert(s.skip(1)[0] == t.code());
}

/// Whether each pair of contents suits the types of key and value and
/// decodes without error for the schema-less decoder.
pub open spec fn entries_decode_plainly(
    kt: TypeId,
    vt: TypeId,
    entries: Seq<(Seq<u8>, Seq<u8>)>,
) -> bool {
    forall|i: int|
        0 <= i < entries.len() ==> {
            &&& fits(kt, (#[trigger] entries[i]).0)
            &&& fits(vt, entries[i].1)
            &&& value_error(kt, entries[i].0) is None
            &&& value_error(vt, entries[i].1) is None
        }
}

/// Pairs that decode without error still do with the first left out.
proof fn lemma_rest_decodes_plainly(kt: TypeId, vt: TypeId, entries: Seq<(Seq<u8>, Seq<u8>)>)
    requires
        entries_decode_plainly(kt, vt, entries),
        entries.len() > 0,
    ensures
        entries_decode_plainly(kt, vt, entries.skip(1)),
{
    let tail = entries.skip(1);
    assert forall|i: int| 0 <= i < tail.len() implies {
        &&& fits(kt, (#[trigger] tail[i]).0)
        &&& fits(vt, tail[i].1)
        &&& value_error(kt, tail[i].0) is None
        &&& value_error(vt, tail[i].1) is None
    } by {
        assert(tail[i] == entries[i + 1]);
    }
}

/// One pair that is carved off and decoded leaves it to its key and to
/// the rest of the pairs whether the pairs are refused.
proof fn lemma_entry_decides(
    kt: TypeId,
    vt: TypeId,
    s: Seq<u8>,
    entry: (Seq<u8>, Seq<u8>),
    middle: Seq<u8>,
    rest: Seq<u8>,
    seen: Seq<Seq<u8>>,
)
    requires
        rest.len() < s.len(),
        frame(kt, s) == Ok::<(Seq<u8>, Seq<u8>), ParseErrorKind>((entry.0, middle)),
        frame(vt, middle) == Ok::<(Seq<u8>, Seq<u8>), ParseErrorKind>((entry.1, rest)),
        value_error(kt, entry.0) is None,
        value_error(vt, entry.1) is None,
    ensures
        entries_error(kt, vt, s, seen) == if decoded_key_seen(kt, seen, entry.0) {
            Some(ParseErrorKind::DuplicateMapKey)
        } else {
            entries_error(kt, vt, rest, seen.push(entry.0))
        },
{
}

/// For the schema-less decoder: a pair whose key decodes to what a key
/// seen before decodes to, or the key of a pair before it, makes the pairs
/// a payload with a duplicate key.
pub proof fn lemma_duplicate_entry_found(
    kt: TypeId,
    vt: TypeId,
    entries: Seq<(Seq<u8>, Seq<u8>)>,
    seen: Seq<Seq<u8>>,
    j: int,
)
    requires
        kt != TypeId::Null || vt != TypeId::Null,
        entries_decode_plainly(kt, vt, entries),
        0 <= j < entries.len(),
        decoded_key_seen(kt, seen, entries[j].0) || exists|i: int|
            0 <= i < j && same_decoded(kt, (#[trigger] entries[i]).0, entries[j].0),
    ensures
        entries_error(kt, vt, entries_bytes(kt, vt, entries), seen) == Some(
            ParseErrorKind::DuplicateMapKey,
        ),
    decreases entries.len(),
{
    let first = entries[0];
    let tail = entries.skip(1);
    let pushed = seen.push(first.0);
    lemma_first_entry(kt, vt, entries);
    lemma_entry_decides(
        kt,
        vt,
        entries_bytes(kt, vt, entries),
        first,
        framed(vt, first.1) + entries_bytes(kt, vt, tail),
        entries_bytes(kt, vt, tail),
        seen,
    );
    if !decoded_key_seen(kt, seen, first.0) {
        assert(j > 0);
        lemma_rest_decodes_plainly(kt, vt, entries);
        assert(tail[j - 1] == entries[j]);
        if decoded_key_seen(kt, seen, entries[j].0) {
            let i = choose|i: int|
                0 <= i < seen.len() && same_decoded(kt, #[trigger] seen[i], entries[j].0);
            assert(pushed[i] == seen[i]);
        } else {
            let i = choose|i: int|
                0 <= i < j && same_decoded(kt, (#[trigger] entries[i]).0, entries[j].0);
            if i == 0 {
                assert(pushed[seen.len() as int] == first.0);
            } else {
                assert(tail[i - 1] == entries[i]);
                assert(same_decoded(kt, tail[i - 1].0, tail[j - 1].0));
            }
        }
        lemma_duplicate_entry_found(kt, vt, tail, pushed, j - 1);
    }
}

/// Uniqueness of keys, for the schema-less decoder: a dictionary payload
/// in which two keys decode to values that are alike is refused as a
/// payload with a duplicate key.
///
/// Pairs of a null key and a null value take no bytes at all, so a payload
/// cannot hold two of them: the law speaks of the other dictionaries.
pub proof fn lemma_duplicate_entry_refused(
    kt: TypeId,
    vt: TypeId,
    entries: Seq<(Seq<u8>, Seq<u8>)>,
    i: int,
    j: int,
)
    requires
        kt != TypeId::Null || vt != TypeId::Null,
        entries_decode_plainly(kt, vt, entries),
        0 <= i < j < entries.len(),
        same_decoded(kt, entries[i].0, entries[j].0),
    ensures
        value_error(
            TypeId::Dict,
            seq![kt.code(), vt.code()] + entries_bytes(kt, vt, entries),
        ) == Some(ParseErrorKind::DuplicateMapKey),
{
    let body = entries_bytes(kt, vt, entries);
    let content = seq![kt.code(), vt.code()] + body;
    kt.lemma_code_of_byte(content[0]);
    vt.lemma_code_of_byte(content[1]);
    assert(content.skip(2) =~= body);
    lemma_duplicate_entry_found(kt, vt, entries, Seq::empty(), j);
}

} // verus!
