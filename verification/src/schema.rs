//! What a declaration of a struct or of an enum must satisfy before a codec
//! is made for it: every field carries an id or is left out on purpose, ids
//! have the top bit clear, no id occurs twice, and the fields are written
//! and asked for in the order of their ids.

use crate::record::MAX_FIELD_ID;
use vstd::prelude::*;

verus! {

/// What the declaration of a field or of a variant says about its id.
#[derive(Debug, Clone, Copy, PartialEq, Eq, Structural)]
pub enum Marking {
    /// It carries this id.
    Id(u8),
    /// It is left out of the wire form.
    Skip,
    /// It says nothing.
    Missing,
}

/// What a variant of an enum holds.
#[derive(Debug, Clone, Copy, PartialEq, Eq, Structural)]
pub enum VariantShape {
    /// Nothing.
    Unit,
    /// Fields with names.
    Named,
    /// This many fields without names.
    Tuple(usize),
}

/// The reasons why a declaration gets no codec.
#[derive(Debug, Clone, Copy, PartialEq, Eq, Structural)]
pub enum SchemaError {
    /// The field or variant at this place carries no id, and a variant
    /// cannot be left out.
    MissingFieldId(usize),
    /// An id with the top bit set.
    FieldIdTooLarge(u8),
    /// An id that two fields or two variants carry.
    DuplicateFieldId(u8),
    /// The variant at this place holds nothing.
    UnitVariant(usize),
    /// The variant at this place holds fields with names.
    NamedVariant(usize),
    /// The variant at this place holds this many fields, not one.
    WrongFieldCount(usize, usize),
    /// What stands behind `field_id =` is no number from 0 to 255.
    InvalidFieldIdText,
}

/// The bytes of `field_id =`, the words that announce an id.
pub open spec fn id_words() -> Seq<u8> {
    seq![0x66u8, 0x69, 0x65, 0x6C, 0x64, 0x5F, 0x69, 0x64, 0x20, 0x3D]
}

/// The bytes of `skip`, the word that leaves a field out.
pub open spec fn skip_word() -> Seq<u8> {
    seq![0x73u8, 0x6B, 0x69, 0x70]
}

/// Whether a byte is blank: a space, a tab, a line feed, a vertical tab, a
/// form feed or a carriage return.
pub open spec fn is_blank(b: u8) -> bool {
    b == 0x20 || (0x09 <= b <= 0x0D)
}

/// What is left of `s` without the blanks at its front.
pub open spec fn trim_front(s: Seq<u8>) -> Seq<u8>
    decreases s.len(),
{
    if s.len() > 0 && is_blank(s[0]) {
        trim_front(s.skip(1))
    } else {
        s
    }
}

/// What is left of `s` without the blanks at its end.
pub open spec fn trim_back(s: Seq<u8>) -> Seq<u8>
    decreases s.len(),
{
    if s.len() > 0 && is_blank(s.last()) {
        trim_back(s.drop_last())
    } else {
        s
    }
}

/// The number that decimal digits spell, if they are digits and there is
/// at least one. Zeros in front do no harm.
pub open spec fn digits_value(s: Seq<u8>) -> Option<nat>
    decreases s.len(),
{
    if s.len() == 0 {
        None
    } else if !(0x30 <= s.last() <= 0x39) {
        None
    } else if s.len() == 1 {
        Some((s.last() - 0x30) as nat)
    } else {
        match digits_value(s.drop_last()) {
            Some(n) => Some(10 * n + (s.last() - 0x30) as nat),
            None => None,
        }
    }
}

/// The id that a text spells: digits, with or without a plus sign in
/// front, for a number up to 255.
pub open spec fn id_value(s: Seq<u8>) -> Option<u8> {
    let digits = if s.len() > 0 && s[0] == 0x2B {
        s.skip(1)
    } else {
        s
    };
    match digits_value(digits) {
        Some(n) => if n <= 255 {
            Some(n as u8)
        } else {
            None
        },
        None => None,
    }
}

/// What the words between the brackets of an attribute say: an id behind
/// `field_id =`, with blanks around the number; `skip`; or nothing that
/// concerns the codec.
pub open spec fn marking_of_words(words: Seq<u8>) -> Result<Marking, SchemaError> {
    if id_words().is_prefix_of(words) {
        match id_value(trim_back(trim_front(words.skip(10)))) {
            Some(id) => Ok(Marking::Id(id)),
            None => Err(SchemaError::InvalidFieldIdText),
        }
    } else if words == skip_word() {
        Ok(Marking::Skip)
    } else {
        Ok(Marking::Missing)
    }
}

/// Whether `words` begin with `prefix`.
fn starts_with(words: &[u8], prefix: &[u8]) -> (r: bool)
    ensures
        r == prefix@.is_prefix_of(words@),
{
    if prefix.len() > words.len() {
        return false;
    }
    let mut i: usize = 0;
    while i < prefix.len()
        invariant
            i <= prefix.len() <= words.len(),
            forall|j: int| 0 <= j < i ==> words@[j] == prefix@[j],
        decreases prefix.len() - i,
    {
        if words[i] != prefix[i] {
            proof {
                assert(words@.subrange(0, prefix@.len() as int)[i as int] == words@[i as int]);
            }
            return false;
        }
        i = i + 1;
    }
    proof {
        assert(prefix@ =~= words@.subrange(0, prefix@.len() as int));
    }
    true
}

/// Whether a byte is blank.
fn blank(b: u8) -> (r: bool)
    ensures
        r == is_blank(b),
{
    b == 0x20 || (0x09 <= b && b <= 0x0D)
}

/// The part of `words` from `from` on, without the blanks at its front
/// and at its end, as the places where it begins and ends.
fn trimmed(words: &[u8], from: usize) -> (r: (usize, usize))
    requires
        from <= words@.len(),
    ensures
        from <= r.0 <= r.1 <= words@.len(),
        words@.subrange(r.0 as int, r.1 as int) == trim_back(trim_front(words@.skip(from as int))),
{
    let mut begin: usize = from;
    while begin < words.len() && blank(words[begin])
        invariant
            from <= begin <= words@.len(),
            trim_front(words@.skip(from as int)) == trim_front(words@.skip(begin as int)),
        decreases words@.len() - begin,
    {
        proof {
            assert(words@.skip(begin as int).skip(1) =~= words@.skip(begin + 1));
        }
        begin = begin + 1;
    }
    let mut end: usize = words.len();
    proof {
        assert(words@.skip(begin as int) =~= words@.subrange(begin as int, end as int));
    }
    while end > begin && blank(words[end - 1])
        invariant
            begin <= end <= words@.len(),
            trim_front(words@.skip(from as int)) == words@.skip(begin as int),
            trim_back(words@.skip(begin as int)) == trim_back(
                words@.subrange(begin as int, end as int),
            ),
        decreases end - begin,
    {
        proof {
            assert(words@.subrange(begin as int, end as int).drop_last() =~= words@.subrange(
                begin as int,
                end - 1,
            ));
        }
        end = end - 1;
    }
    (begin, end)
}

/// The id that the bytes of `words` from `begin` up to `end` spell.
fn read_id(words: &[u8], begin: usize, end: usize) -> (r: Option<u8>)
    requires
        begin <= end <= words@.len(),
    ensures
        r == id_value(words@.subrange(begin as int, end as int)),
{
    let ghost text = words@.subrange(begin as int, end as int);
    let mut i: usize = begin;
    if i < end && words[i] == 0x2B {
        i = i + 1;
    }
    let start = i;
    let ghost digits = words@.subrange(start as int, end as int);
    proof {
        if start > begin {
            assert(text.skip(1) =~= digits);
        } else {
            assert(text =~= digits);
        }
        assert(digits.take(0) =~= Seq::<u8>::empty());
    }
    if i == end {
        return None;
    }
    let mut value: u16 = 0;
    while i < end
        invariant
            start <= i <= end <= words@.len(),
            digits == words@.subrange(start as int, end as int),
            id_value(words@.subrange(begin as int, end as int)) == (match digits_value(digits) {
                Some(n) => if n <= 255 {
                    Some(n as u8)
                } else {
                    None
                },
                None => None,
            }),
            i > start ==> digits_value(digits.take(i - start)) == Some(value as nat),
            i == start ==> value == 0,
            value <= 255,
        decreases end - i,
    {
        let b = words[i];
        proof {
            assert(digits.take(i - start + 1).drop_last() =~= digits.take(i - start));
            assert(digits.take(i - start + 1).last() == b);
        }
        if b < 0x30 || b > 0x39 {
            proof {
                lemma_digits_prefix(digits, i - start + 1);
            }
            return None;
        }
        let next: u16 = value * 10 + (b - 0x30) as u16;
        if next > 255 {
            proof {
                lemma_digits_grow(digits, i - start + 1);
            }
            return None;
        }
        value = next;
        i = i + 1;
    }
    proof {
        assert(digits.take(end - start) =~= digits);
    }
    Some(value as u8)
}

/// Digits that spell nothing as far as they go spell nothing as a whole.
proof fn lemma_digits_prefix(s: Seq<u8>, n: int)
    requires
        0 < n <= s.len(),
        digits_value(s.take(n)) is None,
    ensures
        digits_value(s) is None,
    decreases s.len() - n,
{
    if n < s.len() {
        assert(s.take(n + 1).drop_last() =~= s.take(n));
        lemma_digits_prefix(s, n + 1);
    } else {
        assert(s.take(n) =~= s);
    }
}

/// Digits that spell a number beyond 255 as far as they go do not spell a
/// number up to 255 as a whole.
proof fn lemma_digits_grow(s: Seq<u8>, n: int)
    requires
        0 < n <= s.len(),
        digits_value(s.take(n)) matches Some(v) && v > 255,
    ensures
        digits_value(s) matches Some(v) ==> v > 255,
    decreases s.len() - n,
{
    if n < s.len() {
        assert(s.take(n + 1).drop_last() =~= s.take(n));
        if digits_value(s.take(n + 1)) is Some {
            lemma_digits_grow(s, n + 1);
        } else {
            lemma_digits_prefix(s, n + 1);
        }
    } else {
        assert(s.take(n) =~= s);
    }
}

/// What the words between the brackets of an attribute say about the id
/// of a field or of a variant.
pub fn read_marking(words: &str) -> (r: Result<Marking, SchemaError>)
    ensures
        r == marking_of_words(vstd::utf8::encode_utf8(words@)),
{
    let bytes = words.as_bytes();
    let id_prefix: [u8; 10] = [0x66, 0x69, 0x65, 0x6C, 0x64, 0x5F, 0x69, 0x64, 0x20, 0x3D];
    let skip: [u8; 4] = [0x73, 0x6B, 0x69, 0x70];
    proof {
        assert(id_prefix@ =~= id_words());
        assert(skip@ =~= skip_word());
    }
    if starts_with(bytes, id_prefix.as_slice()) {
        let (begin, end) = trimmed(bytes, 10);
        match read_id(bytes, begin, end) {
            Some(id) => Ok(Marking::Id(id)),
            None => Err(SchemaError::InvalidFieldIdText),
        }
    } else if bytes.len() == 4 && starts_with(bytes, skip.as_slice()) {
        proof {
            assert(bytes@ =~= skip_word());
        }
        Ok(Marking::Skip)
    } else {
        Ok(Marking::Missing)
    }
}

/// Whether one of the markings is an id.
pub open spec fn holds_id(found: Seq<Marking>) -> bool {
    exists|i: int| 0 <= i < found.len() && #[trigger] found[i] is Id
}

/// The last id among the markings; `Missing` where none is an id.
pub open spec fn last_id(found: Seq<Marking>) -> Marking
    decreases found.len(),
{
    if found.len() == 0 {
        Marking::Missing
    } else if found.last() is Id {
        found.last()
    } else {
        last_id(found.drop_last())
    }
}

/// What several attributes of one field or variant say together: where
/// leaving out is allowed and one of them says `skip`, the field is left
/// out, whatever ids the others give; else the last id counts; else
/// nothing is said.
pub open spec fn combined(found: Seq<Marking>, allow_skip: bool) -> Marking {
    if allow_skip && found.contains(Marking::Skip) {
        Marking::Skip
    } else {
        last_id(found)
    }
}

/// What several attributes of one field or variant say together.
pub fn combine_markings(found: &Vec<Marking>, allow_skip: bool) -> (m: Marking)
    ensures
        m == combined(found@, allow_skip),
        allow_skip && found@.contains(Marking::Skip) ==> m == Marking::Skip,
        m is Missing ==> !holds_id(found@),
{
    let mut field_id: Marking = Marking::Missing;
    let mut skip: bool = false;
    let mut i: usize = 0;
    proof {
        assert(found@.take(0) =~= Seq::<Marking>::empty());
    }
    while i < found.len()
        invariant
            i <= found.len(),
            field_id == last_id(found@.take(i as int)),
            skip <==> found@.take(i as int).contains(Marking::Skip),
            field_id is Missing ==> !holds_id(found@.take(i as int)),
        decreases found.len() - i,
    {
        let ghost before = found@.take(i as int);
        let ghost after = found@.take(i + 1);
        proof {
            assert(after.drop_last() =~= before);
            assert(after.last() == found@[i as int]);
            assert(after =~= before.push(found@[i as int]));
        }
        match found[i] {
            Marking::Id(id) => {
                field_id = Marking::Id(id);
            },
            Marking::Skip => {
                skip = true;
            },
            Marking::Missing => {},
        }
        proof {
            if before.contains(Marking::Skip) {
                let j = choose|j: int| 0 <= j < before.len() && before[j] == Marking::Skip;
                assert(after[j] == Marking::Skip);
            }
            if found@[i as int] == Marking::Skip {
                assert(after[i as int] == Marking::Skip);
            }
            if after.contains(Marking::Skip) && !before.contains(Marking::Skip) {
                let j = choose|j: int| 0 <= j < after.len() && after[j] == Marking::Skip;
                if j < i {
                    assert(before[j] == Marking::Skip);
                }
            }
            if field_id is Missing && holds_id(after) {
                let j = choose|j: int| 0 <= j < after.len() && #[trigger] after[j] is Id;
                if j < i {
                    assert(before[j] is Id);
                }
            }
        }
        i = i + 1;
    }
    proof {
        assert(found@.take(found.len() as int) =~= found@);
    }
    if allow_skip && skip {
        Marking::Skip
    } else {
        field_id
    }
}

/// What is wrong with the marking at place `index` of a struct, if
/// anything.
pub open spec fn marking_error(marking: Marking, index: int) -> Option<SchemaError> {
    match marking {
        Marking::Id(id) => if id > MAX_FIELD_ID {
            Some(SchemaError::FieldIdTooLarge(id))
        } else {
            None
        },
        Marking::Skip => None,
        Marking::Missing => Some(SchemaError::MissingFieldId(index as usize)),
    }
}

/// The fields that carry an id, each with its place in the declaration, in
/// the order of the declaration.
pub open spec fn declared(markings: Seq<Marking>) -> Seq<(usize, u8)>
    decreases markings.len(),
{
    if markings.len() == 0 {
        Seq::empty()
    } else {
        let before = declared(markings.drop_last());
        match markings.last() {
            Marking::Id(id) => before.push(((markings.len() - 1) as usize, id)),
            _ => before,
        }
    }
}

/// Whether `e` is what is wrong with the first marking that anything is
/// wrong with.
pub open spec fn first_marking_error(markings: Seq<Marking>, e: SchemaError) -> bool {
    exists|i: int|
        {
            &&& 0 <= i < markings.len()
            &&& marking_error(#[trigger] markings[i], i) == Some(e)
            &&& forall|j: int| 0 <= j < i ==> marking_error(#[trigger] markings[j], j) is None
        }
}

/// Whether nothing is wrong with any marking.
pub open spec fn markings_sound(markings: Seq<Marking>) -> bool {
    forall|i: int| 0 <= i < markings.len() ==> marking_error(#[trigger] markings[i], i) is None
}

/// Whether no two fields carry one id.
pub open spec fn ids_distinct(fields: Seq<(usize, u8)>) -> bool {
    forall|i: int, j: int|
        0 <= i < j < fields.len() ==> (#[trigger] fields[i]).1 != (#[trigger] fields[j]).1
}

/// Whether `e` names the least id that two fields carry.
pub open spec fn least_duplicate(fields: Seq<(usize, u8)>, e: SchemaError) -> bool {
    exists|i: int, j: int|
        {
            &&& 0 <= i < j < fields.len()
            &&& (#[trigger] fields[i]).1 == (#[trigger] fields[j]).1
            &&& e == SchemaError::DuplicateFieldId(fields[i].1)
            &&& forall|k: int, l: int|
                0 <= k < l < fields.len() && (#[trigger] fields[k]).1 == (#[trigger] fields[l]).1
                    ==> fields[k].1 >= fields[i].1
        }
}

/// The fields that carry an id, each with its place in the declaration.
/// The first field that carries none and is not left out, and the first id
/// with the top bit set, end the reading.
pub fn declared_ids(markings: &Vec<Marking>) -> (r: Result<Vec<(usize, u8)>, SchemaError>)
    ensures
        match r {
            Ok(fields) => {
                &&& fields@ == declared(markings@)
                &&& markings_sound(markings@)
                &&& forall|k: int|
                    0 <= k < fields.len() ==> (#[trigger] fields@[k]).1 <= MAX_FIELD_ID
            },
            Err(e) => first_marking_error(markings@, e),
        },
{
    let mut fields: Vec<(usize, u8)> = Vec::new();
    let mut i: usize = 0;
    proof {
        assert(markings@.take(0) =~= Seq::<Marking>::empty());
    }
    while i < markings.len()
        invariant
            i <= markings.len(),
            fields@ == declared(markings@.take(i as int)),
            forall|j: int| 0 <= j < i ==> marking_error(#[trigger] markings@[j], j) is None,
            forall|k: int| 0 <= k < fields.len() ==> (#[trigger] fields@[k]).1 <= MAX_FIELD_ID,
        decreases markings.len() - i,
    {
        proof {
            assert(markings@.take(i + 1).drop_last() =~= markings@.take(i as int));
        }
        match markings[i] {
            Marking::Id(id) => {
                if id > MAX_FIELD_ID {
                    return Err(SchemaError::FieldIdTooLarge(id));
                }
                fields.push((i, id));
            },
            Marking::Skip => {},
            Marking::Missing => {
                return Err(SchemaError::MissingFieldId(i));
            },
        }
        i = i + 1;
    }
    proof {
        assert(markings@.take(markings.len() as int) =~= markings@);
    }
    Ok(fields)
}

/// How many of the fields carry the id `id`.
pub open spec fn count_of(fields: Seq<(usize, u8)>, id: u8) -> nat
    decreases fields.len(),
{
    if fields.len() == 0 {
        0
    } else {
        count_of(fields.drop_last(), id) + if fields.last().1 == id {
            1nat
        } else {
            0nat
        }
    }
}

/// How many of the fields carry an id below `bound`.
pub open spec fn count_below(fields: Seq<(usize, u8)>, bound: int) -> nat
    decreases fields.len(),
{
    if fields.len() == 0 {
        0
    } else {
        count_below(fields.drop_last(), bound) + if fields.last().1 < bound {
            1nat
        } else {
            0nat
        }
    }
}

/// Whether the ids rise strictly from each field to the next.
pub open spec fn ids_rise(fields: Seq<(usize, u8)>) -> bool {
    forall|k: int, l: int|
        0 <= k < l < fields.len() ==> (#[trigger] fields[k]).1 < (#[trigger] fields[l]).1
}

/// The fields that carry an id below `bound` are those that carry a lower
/// id and those that carry the id just below.
proof fn lemma_count_below_step(fields: Seq<(usize, u8)>, id: u8)
    ensures
        count_below(fields, id + 1) == count_below(fields, id as int) + count_of(fields, id),
        count_below(fields, 0) == 0,
        count_below(fields, 256) == fields.len(),
    decreases fields.len(),
{
    if fields.len() > 0 {
        lemma_count_below_step(fields.drop_last(), id);
    }
}

/// A field that is counted is there.
proof fn lemma_count_of_witness(fields: Seq<(usize, u8)>, id: u8)
    ensures
        count_of(fields, id) > 0 ==> exists|i: int|
            0 <= i < fields.len() && (#[trigger] fields[i]).1 == id,
        count_of(fields, id) > 1 ==> exists|i: int, j: int|
            0 <= i < j < fields.len() && (#[trigger] fields[i]).1 == id && (
            #[trigger] fields[j]).1 == id,
        count_of(fields, id) == 0 ==> forall|i: int|
            0 <= i < fields.len() ==> (#[trigger] fields[i]).1 != id,
        count_of(fields, id) <= 1 ==> forall|i: int, j: int|
            0 <= i < j < fields.len() ==> !((#[trigger] fields[i]).1 == id && (
            #[trigger] fields[j]).1 == id),
    decreases fields.len(),
{
    if fields.len() > 0 {
        let before = fields.drop_last();
        lemma_count_of_witness(before, id);
        if count_of(before, id) > 0 {
            let i = choose|i: int| 0 <= i < before.len() && (#[trigger] before[i]).1 == id;
            assert(fields[i] == before[i]);
            if fields.last().1 == id {
                assert(fields[fields.len() - 1].1 == id);
            }
        }
        if count_of(before, id) > 1 {
            let (i, j) = choose|i: int, j: int|
                0 <= i < j < before.len() && (#[trigger] before[i]).1 == id && (
                #[trigger] before[j]).1 == id;
            assert(fields[i] == before[i]);
            assert(fields[j] == before[j]);
        }
        if count_of(fields, id) == 0 {
            assert forall|i: int| 0 <= i < fields.len() implies (#[trigger] fields[i]).1
                != id by {
                if i < before.len() {
                    assert(fields[i] == before[i]);
                }
            }
        }
        if count_of(fields, id) <= 1 {
            assert forall|i: int, j: int| 0 <= i < j < fields.len() implies !((
            #[trigger] fields[i]).1 == id && (#[trigger] fields[j]).1 == id) by {
                assert(fields[i] == before[i]);
                if j < before.len() {
                    assert(fields[j] == before[j]);
                }
            }
        }
    }
}

/// The first of the fields that carries the id `id`, and how many carry
/// it.
fn find_id(fields: &Vec<(usize, u8)>, id: u8) -> (r: (Option<(usize, u8)>, usize))
    ensures
        r.1 == count_of(fields@, id),
        r.1 > 0 ==> (r.0 matches Some(field) && field.1 == id && fields@.contains(field)),
{
    let mut found: Option<(usize, u8)> = None;
    let mut count: usize = 0;
    let mut i: usize = 0;
    proof {
        assert(fields@.take(0) =~= Seq::<(usize, u8)>::empty());
    }
    while i < fields.len()
        invariant
            i <= fields.len(),
            count == count_of(fields@.take(i as int), id),
            count <= i,
            count > 0 ==> (found matches Some(field) && field.1 == id && fields@.contains(
                field,
            )),
        decreases fields.len() - i,
    {
        proof {
            assert(fields@.take(i + 1).drop_last() =~= fields@.take(i as int));
        }
        if fields[i].1 == id {
            if count == 0 {
                found = Some(fields[i]);
            }
            count = count + 1;
        }
        i = i + 1;
    }
    proof {
        assert(fields@.take(fields.len() as int) =~= fields@);
    }
    (found, count)
}

/// The fields in the order of their ids. The least id that two fields
/// carry ends the reading.
pub fn order_by_id(fields: &Vec<(usize, u8)>) -> (r: Result<Vec<(usize, u8)>, SchemaError>)
    ensures
        match r {
            Ok(ordered) => {
                &&& ordered.len() == fields.len()
                &&& ids_rise(ordered@)
                &&& forall|k: int|
                    0 <= k < ordered.len() ==> fields@.contains(#[trigger] ordered@[k])
                &&& ids_distinct(fields@)
            },
            Err(e) => least_duplicate(fields@, e),
        },
{
    let mut ordered: Vec<(usize, u8)> = Vec::new();
    let mut id: u8 = 0;
    let mut done: bool = false;
    proof {
        lemma_count_below_step(fields@, 0);
    }
    while !done
        invariant
            ordered.len() == count_below(fields@, if done { 256int } else { id as int }),
            ids_rise(ordered@),
            forall|k: int| 0 <= k < ordered.len() ==> fields@.contains(#[trigger] ordered@[k]),
            forall|k: int|
                0 <= k < ordered.len() ==> (#[trigger] ordered@[k]).1 < (if done {
                    256int
                } else {
                    id as int
                }),
            forall|i: int, j: int|
                0 <= i < j < fields.len() && (#[trigger] fields@[i]).1 == (
                #[trigger] fields@[j]).1 ==> fields@[i].1 >= (if done {
                    256int
                } else {
                    id as int
                }),
        decreases
                if done {
                    0int
                } else {
                    256 - id
                },
    {
        let (found, count) = find_id(fields, id);
        proof {
            lemma_count_below_step(fields@, id);
            lemma_count_of_witness(fields@, id);
        }
        if count > 1 {
            return Err(SchemaError::DuplicateFieldId(id));
        }
        if count == 1 {
            match found {
                Some(field) => {
                    ordered.push(field);
                },
                None => {},
            }
        }
        if id == 255 {
            done = true;
        } else {
            id = id + 1;
        }
    }
    proof {
        lemma_count_below_step(fields@, 0);
    }
    Ok(ordered)
}

/// The order in which the codec of a struct writes and asks for its
/// fields: those that carry an id, by rising id, each with its place in the
/// declaration. A declaration is refused for the first marking that
/// anything is wrong with, or else for the least id that two fields carry.
pub fn struct_layout(markings: &Vec<Marking>) -> (r: Result<Vec<(usize, u8)>, SchemaError>)
    ensures
        match r {
            Ok(layout) => {
                &&& markings_sound(markings@)
                &&& ids_distinct(declared(markings@))
                &&& layout.len() == declared(markings@).len()
                &&& ids_rise(layout@)
                &&& forall|k: int|
                    0 <= k < layout.len() ==> declared(markings@).contains(#[trigger] layout@[k])
                        && layout@[k].1 <= MAX_FIELD_ID
            },
            Err(e) => first_marking_error(markings@, e) || (markings_sound(markings@)
                && least_duplicate(declared(markings@), e)),
        },
{
    let fields = declared_ids(markings)?;
    let layout = order_by_id(&fields)?;
    proof {
        assert forall|k: int| 0 <= k < layout.len() implies declared(markings@).contains(
            #[trigger] layout@[k],
        ) && layout@[k].1 <= MAX_FIELD_ID by {
            let field = layout@[k];
            assert(fields@.contains(field));
            let i = choose|i: int| 0 <= i < fields.len() && fields@[i] == field;
            assert(fields@[i].1 <= MAX_FIELD_ID);
        }
    }
    Ok(layout)
}

/// What is wrong with the variant at place `index`, if anything: it must
/// carry an id with the top bit clear, and hold one field without a name.
pub open spec fn variant_error(marking: Marking, shape: VariantShape, index: int) -> Option<
    SchemaError,
> {
    match marking {
        Marking::Id(id) => match shape {
            VariantShape::Unit => Some(SchemaError::UnitVariant(index as usize)),
            VariantShape::Named => Some(SchemaError::NamedVariant(index as usize)),
            VariantShape::Tuple(n) => if n != 1 {
                Some(SchemaError::WrongFieldCount(index as usize, n))
            } else if id > MAX_FIELD_ID {
                Some(SchemaError::FieldIdTooLarge(id))
            } else {
                None
            },
        },
        _ => Some(SchemaError::MissingFieldId(index as usize)),
    }
}

/// Checks the variant at place `index` of an enum and returns its id.
pub fn check_variant(marking: Marking, shape: VariantShape, index: usize) -> (r: Result<
    u8,
    SchemaError,
>)
    ensures
        match r {
            Ok(id) => variant_error(marking, shape, index as int) is None && marking
                == Marking::Id(id) && id <= MAX_FIELD_ID,
            Err(e) => variant_error(marking, shape, index as int) == Some(e),
        },
{
    match marking {
        Marking::Id(id) => match shape {
            VariantShape::Unit => Err(SchemaError::UnitVariant(index)),
            VariantShape::Named => Err(SchemaError::NamedVariant(index)),
            VariantShape::Tuple(n) => {
                if n != 1 {
                    Err(SchemaError::WrongFieldCount(index, n))
                } else if id > MAX_FIELD_ID {
                    Err(SchemaError::FieldIdTooLarge(id))
                } else {
                    Ok(id)
                }
            },
        },
        _ => Err(SchemaError::MissingFieldId(index)),
    }
}

} // verus!
