//! The schema-less value tree, and what it means for a tree to be the
//! decoding of some bytes.

use crate::array::element_frames;
use crate::error::ParseErrorKind;
use crate::integers::{leading_value, short_of};
use crate::le::from_twos_complement;
use crate::record::{end_error, variant_id_read, MAX_FIELD_ID};
use crate::scalars::{text_error, Float32, Float64};
use crate::type_id::TypeId;
use crate::wire::{any_frame, frame, lemma_any_frame_parts, lemma_frame_parts};
use vstd::prelude::*;
use vstd::utf8::decode_utf8;

verus! {

/// A value of any wire type, as found on the wire.
///
/// An array and a dictionary carry the types of what they hold; a struct
/// carries its fields in wire order; a floating-point number is held as its
/// bit pattern.
#[derive(Debug, PartialEq)]
pub enum Value {
    /// The null value.
    Null,
    /// A bool.
    Bool(bool),
    /// An unsigned integer of 8 bits.
    U8(u8),
    /// An unsigned integer of 16 bits.
    U16(u16),
    /// An unsigned integer of 32 bits.
    U32(u32),
    /// An unsigned integer of 64 bits.
    U64(u64),
    /// An unsigned integer of 128 bits.
    U128(u128),
    /// A signed integer of 8 bits.
    I8(i8),
    /// A signed integer of 16 bits.
    I16(i16),
    /// A signed integer of 32 bits.
    I32(i32),
    /// A signed integer of 64 bits.
    I64(i64),
    /// A signed integer of 128 bits.
    I128(i128),
    /// A single-precision floating-point number.
    F32(Float32),
    /// A double-precision floating-point number.
    F64(Float64),
    /// Text.
    String(String),
    /// Values of one type.
    Array {
        /// The type of the elements.
        element_type: TypeId,
        /// The elements, in wire order.
        elements: Vec<Value>,
    },
    /// Pairs of a key and a value, with one type for the keys and one for
    /// the values.
    Dict {
        /// The type of the keys.
        key_type: TypeId,
        /// The type of the values.
        value_type: TypeId,
        /// The pairs, in wire order.
        entries: Vec<(Value, Value)>,
    },
    /// The fields of a struct.
    Struct {
        /// The fields with their ids, in wire order.
        fields: Vec<(u8, Value)>,
    },
    /// One variant of an enum.
    Enum {
        /// The id of the variant.
        variant_id: u8,
        /// The value that the variant holds.
        value: Box<Value>,
    },
    /// Seconds since the Unix epoch.
    Timestamp(u64),
}

/// Whether two trees hold the same: the same variant at every place, with
/// the same numbers, the same text and the same types.
pub open spec fn alike(a: Value, b: Value) -> bool
    decreases a, 1nat,
{
    match a {
        Value::String(s) => b matches Value::String(t) && s@ == t@,
        Value::Array { element_type, elements } => {
            &&& b matches Value::Array { element_type: other_type, elements: others }
            &&& element_type == other_type
            &&& items_alike(elements@, others@)
        },
        Value::Dict { key_type, value_type, entries } => {
            &&& b matches Value::Dict {
                key_type: other_key_type,
                value_type: other_value_type,
                entries: others,
            }
            &&& key_type == other_key_type
            &&& value_type == other_value_type
            &&& entries_alike(entries@, others@)
        },
        Value::Struct { fields } => {
            &&& b matches Value::Struct { fields: others }
            &&& fields_alike(fields@, others@)
        },
        Value::Enum { variant_id, value } => {
            &&& b matches Value::Enum { variant_id: other_id, value: other }
            &&& variant_id == other_id
            &&& alike(*value, *other)
        },
        _ => a == b,
    }
}

/// Whether two runs of trees are alike, one by one.
pub open spec fn items_alike(a: Seq<Value>, b: Seq<Value>) -> bool
    decreases a, 0nat,
{
    &&& a.len() == b.len()
    &&& a.len() > 0 ==> alike(a.last(), b.last()) && items_alike(a.drop_last(), b.drop_last())
}

/// Whether two runs of pairs are alike, one by one.
pub open spec fn entries_alike(a: Seq<(Value, Value)>, b: Seq<(Value, Value)>) -> bool
    decreases a, 0nat,
{
    &&& a.len() == b.len()
    &&& a.len() > 0 ==> {
        &&& alike(a.last().0, b.last().0)
        &&& alike(a.last().1, b.last().1)
        &&& entries_alike(a.drop_last(), b.drop_last())
    }
}

/// Whether two runs of fields are alike, one by one.
pub open spec fn fields_alike(a: Seq<(u8, Value)>, b: Seq<(u8, Value)>) -> bool
    decreases a, 0nat,
{
    &&& a.len() == b.len()
    &&& a.len() > 0 ==> {
        &&& a.last().0 == b.last().0
        &&& alike(a.last().1, b.last().1)
        &&& fields_alike(a.drop_last(), b.drop_last())
    }
}

impl Clone for Value {
    /// A copy of the tree.
    fn clone(&self) -> (r: Self)
        ensures
            alike(*self, r),
        decreases self,
    {
        match self {
            Value::Null => Value::Null,
            Value::Bool(b) => Value::Bool(*b),
            Value::U8(n) => Value::U8(*n),
            Value::U16(n) => Value::U16(*n),
            Value::U32(n) => Value::U32(*n),
            Value::U64(n) => Value::U64(*n),
            Value::U128(n) => Value::U128(*n),
            Value::I8(n) => Value::I8(*n),
            Value::I16(n) => Value::I16(*n),
            Value::I32(n) => Value::I32(*n),
            Value::I64(n) => Value::I64(*n),
            Value::I128(n) => Value::I128(*n),
            Value::F32(f) => Value::F32(*f),
            Value::F64(f) => Value::F64(*f),
            Value::String(s) => Value::String(s.clone()),
            Value::Timestamp(n) => Value::Timestamp(*n),
            Value::Array { element_type, elements } => {
                let mut copies: Vec<Value> = Vec::new();
                let mut i: usize = 0;
                proof {
                    assert(elements@.take(0) =~= Seq::<Value>::empty());
                }
                while i < elements.len()
                    invariant
                        i <= elements.len(),
                        decreases_to!(*self => *elements),
                        items_alike(elements@.take(i as int), copies@),
                    decreases elements.len() - i,
                {
                    let ghost before = copies@;
                    proof {
                        broadcast use vstd::std_specs::vec::axiom_vec_index_decreases;
                        assert(decreases_to!(*elements => elements[i as int]));
                    }
                    copies.push(elements[i].clone());
                    proof {
                        assert(elements@.take(i + 1).drop_last() =~= elements@.take(i as int));
                        assert(copies@.drop_last() =~= before);
                    }
                    i = i + 1;
                }
                proof {
                    assert(elements@.take(elements.len() as int) =~= elements@);
                }
                Value::Array { element_type: *element_type, elements: copies }
            },
            Value::Dict { key_type, value_type, entries } => {
                let mut copies: Vec<(Value, Value)> = Vec::new();
                let mut i: usize = 0;
                proof {
                    assert(entries@.take(0) =~= Seq::<(Value, Value)>::empty());
                }
                while i < entries.len()
                    invariant
                        i <= entries.len(),
                        decreases_to!(*self => *entries),
                        entries_alike(entries@.take(i as int), copies@),
                    decreases entries.len() - i,
                {
                    let ghost before = copies@;
                    proof {
                        broadcast use vstd::std_specs::vec::axiom_vec_index_decreases;
                        assert(decreases_to!(*entries => entries[i as int]));
                        assert(decreases_to!(entries[i as int] => entries[i as int].0));
                        assert(decreases_to!(entries[i as int] => entries[i as int].1));
                    }
                    let entry = &entries[i];
                    copies.push((entry.0.clone(), entry.1.clone()));
                    proof {
                        assert(entries@.take(i + 1).drop_last() =~= entries@.take(i as int));
                        assert(copies@.drop_last() =~= before);
                    }
                    i = i + 1;
                }
                proof {
                    assert(entries@.take(entries.len() as int) =~= entries@);
                }
                Value::Dict { key_type: *key_type, value_type: *value_type, entries: copies }
            },
            Value::Struct { fields } => {
                let mut copies: Vec<(u8, Value)> = Vec::new();
                let mut i: usize = 0;
                proof {
                    assert(fields@.take(0) =~= Seq::<(u8, Value)>::empty());
                }
                while i < fields.len()
                    invariant
                        i <= fields.len(),
                        decreases_to!(*self => *fields),
                        fields_alike(fields@.take(i as int), copies@),
                    decreases fields.len() - i,
                {
                    let ghost before = copies@;
                    proof {
                        broadcast use vstd::std_specs::vec::axiom_vec_index_decreases;
                        assert(decreases_to!(*fields => fields[i as int]));
                        assert(decreases_to!(fields[i as int] => fields[i as int].1));
                    }
                    let field = &fields[i];
                    copies.push((field.0, field.1.clone()));
                    proof {
                        assert(fields@.take(i + 1).drop_last() =~= fields@.take(i as int));
                        assert(copies@.drop_last() =~= before);
                    }
                    i = i + 1;
                }
                proof {
                    assert(fields@.take(fields.len() as int) =~= fields@);
                }
                Value::Struct { fields: copies }
            },
            Value::Enum { variant_id, value } => {
                let inner: &Value = &**value;
                Value::Enum { variant_id: *variant_id, value: Box::new(inner.clone()) }
            },
        }
    }
}

/// The contents of the pairs of a key of type `kt` and a value of type
/// `vt` that lie back to back in `s`, as far as they can be carved off.
pub open spec fn entry_frames(kt: TypeId, vt: TypeId, s: Seq<u8>) -> Seq<(Seq<u8>, Seq<u8>)>
    decreases s.len(),
{
    if s.len() == 0 {
        Seq::empty()
    } else {
        match frame(kt, s) {
            Err(_) => Seq::empty(),
            Ok((key, after_key)) => match frame(vt, after_key) {
                Err(_) => Seq::empty(),
                Ok((value, rest)) => if rest.len() >= s.len() {
                    Seq::empty()
                } else {
                    seq![(key, value)] + entry_frames(kt, vt, rest)
                },
            },
        }
    }
}

/// The records that lie back to back in `s`, as far as they can be carved
/// off: of each its id, its type and its content.
pub open spec fn record_frames(s: Seq<u8>) -> Seq<(u8, TypeId, Seq<u8>)>
    decreases s.len(),
{
    if s.len() == 0 {
        Seq::empty()
    } else if s[0] > MAX_FIELD_ID {
        Seq::empty()
    } else {
        match any_frame(s.skip(1)) {
            Err(_) => Seq::empty(),
            Ok((t, content, rest)) => {
                proof {
                    lemma_any_frame_parts(s.skip(1));
                }
                seq![(s[0], t, content)] + record_frames(rest)
            },
        }
    }
}

/// The width in bytes of a type of fixed size other than null and bool.
pub open spec fn number_width(t: TypeId) -> nat {
    match t {
        TypeId::U8 | TypeId::I8 => 1,
        TypeId::U16 | TypeId::I16 => 2,
        TypeId::U32 | TypeId::I32 | TypeId::F32 => 4,
        TypeId::U64 | TypeId::I64 | TypeId::F64 | TypeId::Timestamp => 8,
        TypeId::U128 | TypeId::I128 => 16,
        _ => 0,
    }
}

/// The reason why `content` is not the content of a value of type `t`, if
/// there is one. Arrays, dictionaries, structs and enums are gone through in
/// wire order, and the first thing amiss is the reason.
///
/// The ids of the fields of a struct must have their top bit clear; their
/// order is not looked at. No two keys of a dictionary may decode to values
/// that are alike. An enum must hold one record and nothing else.
pub open spec fn value_error(t: TypeId, content: Seq<u8>) -> Option<ParseErrorKind>
    decreases content.len(), 1nat,
{
    match t {
        TypeId::Null => None,
        TypeId::Bool => if content.len() == 0 {
            Some(ParseErrorKind::InsufficientData { needed: 1, available: 0 })
        } else if content[0] != 0x00 && content[0] != 0xFF {
            Some(ParseErrorKind::InvalidBoolValue(content[0]))
        } else {
            None
        },
        TypeId::String => text_error(content),
        TypeId::Array => {
            if content.len() == 0 {
                Some(ParseErrorKind::InsufficientData { needed: 1, available: 0 })
            } else {
                match TypeId::of_byte(content[0]) {
                    None => Some(ParseErrorKind::InvalidTypeId(content[0])),
                    Some(element_type) => items_error(element_type, content.skip(1)),
                }
            }
        },
        TypeId::Dict => {
            if content.len() == 0 {
                Some(ParseErrorKind::InsufficientData { needed: 1, available: 0 })
            } else {
                match TypeId::of_byte(content[0]) {
                    None => Some(ParseErrorKind::InvalidTypeId(content[0])),
                    Some(key_type) => if content.len() == 1 {
                        Some(ParseErrorKind::InsufficientData { needed: 1, available: 0 })
                    } else {
                        match TypeId::of_byte(content[1]) {
                            None => Some(ParseErrorKind::InvalidTypeId(content[1])),
                            Some(value_type) => entries_error(
                                key_type,
                                value_type,
                                content.skip(2),
                                Seq::empty(),
                            ),
                        }
                    },
                }
            }
        },
        TypeId::Struct => fields_error(content),
        TypeId::Enum => match variant_id_read(content) {
            Err(e) => Some(e),
            Ok((_, after_id)) => match any_frame(after_id) {
                Err(e) => Some(e),
                Ok((inner_type, inner, rest)) => {
                    proof {
                        lemma_any_frame_parts(after_id);
                    }
                    match value_error(inner_type, inner) {
                        Some(e) => Some(e),
                        None => end_error(rest),
                    }
                },
            },
        },
        _ => short_of(number_width(t), content),
    }
}

/// The first error on the way through the values of type `t` that lie back
/// to back in `s`, if there is one.
pub open spec fn items_error(t: TypeId, s: Seq<u8>) -> Option<ParseErrorKind>
    decreases s.len(), 2nat,
{
    if s.len() == 0 {
        None
    } else {
        match frame(t, s) {
            Err(e) => Some(e),
            Ok((content, rest)) => {
                proof {
                    lemma_frame_parts(t, s);
                }
                match value_error(t, content) {
                    Some(e) => Some(e),
                    None => if rest.len() >= s.len() {
                        Some(ParseErrorKind::ExtraData { bytes_remaining: rest.len() as usize })
                    } else {
                        items_error(t, rest)
                    },
                }
            },
        }
    }
}

/// Whether two contents of type `t` decode to values that are alike.
pub open spec fn same_decoded(t: TypeId, a: Seq<u8>, b: Seq<u8>) -> bool {
    exists|x: Value, y: Value|
        #![trigger describes(t, a, x), describes(t, b, y)]
        describes(t, a, x) && describes(t, b, y) && alike(x, y)
}

/// Whether a content decodes to a key that is alike to what one of the
/// contents seen before decodes to.
pub open spec fn decoded_key_seen(t: TypeId, seen: Seq<Seq<u8>>, key: Seq<u8>) -> bool {
    exists|i: int| 0 <= i < seen.len() && same_decoded(t, #[trigger] seen[i], key)
}

/// The first error on the way through the pairs that lie back to back in
/// `s`, behind the keys whose contents are `seen`, if there is one. A key
/// that occurred before is found when its pair has been decoded.
pub open spec fn entries_error(kt: TypeId, vt: TypeId, s: Seq<u8>, seen: Seq<Seq<u8>>) -> Option<
    ParseErrorKind,
>
    decreases s.len(), 2nat,
{
    if s.len() == 0 {
        None
    } else {
        match frame(kt, s) {
            Err(e) => Some(e),
            Ok((key, after_key)) => {
                proof {
                    lemma_frame_parts(kt, s);
                }
                match value_error(kt, key) {
                    Some(e) => Some(e),
                    None => match frame(vt, after_key) {
                        Err(e) => Some(e),
                        Ok((value, rest)) => {
                            proof {
                                lemma_frame_parts(vt, after_key);
                            }
                            match value_error(vt, value) {
                                Some(e) => Some(e),
                                None => if decoded_key_seen(kt, seen, key) {
                                    Some(ParseErrorKind::DuplicateMapKey)
                                } else if rest.len() >= s.len() {
                                    Some(
                                        ParseErrorKind::ExtraData {
                                            bytes_remaining: rest.len() as usize,
                                        },
                                    )
                                } else {
                                    entries_error(kt, vt, rest, seen.push(key))
                                },
                            }
                        },
                    },
                }
            },
        }
    }
}

/// The first error on the way through the records that lie back to back
/// in `s`, if there is one.
pub open spec fn fields_error(s: Seq<u8>) -> Option<ParseErrorKind>
    decreases s.len(), 0nat,
{
    if s.len() == 0 {
        None
    } else if s[0] > MAX_FIELD_ID {
        Some(ParseErrorKind::InvalidFieldId(s[0]))
    } else {
        match any_frame(s.skip(1)) {
            Err(e) => Some(e),
            Ok((t, content, rest)) => {
                proof {
                    lemma_any_frame_parts(s.skip(1));
                }
                match value_error(t, content) {
                    Some(e) => Some(e),
                    None => fields_error(rest),
                }
            },
        }
    }
}

/// Whether `v` is what a content of type `t` decodes to. Meaningful where
/// `value_error(t, content)` is `None`.
pub open spec fn describes(t: TypeId, content: Seq<u8>, v: Value) -> bool
    decreases v, 1nat,
{
    match v {
        Value::Null => t == TypeId::Null,
        Value::Bool(b) => t == TypeId::Bool && b == (content[0] == 0xFF),
        Value::U8(n) => t == TypeId::U8 && n as nat == leading_value(1, content),
        Value::U16(n) => t == TypeId::U16 && n as nat == leading_value(2, content),
        Value::U32(n) => t == TypeId::U32 && n as nat == leading_value(4, content),
        Value::U64(n) => t == TypeId::U64 && n as nat == leading_value(8, content),
        Value::U128(n) => t == TypeId::U128 && n as nat == leading_value(16, content),
        Value::I8(n) => t == TypeId::I8 && n as int == from_twos_complement(
            leading_value(1, content),
            1,
        ),
        Value::I16(n) => t == TypeId::I16 && n as int == from_twos_complement(
            leading_value(2, content),
            2,
        ),
        Value::I32(n) => t == TypeId::I32 && n as int == from_twos_complement(
            leading_value(4, content),
            4,
        ),
        Value::I64(n) => t == TypeId::I64 && n as int == from_twos_complement(
            leading_value(8, content),
            8,
        ),
        Value::I128(n) => t == TypeId::I128 && n as int == from_twos_complement(
            leading_value(16, content),
            16,
        ),
        Value::F32(f) => t == TypeId::F32 && f.to_bits() as nat == leading_value(4, content),
        Value::F64(f) => t == TypeId::F64 && f.to_bits() as nat == leading_value(8, content),
        Value::String(s) => t == TypeId::String && s@ == decode_utf8(content),
        Value::Array { element_type, elements } => {
            &&& t == TypeId::Array
            &&& content.len() > 0
            &&& TypeId::of_byte(content[0]) == Some(element_type)
            &&& items_describe(
                element_type,
                element_frames(element_type, content.skip(1)),
                elements@,
            )
        },
        Value::Dict { key_type, value_type, entries } => {
            &&& t == TypeId::Dict
            &&& content.len() > 1
            &&& TypeId::of_byte(content[0]) == Some(key_type)
            &&& TypeId::of_byte(content[1]) == Some(value_type)
            &&& entries_describe(
                key_type,
                value_type,
                entry_frames(key_type, value_type, content.skip(2)),
                entries@,
            )
        },
        Value::Struct { fields } => {
            &&& t == TypeId::Struct
            &&& fields_describe(record_frames(content), fields@)
        },
        Value::Enum { variant_id, value } => {
            &&& t == TypeId::Enum
            &&& content.len() > 0
            &&& content[0] == variant_id
            &&& any_frame(content.skip(1)) matches Ok((inner_type, inner, _))
            &&& describes(inner_type, inner, *value)
        },
        Value::Timestamp(n) => t == TypeId::Timestamp && n as nat == leading_value(8, content),
    }
}

/// Whether the values are, one by one, what the contents of type `t`
/// decode to.
pub open spec fn items_describe(t: TypeId, frames: Seq<Seq<u8>>, values: Seq<Value>) -> bool
    decreases values, 0nat,
{
    &&& frames.len() == values.len()
    &&& values.len() > 0 ==> {
        &&& describes(t, frames.last(), values.last())
        &&& items_describe(t, frames.drop_last(), values.drop_last())
    }
}

/// Whether the pairs are, one by one, what the contents of a key of type
/// `kt` and of a value of type `vt` decode to.
pub open spec fn entries_describe(
    kt: TypeId,
    vt: TypeId,
    frames: Seq<(Seq<u8>, Seq<u8>)>,
    entries: Seq<(Value, Value)>,
) -> bool
    decreases entries, 0nat,
{
    &&& frames.len() == entries.len()
    &&& entries.len() > 0 ==> {
        &&& describes(kt, frames.last().0, entries.last().0)
        &&& describes(vt, frames.last().1, entries.last().1)
        &&& entries_describe(kt, vt, frames.drop_last(), entries.drop_last())
    }
}

/// Whether the fields are, one by one, what the records decode to.
pub open spec fn fields_describe(
    frames: Seq<(u8, TypeId, Seq<u8>)>,
    fields: Seq<(u8, Value)>,
) -> bool
    decreases fields, 0nat,
{
    &&& frames.len() == fields.len()
    &&& fields.len() > 0 ==> {
        &&& frames.last().0 == fields.last().0
        &&& describes(frames.last().1, frames.last().2, fields.last().1)
        &&& fields_describe(frames.drop_last(), fields.drop_last())
    }
}

/// The reason why `s` is not the encoding of one value, if there is one.
pub open spec fn decode_error(s: Seq<u8>) -> Option<ParseErrorKind> {
    match any_frame(s) {
        Err(e) => Some(e),
        Ok((t, content, rest)) => match value_error(t, content) {
            Some(e) => Some(e),
            None => end_error(rest),
        },
    }
}

/// Whether `v` is what the encoding `s` decodes to. Meaningful where
/// `decode_error(s)` is `None`.
pub open spec fn decodes_to(s: Seq<u8>, v: Value) -> bool {
    any_frame(s) matches Ok((t, content, _)) && describes(t, content, v)
}

/// Two runs of trees are alike exactly when they are as long as each
/// other and alike place by place.
pub proof fn lemma_items_alike_pointwise(a: Seq<Value>, b: Seq<Value>)
    ensures
        items_alike(a, b) <==> (a.len() == b.len() && forall|i: int|
            0 <= i < a.len() ==> alike(#[trigger] a[i], b[i])),
    decreases a.len(),
{
    if a.len() == b.len() && a.len() > 0 {
        let front_a = a.drop_last();
        let front_b = b.drop_last();
        lemma_items_alike_pointwise(front_a, front_b);
        if items_alike(a, b) {
            assert forall|i: int| 0 <= i < a.len() implies alike(#[trigger] a[i], b[i]) by {
                if i < a.len() - 1 {
                    assert(front_a[i] == a[i] && front_b[i] == b[i]);
                }
            }
        }
        if forall|i: int| 0 <= i < a.len() ==> alike(#[trigger] a[i], b[i]) {
            assert forall|i: int| 0 <= i < front_a.len() implies alike(
                #[trigger] front_a[i],
                front_b[i],
            ) by {
                assert(front_a[i] == a[i] && front_b[i] == b[i]);
                assert(alike(a[i], b[i]));
            }
            assert(alike(a[a.len() - 1], b[a.len() - 1]));
        }
    }
}

/// Two runs of pairs are alike exactly when they are as long as each
/// other and alike place by place, key with key and value with value.
pub proof fn lemma_entries_alike_pointwise(a: Seq<(Value, Value)>, b: Seq<(Value, Value)>)
    ensures
        entries_alike(a, b) <==> (a.len() == b.len() && forall|i: int|
            0 <= i < a.len() ==> alike((#[trigger] a[i]).0, b[i].0) && alike(a[i].1, b[i].1)),
    decreases a.len(),
{
    if a.len() == b.len() && a.len() > 0 {
        let front_a = a.drop_last();
        let front_b = b.drop_last();
        lemma_entries_alike_pointwise(front_a, front_b);
        if entries_alike(a, b) {
            assert forall|i: int| 0 <= i < a.len() implies alike((#[trigger] a[i]).0, b[i].0)
                && alike(a[i].1, b[i].1) by {
                if i < a.len() - 1 {
                    assert(front_a[i] == a[i] && front_b[i] == b[i]);
                }
            }
        }
        if forall|i: int|
            0 <= i < a.len() ==> alike((#[trigger] a[i]).0, b[i].0) && alike(a[i].1, b[i].1) {
            assert forall|i: int| 0 <= i < front_a.len() implies alike(
                (#[trigger] front_a[i]).0,
                front_b[i].0,
            ) && alike(front_a[i].1, front_b[i].1) by {
                assert(front_a[i] == a[i] && front_b[i] == b[i]);
                assert(alike(a[i].0, b[i].0));
            }
            assert(alike(a[a.len() - 1].0, b[a.len() - 1].0));
        }
    }
}

/// Two runs of fields are alike exactly when they are as long as each
/// other and, place by place, have the same id and values that are alike.
pub proof fn lemma_fields_alike_pointwise(a: Seq<(u8, Value)>, b: Seq<(u8, Value)>)
    ensures
        fields_alike(a, b) <==> (a.len() == b.len() && forall|i: int|
            0 <= i < a.len() ==> (#[trigger] a[i]).0 == b[i].0 && alike(a[i].1, b[i].1)),
    decreases a.len(),
{
    if a.len() == b.len() && a.len() > 0 {
        let front_a = a.drop_last();
        let front_b = b.drop_last();
        lemma_fields_alike_pointwise(front_a, front_b);
        if fields_alike(a, b) {
            assert forall|i: int| 0 <= i < a.len() implies (#[trigger] a[i]).0 == b[i].0
                && alike(a[i].1, b[i].1) by {
                if i < a.len() - 1 {
                    assert(front_a[i] == a[i] && front_b[i] == b[i]);
                }
            }
        }
        if forall|i: int|
            0 <= i < a.len() ==> (#[trigger] a[i]).0 == b[i].0 && alike(a[i].1, b[i].1) {
            assert forall|i: int| 0 <= i < front_a.len() implies (#[trigger] front_a[i]).0
                == front_b[i].0 && alike(front_a[i].1, front_b[i].1) by {
                assert(front_a[i] == a[i] && front_b[i] == b[i]);
                assert(a[i].0 == b[i].0);
            }
            assert(a[a.len() - 1].0 == b[a.len() - 1].0);
        }
    }
}

/// Values are what contents decode to, one by one, exactly when there
/// are as many of the one as of the other and each is what its content
/// decodes to.
pub proof fn lemma_items_describe_pointwise(t: TypeId, frames: Seq<Seq<u8>>, values: Seq<Value>)
    ensures
        items_describe(t, frames, values) <==> (frames.len() == values.len() && forall|i: int|
            0 <= i < values.len() ==> describes(t, frames[i], #[trigger] values[i])),
    decreases values.len(),
{
    if frames.len() == values.len() && values.len() > 0 {
        let front_f = frames.drop_last();
        let front_v = values.drop_last();
        lemma_items_describe_pointwise(t, front_f, front_v);
        if items_describe(t, frames, values) {
            assert forall|i: int| 0 <= i < values.len() implies describes(
                t,
                frames[i],
                #[trigger] values[i],
            ) by {
                if i < values.len() - 1 {
                    assert(front_f[i] == frames[i] && front_v[i] == values[i]);
                }
            }
        }
        if forall|i: int| 0 <= i < values.len() ==> describes(t, frames[i], #[trigger] values[i]) {
            assert forall|i: int| 0 <= i < front_v.len() implies describes(
                t,
                front_f[i],
                #[trigger] front_v[i],
            ) by {
                assert(front_f[i] == frames[i] && front_v[i] == values[i]);
                assert(describes(t, frames[i], values[i]));
            }
            assert(describes(t, frames[values.len() - 1], values[values.len() - 1]));
        }
    }
}

/// Pairs are what pairs of contents decode to, one by one, exactly when
/// there are as many of the one as of the other and each key and each
/// value is what its content decodes to.
pub proof fn lemma_entries_describe_pointwise(
    kt: TypeId,
    vt: TypeId,
    frames: Seq<(Seq<u8>, Seq<u8>)>,
    entries: Seq<(Value, Value)>,
)
    ensures
        entries_describe(kt, vt, frames, entries) <==> (frames.len() == entries.len()
            && forall|i: int|
            0 <= i < entries.len() ==> describes(kt, frames[i].0, (#[trigger] entries[i]).0)
                && describes(vt, frames[i].1, entries[i].1)),
    decreases entries.len(),
{
    if frames.len() == entries.len() && entries.len() > 0 {
        let front_f = frames.drop_last();
        let front_e = entries.drop_last();
        lemma_entries_describe_pointwise(kt, vt, front_f, front_e);
        if entries_describe(kt, vt, frames, entries) {
            assert forall|i: int| 0 <= i < entries.len() implies describes(
                kt,
                frames[i].0,
                (#[trigger] entries[i]).0,
            ) && describes(vt, frames[i].1, entries[i].1) by {
                if i < entries.len() - 1 {
                    assert(front_f[i] == frames[i] && front_e[i] == entries[i]);
                }
            }
        }
        if forall|i: int|
            0 <= i < entries.len() ==> describes(kt, frames[i].0, (#[trigger] entries[i]).0)
                && describes(vt, frames[i].1, entries[i].1) {
            assert forall|i: int| 0 <= i < front_e.len() implies describes(
                kt,
                front_f[i].0,
                (#[trigger] front_e[i]).0,
            ) && describes(vt, front_f[i].1, front_e[i].1) by {
                assert(front_f[i] == frames[i] && front_e[i] == entries[i]);
                assert(describes(kt, frames[i].0, entries[i].0));
            }
            assert(describes(
                kt,
                frames[entries.len() - 1].0,
                entries[entries.len() - 1].0,
            ));
        }
    }
}

/// Fields are what records decode to, one by one, exactly when there are
/// as many of the one as of the other and each field has the id of its
/// record and the value that the content of the record decodes to.
pub proof fn lemma_fields_describe_pointwise(
    frames: Seq<(u8, TypeId, Seq<u8>)>,
    fields: Seq<(u8, Value)>,
)
    ensures
        fields_describe(frames, fields) <==> (frames.len() == fields.len() && forall|i: int|
            0 <= i < fields.len() ==> frames[i].0 == (#[trigger] fields[i]).0 && describes(
                frames[i].1,
                frames[i].2,
                fields[i].1,
            )),
    decreases fields.len(),
{
    if frames.len() == fields.len() && fields.len() > 0 {
        let front_f = frames.drop_last();
        let front_v = fields.drop_last();
        lemma_fields_describe_pointwise(front_f, front_v);
        if fields_describe(frames, fields) {
            assert forall|i: int| 0 <= i < fields.len() implies frames[i].0 == (
            #[trigger] fields[i]).0 && describes(frames[i].1, frames[i].2, fields[i].1) by {
                if i < fields.len() - 1 {
                    assert(front_f[i] == frames[i] && front_v[i] == fields[i]);
                }
            }
        }
        if forall|i: int|
            0 <= i < fields.len() ==> frames[i].0 == (#[trigger] fields[i]).0 && describes(
                frames[i].1,
                frames[i].2,
                fields[i].1,
            ) {
            assert forall|i: int| 0 <= i < front_v.len() implies front_f[i].0 == (
            #[trigger] front_v[i]).0 && describes(front_f[i].1, front_f[i].2, front_v[i].1) by {
                assert(front_f[i] == frames[i] && front_v[i] == fields[i]);
                assert(frames[i].0 == fields[i].0);
            }
            assert(frames[fields.len() - 1].0 == fields[fields.len() - 1].0);
        }
    }
}

/// What is alike to a tree that is alike to a third is alike to the
/// third.
pub proof fn lemma_alike_transitive(a: Value, b: Value, c: Value)
    requires
        alike(a, b),
        alike(b, c),
    ensures
        alike(a, c),
    decreases a,
{
    match a {
        Value::Array { element_type, elements } => {
            let others = b->Array_elements;
            let thirds = c->Array_elements;
            lemma_items_alike_pointwise(elements@, others@);
            lemma_items_alike_pointwise(others@, thirds@);
            lemma_items_alike_pointwise(elements@, thirds@);
            assert forall|i: int| 0 <= i < elements@.len() implies alike(
                #[trigger] elements@[i],
                thirds@[i],
            ) by {
                assert(alike(elements@[i], others@[i]));
                assert(alike(others@[i], thirds@[i]));
                lemma_alike_transitive(elements@[i], others@[i], thirds@[i]);
            }
        },
        Value::Dict { key_type, value_type, entries } => {
            let others = b->Dict_entries;
            let thirds = c->Dict_entries;
            lemma_entries_alike_pointwise(entries@, others@);
            lemma_entries_alike_pointwise(others@, thirds@);
            lemma_entries_alike_pointwise(entries@, thirds@);
            assert forall|i: int| 0 <= i < entries@.len() implies alike(
                (#[trigger] entries@[i]).0,
                thirds@[i].0,
            ) && alike(entries@[i].1, thirds@[i].1) by {
                assert(alike(entries@[i].0, others@[i].0));
                assert(alike(others@[i].0, thirds@[i].0));
                lemma_alike_transitive(entries@[i].0, others@[i].0, thirds@[i].0);
                lemma_alike_transitive(entries@[i].1, others@[i].1, thirds@[i].1);
            }
        },
        Value::Struct { fields } => {
            let others = b->Struct_fields;
            let thirds = c->Struct_fields;
            lemma_fields_alike_pointwise(fields@, others@);
            lemma_fields_alike_pointwise(others@, thirds@);
            lemma_fields_alike_pointwise(fields@, thirds@);
            assert forall|i: int| 0 <= i < fields@.len() implies (#[trigger] fields@[i]).0
                == thirds@[i].0 && alike(fields@[i].1, thirds@[i].1) by {
                assert(fields@[i].0 == others@[i].0);
                assert(others@[i].0 == thirds@[i].0);
                lemma_alike_transitive(fields@[i].1, others@[i].1, thirds@[i].1);
            }
        },
        Value::Enum { variant_id, value } => {
            lemma_alike_transitive(*value, *b->Enum_value, *c->Enum_value);
        },
        _ => {},
    }
}

/// Decoding is single-valued up to likeness: two trees that one content
/// of one type decodes to are alike.
pub proof fn lemma_describes_alike(t: TypeId, content: Seq<u8>, x: Value, y: Value)
    requires
        describes(t, content, x),
        describes(t, content, y),
    ensures
        alike(x, y),
    decreases x,
{
    match x {
        Value::F32(f) => {
            Float32::lemma_bits_determine(f, y->F32_0);
        },
        Value::F64(f) => {
            Float64::lemma_bits_determine(f, y->F64_0);
        },
        Value::Array { element_type, elements } => {
            let others = y->Array_elements;
            let frames = element_frames(element_type, content.skip(1));
            lemma_items_describe_pointwise(element_type, frames, elements@);
            lemma_items_describe_pointwise(element_type, frames, others@);
            lemma_items_alike_pointwise(elements@, others@);
            assert forall|i: int| 0 <= i < elements@.len() implies alike(
                #[trigger] elements@[i],
                others@[i],
            ) by {
                assert(describes(element_type, frames[i], elements@[i]));
                assert(describes(element_type, frames[i], others@[i]));
                lemma_describes_alike(element_type, frames[i], elements@[i], others@[i]);
            }
        },
        Value::Dict { key_type, value_type, entries } => {
            let others = y->Dict_entries;
            let frames = entry_frames(key_type, value_type, content.skip(2));
            lemma_entries_describe_pointwise(key_type, value_type, frames, entries@);
            lemma_entries_describe_pointwise(key_type, value_type, frames, others@);
            lemma_entries_alike_pointwise(entries@, others@);
            assert forall|i: int| 0 <= i < entries@.len() implies alike(
                (#[trigger] entries@[i]).0,
                others@[i].0,
            ) && alike(entries@[i].1, others@[i].1) by {
                assert(describes(key_type, frames[i].0, entries@[i].0));
                assert(describes(key_type, frames[i].0, others@[i].0));
                lemma_describes_alike(key_type, frames[i].0, entries@[i].0, others@[i].0);
                lemma_describes_alike(value_type, frames[i].1, entries@[i].1, others@[i].1);
            }
        },
        Value::Struct { fields } => {
            let others = y->Struct_fields;
            let frames = record_frames(content);
            lemma_fields_describe_pointwise(frames, fields@);
            lemma_fields_describe_pointwise(frames, others@);
            lemma_fields_alike_pointwise(fields@, others@);
            assert forall|i: int| 0 <= i < fields@.len() implies (#[trigger] fields@[i]).0
                == others@[i].0 && alike(fields@[i].1, others@[i].1) by {
                assert(frames[i].0 == fields@[i].0);
                assert(frames[i].0 == others@[i].0);
                lemma_describes_alike(frames[i].1, frames[i].2, fields@[i].1, others@[i].1);
            }
        },
        Value::Enum { variant_id, value } => {
            let found = any_frame(content.skip(1))->Ok_0;
            lemma_describes_alike(found.0, found.1, *value, *y->Enum_value);
        },
        _ => {},
    }
}

/// Whether two trees are alike.
pub fn alike_values(a: &Value, b: &Value) -> (r: bool)
    ensures
        r == alike(*a, *b),
    decreases a,
{
    match (a, b) {
        (Value::Null, Value::Null) => true,
        (Value::Bool(x), Value::Bool(y)) => *x == *y,
        (Value::U8(x), Value::U8(y)) => *x == *y,
        (Value::U16(x), Value::U16(y)) => *x == *y,
        (Value::U32(x), Value::U32(y)) => *x == *y,
        (Value::U64(x), Value::U64(y)) => *x == *y,
        (Value::U128(x), Value::U128(y)) => *x == *y,
        (Value::I8(x), Value::I8(y)) => *x == *y,
        (Value::I16(x), Value::I16(y)) => *x == *y,
        (Value::I32(x), Value::I32(y)) => *x == *y,
        (Value::I64(x), Value::I64(y)) => *x == *y,
        (Value::I128(x), Value::I128(y)) => *x == *y,
        (Value::F32(x), Value::F32(y)) => {
            proof {
                if x.to_bits() == y.to_bits() {
                    Float32::lemma_bits_determine(*x, *y);
                }
            }
            x.to_bits() == y.to_bits()
        },
        (Value::F64(x), Value::F64(y)) => {
            proof {
                if x.to_bits() == y.to_bits() {
                    Float64::lemma_bits_determine(*x, *y);
                }
            }
            x.to_bits() == y.to_bits()
        },
        (Value::Timestamp(x), Value::Timestamp(y)) => *x == *y,
        (Value::String(x), Value::String(y)) => *x == *y,
        (
            Value::Array { element_type, elements },
            Value::Array { element_type: other_type, elements: others },
        ) => {
            proof {
                lemma_items_alike_pointwise(elements@, others@);
            }
            if *element_type != *other_type || elements.len() != others.len() {
                return false;
            }
            let mut i: usize = 0;
            while i < elements.len()
                invariant
                    i <= elements.len() == others.len(),
                    decreases_to!(*a => *elements),
                    alike(*a, *b) <==> forall|j: int|
                        0 <= j < elements.len() ==> alike(#[trigger] elements@[j], others@[j]),
                    forall|j: int| 0 <= j < i ==> alike(#[trigger] elements@[j], others@[j]),
                decreases elements.len() - i,
            {
                proof {
                    broadcast use vstd::std_specs::vec::axiom_vec_index_decreases;
                    assert(decreases_to!(*elements => elements[i as int]));
                }
                if !alike_values(&elements[i], &others[i]) {
                    return false;
                }
                i = i + 1;
            }
            true
        },
        (
            Value::Dict { key_type, value_type, entries },
            Value::Dict { key_type: other_key_type, value_type: other_value_type, entries: others },
        ) => {
            proof {
                lemma_entries_alike_pointwise(entries@, others@);
            }
            if *key_type != *other_key_type || *value_type != *other_value_type || entries.len()
                != others.len() {
                return false;
            }
            let mut i: usize = 0;
            while i < entries.len()
                invariant
                    i <= entries.len() == others.len(),
                    decreases_to!(*a => *entries),
                    alike(*a, *b) <==> forall|j: int|
                        0 <= j < entries.len() ==> alike((#[trigger] entries@[j]).0, others@[j].0)
                            && alike(entries@[j].1, others@[j].1),
                    forall|j: int|
                        0 <= j < i ==> alike((#[trigger] entries@[j]).0, others@[j].0) && alike(
                            entries@[j].1,
                            others@[j].1,
                        ),
                decreases entries.len() - i,
            {
                proof {
                    broadcast use vstd::std_specs::vec::axiom_vec_index_decreases;
                    assert(decreases_to!(*entries => entries[i as int]));
                    assert(decreases_to!(entries[i as int] => entries[i as int].0));
                    assert(decreases_to!(entries[i as int] => entries[i as int].1));
                }
                let entry = &entries[i];
                let other = &others[i];
                if !alike_values(&entry.0, &other.0) {
                    return false;
                }
                if !alike_values(&entry.1, &other.1) {
                    return false;
                }
                i = i + 1;
            }
            true
        },
        (Value::Struct { fields }, Value::Struct { fields: others }) => {
            proof {
                lemma_fields_alike_pointwise(fields@, others@);
            }
            if fields.len() != others.len() {
                return false;
            }
            let mut i: usize = 0;
            while i < fields.len()
                invariant
                    i <= fields.len() == others.len(),
                    decreases_to!(*a => *fields),
                    alike(*a, *b) <==> forall|j: int|
                        0 <= j < fields.len() ==> (#[trigger] fields@[j]).0 == others@[j].0
                            && alike(fields@[j].1, others@[j].1),
                    forall|j: int|
                        0 <= j < i ==> (#[trigger] fields@[j]).0 == others@[j].0 && alike(
                            fields@[j].1,
                            others@[j].1,
                        ),
                decreases fields.len() - i,
            {
                proof {
                    broadcast use vstd::std_specs::vec::axiom_vec_index_decreases;
                    assert(decreases_to!(*fields => fields[i as int]));
                    assert(decreases_to!(fields[i as int] => fields[i as int].1));
                }
                let field = &fields[i];
                let other = &others[i];
                if field.0 != other.0 {
                    return false;
                }
                if !alike_values(&field.1, &other.1) {
                    return false;
                }
                i = i + 1;
            }
            true
        },
        (
            Value::Enum { variant_id, value },
            Value::Enum { variant_id: other_id, value: other },
        ) => {
            if *variant_id != *other_id {
                return false;
            }
            let inner: &Value = &**value;
            let other_inner: &Value = &**other;
            alike_values(inner, other_inner)
        },
        _ => false,
    }
}

/// Whether the key of one of the pairs is alike to `key`.
pub fn key_among(entries: &Vec<(Value, Value)>, key: &Value) -> (r: bool)
    ensures
        r == exists|i: int| 0 <= i < entries.len() && alike((#[trigger] entries@[i]).0, *key),
{
    let mut i: usize = 0;
    while i < entries.len()
        invariant
            i <= entries.len(),
            forall|j: int| 0 <= j < i ==> !alike((#[trigger] entries@[j]).0, *key),
        decreases entries.len() - i,
    {
        let entry = &entries[i];
        if alike_values(&entry.0, key) {
            return true;
        }
        i = i + 1;
    }
    false
}

} // verus!
