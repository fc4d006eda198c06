//! The ASCII rendering of a value tree, for diagnostics.
//!
//! A number is rendered with its type as suffix, a text as a string
//! literal, an array, a dictionary, a struct and an enum as a header, one
//! entry per line, two spaces deeper, and a closing brace.
//!
//! The decimal form of a floating-point number is not made here: the
//! caller hands in the texts of the floating-point leaves of the tree, in
//! the order in which the rendering meets them.

use crate::scalars::{Float32, Float64};
use crate::text::{
    decimal, format_string_literal, push_decimal, push_signed_decimal, quoted, signed_decimal,
};
use crate::type_id::TypeId;
use crate::value::Value;
use vstd::prelude::*;
use vstd::string::StringExecFns;

verus! {

/// A floating-point leaf of a value tree.
#[derive(Debug, Clone, Copy, PartialEq, Eq, Structural)]
pub enum FloatLeaf {
    /// A single-precision number.
    Single(Float32),
    /// A double-precision number.
    Double(Float64),
}

/// The name of a type in the rendering.
pub open spec fn suffix_text(t: TypeId) -> Seq<char> {
    match t {
        TypeId::U8 => "u8"@,
        TypeId::U16 => "u16"@,
        TypeId::U32 => "u32"@,
        TypeId::U64 => "u64"@,
        TypeId::U128 => "u128"@,
        TypeId::I8 => "i8"@,
        TypeId::I16 => "i16"@,
        TypeId::I32 => "i32"@,
        TypeId::I64 => "i64"@,
        TypeId::I128 => "i128"@,
        TypeId::F32 => "f32"@,
        TypeId::F64 => "f64"@,
        TypeId::Null => "null"@,
        TypeId::Bool => "bool"@,
        TypeId::String => "string"@,
        TypeId::Array => "array"@,
        TypeId::Dict => "map"@,
        TypeId::Struct => "struct"@,
        TypeId::Enum => "enum"@,
        TypeId::Timestamp => "timestamp"@,
    }
}

/// The name of a type in the rendering.
pub fn type_suffix(type_id: TypeId) -> (s: &'static str)
    ensures
        s@ == suffix_text(type_id),
{
    match type_id {
        TypeId::U8 => "u8",
        TypeId::U16 => "u16",
        TypeId::U32 => "u32",
        TypeId::U64 => "u64",
        TypeId::U128 => "u128",
        TypeId::I8 => "i8",
        TypeId::I16 => "i16",
        TypeId::I32 => "i32",
        TypeId::I64 => "i64",
        TypeId::I128 => "i128",
        TypeId::F32 => "f32",
        TypeId::F64 => "f64",
        TypeId::Null => "null",
        TypeId::Bool => "bool",
        TypeId::String => "string",
        TypeId::Array => "array",
        TypeId::Dict => "map",
        TypeId::Struct => "struct",
        TypeId::Enum => "enum",
        TypeId::Timestamp => "timestamp",
    }
}

/// The floating-point leaves of a tree, in the order in which the
/// rendering meets them.
pub open spec fn float_leaves(v: Value) -> Seq<FloatLeaf>
    decreases v, 1nat,
{
    match v {
        Value::F32(f) => seq![FloatLeaf::Single(f)],
        Value::F64(f) => seq![FloatLeaf::Double(f)],
        Value::Array { element_type, elements } => items_float_leaves(elements@),
        Value::Dict { key_type, value_type, entries } => entries_float_leaves(entries@),
        Value::Struct { fields } => fields_float_leaves(fields@),
        Value::Enum { variant_id, value } => float_leaves(*value),
        _ => Seq::empty(),
    }
}

/// The floating-point leaves of the elements of an array.
pub open spec fn items_float_leaves(values: Seq<Value>) -> Seq<FloatLeaf>
    decreases values, 0nat,
{
    if values.len() == 0 {
        Seq::empty()
    } else {
        items_float_leaves(values.drop_last()) + float_leaves(values.last())
    }
}

/// The floating-point leaves of the pairs of a dictionary.
pub open spec fn entries_float_leaves(entries: Seq<(Value, Value)>) -> Seq<FloatLeaf>
    decreases entries, 0nat,
{
    if entries.len() == 0 {
        Seq::empty()
    } else {
        entries_float_leaves(entries.drop_last()) + float_leaves(entries.last().0) + float_leaves(
            entries.last().1,
        )
    }
}

/// The floating-point leaves of the fields of a struct.
pub open spec fn fields_float_leaves(fields: Seq<(u8, Value)>) -> Seq<FloatLeaf>
    decreases fields, 0nat,
{
    if fields.len() == 0 {
        Seq::empty()
    } else {
        fields_float_leaves(fields.drop_last()) + float_leaves(fields.last().1)
    }
}

/// The text of the first floating-point leaf: the first text handed in,
/// or nothing where no text is left.
pub open spec fn first_text(floats: Seq<String>) -> Seq<char> {
    if floats.len() > 0 {
        floats[0]@
    } else {
        Seq::empty()
    }
}

/// The texts that are left when those for `count` leaves are taken.
pub open spec fn texts_after(floats: Seq<String>, count: nat) -> Seq<String> {
    if count <= floats.len() {
        floats.skip(count as int)
    } else {
        Seq::empty()
    }
}

/// The rendering of a value at the indentation `indent`, with the texts
/// of its floating-point leaves taken from the front of `floats`.
pub open spec fn rendered(v: Value, indent: Seq<char>, floats: Seq<String>) -> Seq<char>
    decreases v, 1nat,
{
    match v {
        Value::Null => "null"@,
        Value::Bool(b) => if b {
            "true"@
        } else {
            "false"@
        },
        Value::U8(n) => decimal(n as nat) + "u8"@,
        Value::U16(n) => decimal(n as nat) + "u16"@,
        Value::U32(n) => decimal(n as nat) + "u32"@,
        Value::U64(n) => decimal(n as nat) + "u64"@,
        Value::U128(n) => decimal(n as nat) + "u128"@,
        Value::I8(n) => signed_decimal(n as int) + "i8"@,
        Value::I16(n) => signed_decimal(n as int) + "i16"@,
        Value::I32(n) => signed_decimal(n as int) + "i32"@,
        Value::I64(n) => signed_decimal(n as int) + "i64"@,
        Value::I128(n) => signed_decimal(n as int) + "i128"@,
        Value::F32(_) => first_text(floats) + "f32"@,
        Value::F64(_) => first_text(floats) + "f64"@,
        Value::String(s) => quoted(s@),
        Value::Timestamp(n) => "timestamp("@ + decimal(n as nat) + ")"@,
        Value::Array { element_type, elements } => {
            "array<"@ + suffix_text(element_type) + "> {"@ + block(
                elements@.len(),
                rendered_items(elements@, indent, floats),
                indent,
            )
        },
        Value::Dict { key_type, value_type, entries } => {
            "map<"@ + suffix_text(key_type) + ", "@ + suffix_text(value_type) + "> {"@ + block(
                entries@.len(),
                rendered_entries(entries@, indent, floats),
                indent,
            )
        },
        Value::Struct { fields } => {
            "struct {"@ + block(fields@.len(), rendered_fields(fields@, indent, floats), indent)
        },
        Value::Enum { variant_id, value } => {
            "enum {\n"@ + indent + "  "@ + decimal(variant_id as nat) + ": "@ + rendered(
                *value,
                indent + "  "@,
                floats,
            ) + ",\n"@ + indent + "}"@
        },
    }
}

/// What follows the header of a container with `count` entries: the
/// closing brace at once where there are none; else a line break, the
/// lines of the entries, and the closing brace at the indentation of the
/// header.
pub open spec fn block(count: nat, lines: Seq<char>, indent: Seq<char>) -> Seq<char> {
    if count == 0 {
        "}"@
    } else {
        "\n"@ + lines + indent + "}"@
    }
}

/// The lines of the elements of an array.
pub open spec fn rendered_items(values: Seq<Value>, indent: Seq<char>, floats: Seq<String>) -> Seq<
    char,
>
    decreases values, 0nat,
{
    if values.len() == 0 {
        Seq::empty()
    } else {
        let before = values.drop_last();
        rendered_items(before, indent, floats) + indent + "  "@ + rendered(
            values.last(),
            indent + "  "@,
            texts_after(floats, items_float_leaves(before).len()),
        ) + ",\n"@
    }
}

/// The lines of the pairs of a dictionary.
pub open spec fn rendered_entries(
    entries: Seq<(Value, Value)>,
    indent: Seq<char>,
    floats: Seq<String>,
) -> Seq<char>
    decreases entries, 0nat,
{
    if entries.len() == 0 {
        Seq::empty()
    } else {
        let before = entries.drop_last();
        let at_key = entries_float_leaves(before).len();
        let at_value = at_key + float_leaves(entries.last().0).len();
        rendered_entries(before, indent, floats) + indent + "  "@ + rendered(
            entries.last().0,
            indent + "  "@,
            texts_after(floats, at_key),
        ) + ": "@ + rendered(entries.last().1, indent + "  "@, texts_after(floats, at_value))
            + ",\n"@
    }
}

/// The lines of the fields of a struct.
pub open spec fn rendered_fields(
    fields: Seq<(u8, Value)>,
    indent: Seq<char>,
    floats: Seq<String>,
) -> Seq<char>
    decreases fields, 0nat,
{
    if fields.len() == 0 {
        Seq::empty()
    } else {
        let before = fields.drop_last();
        rendered_fields(before, indent, floats) + indent + "  "@ + decimal(
            fields.last().0 as nat,
        ) + ": "@ + rendered(
            fields.last().1,
            indent + "  "@,
            texts_after(floats, fields_float_leaves(before).len()),
        ) + ",\n"@
    }
}

/// Taking the texts for some leaves and then for some more is taking the
/// texts for all of them.
pub proof fn lemma_texts_after_twice(floats: Seq<String>, a: nat, b: nat)
    ensures
        texts_after(texts_after(floats, a), b) == texts_after(floats, a + b),
{
    if a + b <= floats.len() {
        assert(floats.skip(a as int).skip(b as int) =~= floats.skip((a + b) as int));
    } else if a <= floats.len() {
        assert(texts_after(floats.skip(a as int), b) =~= Seq::<String>::empty());
    } else {
        assert(texts_after(Seq::<String>::empty(), b) =~= Seq::<String>::empty());
    }
}

/// The indentation one level deeper: two more spaces.
fn deeper(indent: &str) -> (r: String)
    ensures
        r@ == indent@ + "  "@,
{
    let mut r = String::from_str(indent);
    r.append("  ");
    r
}

/// Appends the decimal digits of a number and a suffix.
fn format_unsigned(output: &mut String, n: u128, suffix: &str)
    ensures
        final(output)@ == old(output)@ + (decimal(n as nat) + suffix@),
{
    push_decimal(output, n);
    output.append(suffix);
    proof {
        assert(output@ =~= old(output)@ + (decimal(n as nat) + suffix@));
    }
}

/// Appends the decimal form of a number with its sign, and a suffix.
fn format_signed(output: &mut String, n: i128, suffix: &str)
    ensures
        final(output)@ == old(output)@ + (signed_decimal(n as int) + suffix@),
{
    push_signed_decimal(output, n);
    output.append(suffix);
    proof {
        assert(output@ =~= old(output)@ + (signed_decimal(n as int) + suffix@));
    }
}

/// Appends seconds since the epoch.
fn format_timestamp(output: &mut String, seconds: u64)
    ensures
        final(output)@ == old(output)@ + ("timestamp("@ + decimal(seconds as nat) + ")"@),
{
    output.append("timestamp(");
    push_decimal(output, seconds as u128);
    output.append(")");
    proof {
        assert(output@ =~= old(output)@ + ("timestamp("@ + decimal(seconds as nat) + ")"@));
    }
}

/// Appends the header of an array.
fn format_array_header(output: &mut String, element_type: TypeId)
    ensures
        final(output)@ == old(output)@ + ("array<"@ + suffix_text(element_type) + "> {"@),
{
    output.append("array<");
    output.append(type_suffix(element_type));
    output.append("> {");
    proof {
        assert(output@ =~= old(output)@ + ("array<"@ + suffix_text(element_type) + "> {"@));
    }
}

/// Appends the header of a dictionary.
fn format_dict_header(output: &mut String, key_type: TypeId, value_type: TypeId)
    ensures
        final(output)@ == old(output)@ + ("map<"@ + suffix_text(key_type) + ", "@ + suffix_text(
            value_type,
        ) + "> {"@),
{
    output.append("map<");
    output.append(type_suffix(key_type));
    output.append(", ");
    output.append(type_suffix(value_type));
    output.append("> {");
    proof {
        assert(output@ =~= old(output)@ + ("map<"@ + suffix_text(key_type) + ", "@
            + suffix_text(value_type) + "> {"@));
    }
}

/// Appends what stands before the value of a variant: the header of the
/// enum and the id of the variant.
fn format_enum_header(output: &mut String, variant_id: u8, indent: &str)
    ensures
        final(output)@ == old(output)@ + ("enum {\n"@ + indent@ + "  "@ + decimal(
            variant_id as nat,
        ) + ": "@),
{
    output.append("enum {\n");
    output.append(indent);
    output.append("  ");
    push_decimal(output, variant_id as u128);
    output.append(": ");
    proof {
        assert(output@ =~= old(output)@ + ("enum {\n"@ + indent@ + "  "@ + decimal(
            variant_id as nat,
        ) + ": "@));
    }
}

/// Appends what stands behind the value of a variant.
fn format_enum_footer(output: &mut String, indent: &str)
    ensures
        final(output)@ == old(output)@ + (",\n"@ + indent@ + "}"@),
{
    output.append(",\n");
    output.append(indent);
    output.append("}");
    proof {
        assert(output@ =~= old(output)@ + (",\n"@ + indent@ + "}"@));
    }
}

/// Appends the rendering of a value and returns the texts that its
/// floating-point leaves did not use.
pub fn format_value<'a>(
    output: &mut String,
    value: &Value,
    indent: &str,
    floats: &'a [String],
) -> (rest: &'a [String])
    ensures
        final(output)@ == old(output)@ + rendered(*value, indent@, floats@),
        rest@ == texts_after(floats@, float_leaves(*value).len()),
    decreases value, 1nat,
{
    proof {
        assert(texts_after(floats@, 0) =~= floats@);
    }
    match value {
        Value::Null => {
            output.append("null");
            floats
        },
        Value::Bool(b) => {
            output.append(if *b { "true" } else { "false" });
            floats
        },
        Value::U8(n) => {
            format_unsigned(output, *n as u128, "u8");
            floats
        },
        Value::U16(n) => {
            format_unsigned(output, *n as u128, "u16");
            floats
        },
        Value::U32(n) => {
            format_unsigned(output, *n as u128, "u32");
            floats
        },
        Value::U64(n) => {
            format_unsigned(output, *n as u128, "u64");
            floats
        },
        Value::U128(n) => {
            format_unsigned(output, *n, "u128");
            floats
        },
        Value::I8(n) => {
            format_signed(output, *n as i128, "i8");
            floats
        },
        Value::I16(n) => {
            format_signed(output, *n as i128, "i16");
            floats
        },
        Value::I32(n) => {
            format_signed(output, *n as i128, "i32");
            floats
        },
        Value::I64(n) => {
            format_signed(output, *n as i128, "i64");
            floats
        },
        Value::I128(n) => {
            format_signed(output, *n, "i128");
            floats
        },
        Value::F32(_) => {
            let rest = format_float(output, floats, "f32");
            rest
        },
        Value::F64(_) => {
            let rest = format_float(output, floats, "f64");
            rest
        },
        Value::String(s) => {
            format_string_literal(output, s.as_str());
            floats
        },
        Value::Timestamp(ts) => {
            format_timestamp(output, *ts);
            floats
        },
        Value::Array { element_type, elements } => {
            format_array_header(output, *element_type);
            let ghost head = output@;
            let rest = format_items(output, elements, indent, floats);
            proof {
                let header = "array<"@ + suffix_text(*element_type) + "> {"@;
                let body = block(
                    elements@.len(),
                    rendered_items(elements@, indent@, floats@),
                    indent@,
                );
                assert(output@ =~= old(output)@ + (header + body));
            }
            rest
        },
        Value::Dict { key_type, value_type, entries } => {
            format_dict_header(output, *key_type, *value_type);
            let rest = format_entries(output, entries, indent, floats);
            proof {
                let header = "map<"@ + suffix_text(*key_type) + ", "@ + suffix_text(*value_type)
                    + "> {"@;
                let body = block(
                    entries@.len(),
                    rendered_entries(entries@, indent@, floats@),
                    indent@,
                );
                assert(output@ =~= old(output)@ + (header + body));
            }
            rest
        },
        Value::Struct { fields } => {
            output.append("struct {");
            let rest = format_fields(output, fields, indent, floats);
            proof {
                let body = block(
                    fields@.len(),
                    rendered_fields(fields@, indent@, floats@),
                    indent@,
                );
                assert(output@ =~= old(output)@ + ("struct {"@ + body));
            }
            rest
        },
        Value::Enum { variant_id, value: inner } => {
            format_enum_header(output, *variant_id, indent);
            let inner_indent = deeper(indent);
            let rest = format_value(output, &**inner, inner_indent.as_str(), floats);
            format_enum_footer(output, indent);
            proof {
                let header = "enum {\n"@ + indent@ + "  "@ + decimal(*variant_id as nat) + ": "@;
                let body = rendered(**inner, indent@ + "  "@, floats@);
                let footer = ",\n"@ + indent@ + "}"@;
                assert(output@ =~= old(output)@ + (header + body + footer));
                assert(header + body + footer =~= rendered(*value, indent@, floats@));
            }
            rest
        },
    }
}

/// Appends the text of the first floating-point leaf and a suffix, and
/// returns the texts behind the first. Where no text is left the suffix
/// stands alone.
fn format_float<'a>(output: &mut String, floats: &'a [String], suffix: &str) -> (rest: &'a [
    String
])
    ensures
        final(output)@ == old(output)@ + (first_text(floats@) + suffix@),
        rest@ == texts_after(floats@, 1),
{
    if floats.len() > 0 {
        output.append(floats[0].as_str());
        output.append(suffix);
        proof {
            assert(output@ =~= old(output)@ + (first_text(floats@) + suffix@));
        }
        vstd::slice::slice_subrange(floats, 1, floats.len())
    } else {
        output.append(suffix);
        proof {
            assert(output@ =~= old(output)@ + (first_text(floats@) + suffix@));
            assert(floats@ =~= Seq::<String>::empty());
        }
        floats
    }
}

/// Appends what follows the header of an array: its elements, one per
/// line, and the closing brace.
fn format_items<'a>(
    output: &mut String,
    elements: &Vec<Value>,
    indent: &str,
    floats: &'a [String],
) -> (rest: &'a [String])
    ensures
        final(output)@ == old(output)@ + block(
            elements@.len(),
            rendered_items(elements@, indent@, floats@),
            indent@,
        ),
        rest@ == texts_after(floats@, items_float_leaves(elements@).len()),
    decreases elements, 0nat,
{
    if elements.len() == 0 {
        output.append("}");
        proof {
            assert(texts_after(floats@, 0) =~= floats@);
        }
        return floats;
    }
    output.append("\n");
    let inner_indent = deeper(indent);
    let mut rest = floats;
    let mut i: usize = 0;
    proof {
        assert(texts_after(floats@, 0) =~= floats@);
        assert(output@ =~= old(output)@ + "\n"@ + rendered_items(
            elements@.take(0),
            indent@,
            floats@,
        ));
    }
    while i < elements.len()
        invariant
            i <= elements.len(),
            inner_indent@ == indent@ + "  "@,
            output@ == old(output)@ + "\n"@ + rendered_items(
                elements@.take(i as int),
                indent@,
                floats@,
            ),
            rest@ == texts_after(floats@, items_float_leaves(elements@.take(i as int)).len()),
        decreases elements.len() - i,
    {
        let ghost before = elements@.take(i as int);
        let ghost count = items_float_leaves(before).len();
        proof {
            broadcast use vstd::std_specs::vec::axiom_vec_index_decreases;
            assert(decreases_to!(*elements => elements[i as int]));
            assert(elements@.take(i + 1).drop_last() =~= before);
            lemma_texts_after_twice(floats@, count, float_leaves(elements@[i as int]).len());
        }
        output.append(indent);
        output.append("  ");
        rest = format_value(output, &elements[i], inner_indent.as_str(), rest);
        output.append(",\n");
        proof {
            assert(output@ =~= old(output)@ + "\n"@ + rendered_items(
                elements@.take(i + 1),
                indent@,
                floats@,
            ));
        }
        i = i + 1;
    }
    output.append(indent);
    output.append("}");
    proof {
        assert(elements@.take(elements.len() as int) =~= elements@);
        assert(output@ =~= old(output)@ + block(
            elements@.len(),
            rendered_items(elements@, indent@, floats@),
            indent@,
        ));
    }
    rest
}

/// Appends what follows the header of a dictionary: its pairs, one per
/// line, and the closing brace.
fn format_entries<'a>(
    output: &mut String,
    entries: &Vec<(Value, Value)>,
    indent: &str,
    floats: &'a [String],
) -> (rest: &'a [String])
    ensures
        final(output)@ == old(output)@ + block(
            entries@.len(),
            rendered_entries(entries@, indent@, floats@),
            indent@,
        ),
        rest@ == texts_after(floats@, entries_float_leaves(entries@).len()),
    decreases entries, 0nat,
{
    if entries.len() == 0 {
        output.append("}");
        proof {
            assert(texts_after(floats@, 0) =~= floats@);
        }
        return floats;
    }
    output.append("\n");
    let inner_indent = deeper(indent);
    let mut rest = floats;
    let mut i: usize = 0;
    proof {
        assert(texts_after(floats@, 0) =~= floats@);
        assert(output@ =~= old(output)@ + "\n"@ + rendered_entries(
            entries@.take(0),
            indent@,
            floats@,
        ));
    }
    while i < entries.len()
        invariant
            i <= entries.len(),
            inner_indent@ == indent@ + "  "@,
            output@ == old(output)@ + "\n"@ + rendered_entries(
                entries@.take(i as int),
                indent@,
                floats@,
            ),
            rest@ == texts_after(floats@, entries_float_leaves(entries@.take(i as int)).len()),
        decreases entries.len() - i,
    {
        let ghost before = entries@.take(i as int);
        let ghost at_key = entries_float_leaves(before).len();
        let ghost in_key = float_leaves(entries@[i as int].0).len();
        proof {
            broadcast use vstd::std_specs::vec::axiom_vec_index_decreases;
            assert(decreases_to!(*entries => entries[i as int]));
            assert(decreases_to!(entries[i as int] => entries[i as int].0));
            assert(decreases_to!(entries[i as int] => entries[i as int].1));
            assert(entries@.take(i + 1).drop_last() =~= before);
            lemma_texts_after_twice(floats@, at_key, in_key);
            lemma_texts_after_twice(
                floats@,
                at_key + in_key,
                float_leaves(entries@[i as int].1).len(),
            );
        }
        output.append(indent);
        output.append("  ");
        let entry = &entries[i];
        rest = format_value(output, &entry.0, inner_indent.as_str(), rest);
        output.append(": ");
        rest = format_value(output, &entry.1, inner_indent.as_str(), rest);
        output.append(",\n");
        proof {
            assert(output@ =~= old(output)@ + "\n"@ + rendered_entries(
                entries@.take(i + 1),
                indent@,
                floats@,
            ));
        }
        i = i + 1;
    }
    output.append(indent);
    output.append("}");
    proof {
        assert(entries@.take(entries.len() as int) =~= entries@);
        assert(output@ =~= old(output)@ + block(
            entries@.len(),
            rendered_entries(entries@, indent@, floats@),
            indent@,
        ));
    }
    rest
}

/// Appends what follows the header of a struct: its fields, one per line
/// behind their ids, and the closing brace.
fn format_fields<'a>(
    output: &mut String,
    fields: &Vec<(u8, Value)>,
    indent: &str,
    floats: &'a [String],
) -> (rest: &'a [String])
    ensures
        final(output)@ == old(output)@ + block(
            fields@.len(),
            rendered_fields(fields@, indent@, floats@),
            indent@,
        ),
        rest@ == texts_after(floats@, fields_float_leaves(fields@).len()),
    decreases fields, 0nat,
{
    if fields.len() == 0 {
        output.append("}");
        proof {
            assert(texts_after(floats@, 0) =~= floats@);
        }
        return floats;
    }
    output.append("\n");
    let inner_indent = deeper(indent);
    let mut rest = floats;
    let mut i: usize = 0;
    proof {
        assert(texts_after(floats@, 0) =~= floats@);
        assert(output@ =~= old(output)@ + "\n"@ + rendered_fields(
            fields@.take(0),
            indent@,
            floats@,
        ));
    }
    while i < fields.len()
        invariant
            i <= fields.len(),
            inner_indent@ == indent@ + "  "@,
            output@ == old(output)@ + "\n"@ + rendered_fields(
                fields@.take(i as int),
                indent@,
                floats@,
            ),
            rest@ == texts_after(floats@, fields_float_leaves(fields@.take(i as int)).len()),
        decreases fields.len() - i,
    {
        let ghost before = fields@.take(i as int);
        let ghost count = fields_float_leaves(before).len();
        proof {
            broadcast use vstd::std_specs::vec::axiom_vec_index_decreases;
            assert(decreases_to!(*fields => fields[i as int]));
            assert(decreases_to!(fields[i as int] => fields[i as int].1));
            assert(fields@.take(i + 1).drop_last() =~= before);
            lemma_texts_after_twice(floats@, count, float_leaves(fields@[i as int].1).len());
        }
        output.append(indent);
        output.append("  ");
        let field = &fields[i];
        push_decimal(output, field.0 as u128);
        output.append(": ");
        rest = format_value(output, &field.1, inner_indent.as_str(), rest);
        output.append(",\n");
        proof {
            assert(output@ =~= old(output)@ + "\n"@ + rendered_fields(
                fields@.take(i + 1),
                indent@,
                floats@,
            ));
        }
        i = i + 1;
    }
    output.append(indent);
    output.append("}");
    proof {
        assert(fields@.take(fields.len() as int) =~= fields@);
        assert(output@ =~= old(output)@ + block(
            fields@.len(),
            rendered_fields(fields@, indent@, floats@),
            indent@,
        ));
    }
    rest
}

/// The ASCII rendering of a value. The texts of its floating-point leaves
/// are taken from `floats`, in the order in which the rendering meets the
/// leaves; a leaf for which no text is left is rendered as its suffix
/// alone.
pub fn to_ascii(value: &Value, floats: &[String]) -> (output: String)
    ensures
        output@ == rendered(*value, Seq::empty(), floats@),
{
    let mut output = String::new();
    let _rest = format_value(&mut output, value, "", floats);
    proof {
        reveal_strlit("");
        assert(""@ =~= Seq::<char>::empty());
        assert(output@ =~= rendered(*value, Seq::empty(), floats@));
    }
    output
}

} // verus!
