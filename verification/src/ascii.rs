//! From bytes to text in one step: decoding without a schema, then
//! rendering.

use crate::buf::bytes_from_vec;
use crate::decode::from_bytes;
use crate::error::ParseError;
use crate::format::{
    entries_float_leaves, fields_float_leaves, float_leaves, items_float_leaves, rendered, to_ascii,
    FloatLeaf,
};
use crate::value::{decode_error, decodes_to, Value};
use vstd::prelude::*;
use vstd::slice::slice_to_vec;

verus! {

/// Appends the floating-point leaves of a tree, in the order in which the
/// rendering meets them.
pub fn push_float_leaves(value: &Value, leaves: &mut Vec<FloatLeaf>)
    ensures
        final(leaves)@ == old(leaves)@ + float_leaves(*value),
    decreases value, 1nat,
{
    match value {
        Value::F32(f) => {
            leaves.push(FloatLeaf::Single(*f));
            proof {
                assert(leaves@ =~= old(leaves)@ + float_leaves(*value));
            }
        },
        Value::F64(f) => {
            leaves.push(FloatLeaf::Double(*f));
            proof {
                assert(leaves@ =~= old(leaves)@ + float_leaves(*value));
            }
        },
        Value::Array { element_type, elements } => {
            let mut i: usize = 0;
            proof {
                assert(leaves@ =~= old(leaves)@ + items_float_leaves(elements@.take(0)));
            }
            while i < elements.len()
                invariant
                    i <= elements.len(),
                    decreases_to!(*value => *elements),
                    leaves@ == old(leaves)@ + items_float_leaves(elements@.take(i as int)),
                decreases elements.len() - i,
            {
                proof {
                    broadcast use vstd::std_specs::vec::axiom_vec_index_decreases;
                    assert(decreases_to!(*elements => elements[i as int]));
                    assert(elements@.take(i + 1).drop_last() =~= elements@.take(i as int));
                }
                push_float_leaves(&elements[i], leaves);
                proof {
                    assert(leaves@ =~= old(leaves)@ + items_float_leaves(elements@.take(i + 1)));
                }
                i = i + 1;
            }
            proof {
                assert(elements@.take(elements.len() as int) =~= elements@);
            }
        },
        Value::Dict { key_type, value_type, entries } => {
            let mut i: usize = 0;
            proof {
                assert(leaves@ =~= old(leaves)@ + entries_float_leaves(entries@.take(0)));
            }
            while i < entries.len()
                invariant
                    i <= entries.len(),
                    decreases_to!(*value => *entries),
                    leaves@ == old(leaves)@ + entries_float_leaves(entries@.take(i as int)),
                decreases entries.len() - i,
            {
                proof {
                    broadcast use vstd::std_specs::vec::axiom_vec_index_decreases;
                    assert(decreases_to!(*entries => entries[i as int]));
                    assert(decreases_to!(entries[i as int] => entries[i as int].0));
                    assert(decreases_to!(entries[i as int] => entries[i as int].1));
                    assert(entries@.take(i + 1).drop_last() =~= entries@.take(i as int));
                }
                let entry = &entries[i];
                push_float_leaves(&entry.0, leaves);
                push_float_leaves(&entry.1, leaves);
                proof {
                    assert(leaves@ =~= old(leaves)@ + entries_float_leaves(entries@.take(i + 1)));
                }
                i = i + 1;
            }
            proof {
                assert(entries@.take(entries.len() as int) =~= entries@);
            }
        },
        Value::Struct { fields } => {
            let mut i: usize = 0;
            proof {
                assert(leaves@ =~= old(leaves)@ + fields_float_leaves(fields@.take(0)));
            }
            while i < fields.len()
                invariant
                    i <= fields.len(),
                    decreases_to!(*value => *fields),
                    leaves@ == old(leaves)@ + fields_float_leaves(fields@.take(i as int)),
                decreases fields.len() - i,
            {
                proof {
                    broadcast use vstd::std_specs::vec::axiom_vec_index_decreases;
                    assert(decreases_to!(*fields => fields[i as int]));
                    assert(decreases_to!(fields[i as int] => fields[i as int].1));
                    assert(fields@.take(i + 1).drop_last() =~= fields@.take(i as int));
                }
                let field = &fields[i];
                push_float_leaves(&field.1, leaves);
                proof {
                    assert(leaves@ =~= old(leaves)@ + fields_float_leaves(fields@.take(i + 1)));
                }
                i = i + 1;
            }
            proof {
                assert(fields@.take(fields.len() as int) =~= fields@);
            }
        },
        Value::Enum { variant_id, value: inner } => {
            push_float_leaves(&**inner, leaves);
        },
        _ => {
            proof {
                assert(leaves@ =~= old(leaves)@ + float_leaves(*value));
            }
        },
    }
}

/// The floating-point leaves of a tree, in the order in which the
/// rendering meets them.
pub fn collect_float_leaves(value: &Value) -> (leaves: Vec<FloatLeaf>)
    ensures
        leaves@ == float_leaves(*value),
{
    let mut leaves: Vec<FloatLeaf> = Vec::new();
    push_float_leaves(value, &mut leaves);
    proof {
        assert(leaves@ =~= float_leaves(*value));
    }
    leaves
}

/// Whether `floats` are texts that `float_text` gives for the leaves, one
/// for each.
pub open spec fn texts_of<F: Fn(FloatLeaf) -> String>(
    float_text: F,
    leaves: Seq<FloatLeaf>,
    floats: Seq<String>,
) -> bool {
    &&& floats.len() == leaves.len()
    &&& forall|i: int|
        0 <= i < leaves.len() ==> call_ensures(float_text, (leaves[i],), #[trigger] floats[i])
}

/// Decodes a complete encoding, of whatever type, and renders it. The
/// decimal form of each floating-point number is asked of `float_text`, for
/// one leaf after the other in the order of the rendering.
pub fn relish2ascii<F: Fn(FloatLeaf) -> String>(data: &[u8], float_text: F) -> (r: Result<
    String,
    ParseError,
>)
    requires
        forall|leaf: FloatLeaf| call_requires(float_text, (leaf,)),
    ensures
        match r {
            Ok(text) => decode_error(data@) is None && exists|v: Value, floats: Seq<String>|
                {
                    &&& decodes_to(data@, v)
                    &&& texts_of(float_text, float_leaves(v), floats)
                    &&& text@ == #[trigger] rendered(v, Seq::empty(), floats)
                },
            Err(e) => decode_error(data@) == Some(*e.kind()),
        },
{
    let bytes = bytes_from_vec(slice_to_vec(data));
    let value = from_bytes(bytes)?;
    let leaves = collect_float_leaves(&value);
    let mut floats: Vec<String> = Vec::new();
    let mut i: usize = 0;
    while i < leaves.len()
        invariant
            i <= leaves.len(),
            floats@.len() == i,
            forall|leaf: FloatLeaf| call_requires(float_text, (leaf,)),
            forall|j: int|
                0 <= j < i ==> call_ensures(float_text, (leaves@[j],), #[trigger] floats@[j]),
        decreases leaves.len() - i,
    {
        let text = float_text(leaves[i]);
        floats.push(text);
        i = i + 1;
    }
    let text = to_ascii(&value, floats.as_slice());
    proof {
        assert(texts_of(float_text, float_leaves(value), floats@));
    }
    Ok(text)
}

} // verus!
