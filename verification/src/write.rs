//! Writing typed values: the top-level entry.

use crate::error::WriteResult;
use crate::traits::Relish;
use crate::wire::tagged;
use vstd::prelude::*;

verus! {

/// The encoding of a value: its type byte, then its payload.
pub fn to_vec<T: Relish>(value: &T) -> (r: WriteResult<Vec<u8>>)
    ensures
        T::obeys_wire_spec() ==> match r {
            Ok(bytes) => value.write_error() is None && bytes@ == tagged(
                T::TYPE,
                value.content(),
            ),
            Err(e) => value.write_error() == Some(*e.kind()),
        },
{
    let mut buffer: Vec<u8> = Vec::new();
    buffer.push(T::TYPE.to_byte());
    value.write_value(&mut buffer)?;
    proof {
        if T::obeys_wire_spec() {
            assert(buffer@ =~= tagged(T::TYPE, value.content()));
        }
    }
    Ok(buffer)
}

} // verus!
