//! The length prefix: one byte for lengths below 128, four bytes otherwise.
//! The lowest bit of the first byte tells the two forms apart.

use crate::error::{ParseErrorKind, WriteError, WriteErrorKind, WriteResult};
use crate::le::{
    le_bytes, le_value, lemma_le_bytes_len, lemma_le_value_of_bytes, lemma_pow256_values, write_le,
};
use vstd::prelude::*;

verus! {

/// The greatest content length that a prefix can express.
pub const MAX_CONTENT_LENGTH: usize = 0x7FFF_FFFF;

/// How many bytes the prefix of a content of `length` bytes takes.
pub open spec fn varint_size(length: nat) -> nat {
    if length < 128 {
        1
    } else {
        4
    }
}

/// The prefix of a content of `length` bytes: twice the length in one byte,
/// or twice the length plus one in four bytes, lowest first.
pub open spec fn varint_bytes(length: nat) -> Seq<u8> {
    if length < 128 {
        seq![(2 * length) as u8]
    } else {
        le_bytes(2 * length + 1, 4)
    }
}

/// What reading a prefix at the front of `s` gives: the length it
/// announces and the number of bytes it takes, or the reason why `s` is too
/// short. A long form is accepted whatever length it holds.
pub open spec fn varint_read(s: Seq<u8>) -> Result<(nat, nat), ParseErrorKind> {
    if s.len() == 0 {
        Err(ParseErrorKind::InsufficientData { needed: 1, available: 0 })
    } else if s[0] % 2 == 0 {
        Ok(((s[0] / 2) as nat, 1))
    } else if s.len() < 4 {
        Err(ParseErrorKind::InsufficientData { needed: 3, available: (s.len() - 1) as usize })
    } else {
        Ok((le_value(s.subrange(0, 4)) / 2, 4))
    }
}

/// A prefix that was written is read back as the length it was written
/// for, and takes one byte exactly when the length is below 128, else four.
pub proof fn lemma_varint_roundtrip(length: nat, rest: Seq<u8>)
    requires
        length <= MAX_CONTENT_LENGTH,
    ensures
        varint_bytes(length).len() == varint_size(length),
        varint_size(length) == 1 <==> length < 128,
        varint_size(length) == 4 <==> length >= 128,
        varint_read(varint_bytes(length) + rest) == Ok::<(nat, nat), ParseErrorKind>(
            (length, varint_size(length)),
        ),
{
    let prefix = varint_bytes(length);
    let s = prefix + rest;
    if length < 128 {
        assert(s[0] == (2 * length) as u8);
    } else {
        let tagged = 2 * length + 1;
        lemma_le_bytes_len(tagged, 4);
        lemma_pow256_values();
        lemma_le_value_of_bytes(tagged, 4);
        assert(s.subrange(0, 4) =~= prefix);
        assert(prefix[0] == (tagged % 256) as u8);
        assert(s[0] == prefix[0]);
    }
}

/// A prefix takes as many bytes as its size says.
pub proof fn lemma_varint_size(length: nat)
    ensures
        varint_bytes(length).len() == varint_size(length),
{
    if length >= 128 {
        lemma_le_bytes_len(2 * length + 1, 4);
    }
}

/// A prefix announces a length that a prefix can express.
pub proof fn lemma_varint_read_bound(s: Seq<u8>)
    ensures
        varint_read(s) matches Ok((length, used)) ==> length <= MAX_CONTENT_LENGTH && 1 <= used
            <= s.len() && used == (if s[0] % 2 == 0 {
            1nat
        } else {
            4nat
        }),
{
    if s.len() >= 4 {
        crate::le::lemma_le_value_bound(s.subrange(0, 4));
        lemma_pow256_values();
    }
}

/// How many bytes the prefix of a content of `length` bytes takes.
pub fn tagged_varint_length_size(length: usize) -> (n: usize)
    ensures
        n == varint_size(length as nat),
{
    if length < 128 {
        1
    } else {
        4
    }
}

/// Appends the prefix of a content of `length` bytes. A length above
/// [`MAX_CONTENT_LENGTH`] is refused and the buffer is left as it was.
pub fn write_tagged_varint_length(buffer: &mut Vec<u8>, length: usize) -> (r: WriteResult<()>)
    ensures
        match r {
            Ok(()) => length <= MAX_CONTENT_LENGTH && final(buffer)@ == old(buffer)@
                + varint_bytes(length as nat),
            Err(e) => length > MAX_CONTENT_LENGTH && *e.kind() == WriteErrorKind::ContentTooLarge(
                length,
            ) && final(buffer)@ == old(buffer)@,
        },
{
    if length > MAX_CONTENT_LENGTH {
        return Err(WriteError::new(WriteErrorKind::ContentTooLarge(length)));
    }
    if length < 128 {
        buffer.push((length * 2) as u8);
        proof {
            assert(buffer@ =~= old(buffer)@ + varint_bytes(length as nat));
        }
    } else {
        let tagged: u32 = (length as u32) * 2 + 1;
        write_le(buffer, tagged as u128, 4);
    }
    Ok(())
}

} // verus!
