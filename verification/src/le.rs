//! Little-endian integers: the mathematical model of an integer laid out in a
//! given number of bytes, and the routines that write and read such bytes.

use vstd::prelude::*;

verus! {

/// `256` to the power `n`: the number of values that `n` bytes can hold.
pub open spec fn pow256(n: nat) -> nat
    decreases n,
{
    if n == 0 {
        1
    } else {
        256 * pow256((n - 1) as nat)
    }
}

/// The `width` low bytes of `value`, lowest byte first.
pub open spec fn le_bytes(value: nat, width: nat) -> Seq<u8>
    decreases width,
{
    if width == 0 {
        Seq::empty()
    } else {
        seq![(value % 256) as u8] + le_bytes(value / 256, (width - 1) as nat)
    }
}

/// The number that `bytes` spell, lowest byte first.
pub open spec fn le_value(bytes: Seq<u8>) -> nat
    decreases bytes.len(),
{
    if bytes.len() == 0 {
        0
    } else {
        bytes[0] as nat + 256 * le_value(bytes.skip(1))
    }
}

/// The unsigned number whose `width` bytes are the two's complement form of
/// `value`.
pub open spec fn twos_complement(value: int, width: nat) -> nat {
    if value >= 0 {
        value as nat
    } else {
        (value + pow256(width)) as nat
    }
}

/// The signed number that the unsigned `value` stands for in two's
/// complement on `width` bytes.
pub open spec fn from_twos_complement(value: nat, width: nat) -> int {
    if 2 * value < pow256(width) {
        value as int
    } else {
        value - pow256(width)
    }
}

/// The values of `pow256` at the widths of the integer types.
pub proof fn lemma_pow256_values()
    ensures
        pow256(0) == 1,
        pow256(1) == 0x100,
        pow256(2) == 0x1_0000,
        pow256(3) == 0x100_0000,
        pow256(4) == 0x1_0000_0000,
        pow256(8) == 0x1_0000_0000_0000_0000,
        pow256(16) == 0x1_0000_0000_0000_0000_0000_0000_0000_0000,
{
    reveal_with_fuel(pow256, 17);
}

/// `pow256` grows with its argument.
pub proof fn lemma_pow256_monotonic(a: nat, b: nat)
    requires
        a <= b,
    ensures
        0 < pow256(a) <= pow256(b),
    decreases b,
{
    if b == 0 {
    } else if a == b {
        lemma_pow256_monotonic((a - 1) as nat, (b - 1) as nat);
    } else {
        lemma_pow256_monotonic(a, (b - 1) as nat);
    }
}

/// A number laid out in `width` bytes takes `width` bytes.
pub proof fn lemma_le_bytes_len(value: nat, width: nat)
    ensures
        le_bytes(value, width).len() == width,
    decreases width,
{
    if width > 0 {
        lemma_le_bytes_len(value / 256, (width - 1) as nat);
    }
}

/// What `n` bytes spell is below `256` to the `n`.
pub proof fn lemma_le_value_bound(bytes: Seq<u8>)
    ensures
        le_value(bytes) < pow256(bytes.len()),
    decreases bytes.len(),
{
    if bytes.len() > 0 {
        lemma_le_value_bound(bytes.skip(1));
    }
}

/// Reading back the bytes of a number that fits gives the number.
pub proof fn lemma_le_value_of_bytes(value: nat, width: nat)
    requires
        value < pow256(width),
    ensures
        le_value(le_bytes(value, width)) == value,
    decreases width,
{
    if width > 0 {
        let rest = le_bytes(value / 256, (width - 1) as nat);
        let all = le_bytes(value, width);
        lemma_le_value_of_bytes(value / 256, (width - 1) as nat);
        assert(all.skip(1) =~= rest);
        assert(all[0] == (value % 256) as u8);
    }
}

/// Laying out what some bytes spell, in as many bytes, gives the bytes.
pub proof fn lemma_le_bytes_of_value(bytes: Seq<u8>)
    ensures
        le_bytes(le_value(bytes), bytes.len()) == bytes,
    decreases bytes.len(),
{
    if bytes.len() > 0 {
        let tail = bytes.skip(1);
        lemma_le_bytes_of_value(tail);
        let v = le_value(bytes);
        assert(v % 256 == bytes[0] as nat);
        assert(v / 256 == le_value(tail));
        assert(le_bytes(v, bytes.len()) =~= bytes);
    }
}

/// The bytes of a number, one byte longer: the next byte is appended.
pub proof fn lemma_le_bytes_push(value: nat, width: nat)
    ensures
        le_bytes(value, width + 1) == le_bytes(value, width).push(
            ((value / pow256(width)) % 256) as u8,
        ),
    decreases width,
{
    if width == 0 {
        assert(pow256(0) == 1);
        assert(value / 1 == value);
        assert(le_bytes(value / 256, 0) =~= Seq::<u8>::empty());
        assert(le_bytes(value, 0) =~= Seq::<u8>::empty());
        assert(le_bytes(value, 1) =~= Seq::<u8>::empty().push((value % 256) as u8));
    } else {
        lemma_le_bytes_push(value / 256, (width - 1) as nat);
        lemma_pow256_monotonic(0, (width - 1) as nat);
        lemma_div_div(value, pow256((width - 1) as nat));
        assert(le_bytes(value, width + 1) =~= le_bytes(value, width).push(
            ((value / pow256(width)) % 256) as u8,
        ));
    }
}

/// Dividing by `256` and then by `d` is dividing by `256 * d`.
proof fn lemma_div_div(value: nat, d: nat)
    requires
        d > 0,
    ensures
        (value / 256) / d == value / (256 * d),
{
    vstd::arithmetic::div_mod::lemma_div_denominator(value as int, 256, d as int);
}

/// Two's complement is its own inverse on the range of a signed integer of
/// `width` bytes.
pub proof fn lemma_twos_complement_roundtrip(value: int, width: nat)
    requires
        -(pow256(width) as int) <= 2 * value < pow256(width),
    ensures
        twos_complement(value, width) < pow256(width),
        from_twos_complement(twos_complement(value, width), width) == value,
{
}

/// Appends the `width` low bytes of `value`, lowest first.
pub fn write_le(buffer: &mut Vec<u8>, value: u128, width: usize)
    requires
        width <= 16,
    ensures
        final(buffer)@ == old(buffer)@ + le_bytes(value as nat, width as nat),
{
    let mut rest: u128 = value;
    let mut i: usize = 0;
    proof {
        assert(old(buffer)@ + le_bytes(value as nat, 0) =~= old(buffer)@);
        assert(pow256(0) == 1);
        assert(value as nat / 1 == value as nat);
    }
    while i < width
        invariant
            i <= width <= 16,
            rest == value as nat / pow256(i as nat),
            buffer@ == old(buffer)@ + le_bytes(value as nat, i as nat),
        decreases width - i,
    {
        buffer.push((rest % 256) as u8);
        proof {
            lemma_le_bytes_push(value as nat, i as nat);
            lemma_pow256_monotonic(0, i as nat);
            assert(pow256((i + 1) as nat) == 256 * pow256(i as nat));
            vstd::arithmetic::div_mod::lemma_div_denominator(
                value as int,
                pow256(i as nat) as int,
                256,
            );
            assert(pow256(i as nat) * 256 == 256 * pow256(i as nat)) by (nonlinear_arith);
            assert(buffer@ =~= old(buffer)@ + le_bytes(value as nat, (i + 1) as nat));
        }
        rest = rest / 256;
        i = i + 1;
    }
}

/// The number that at most sixteen bytes spell, lowest byte first.
pub fn read_le(bytes: &[u8]) -> (value: u128)
    requires
        bytes@.len() <= 16,
    ensures
        value == le_value(bytes@),
{
    let mut value: u128 = 0;
    let mut i: usize = bytes.len();
    proof {
        assert(bytes@.skip(i as int) =~= Seq::<u8>::empty());
    }
    while i > 0
        invariant
            i <= bytes@.len() <= 16,
            value == le_value(bytes@.skip(i as int)),
        decreases i,
    {
        i = i - 1;
        proof {
            let tail = bytes@.skip(i as int);
            assert(tail.skip(1) =~= bytes@.skip(i + 1));
            assert(tail[0] == bytes@[i as int]);
            lemma_le_value_bound(tail.skip(1));
            lemma_pow256_monotonic(tail.skip(1).len(), 15);
            lemma_pow256_values();
            reveal_with_fuel(pow256, 16);
        }
        value = value * 256 + bytes[i] as u128;
    }
    proof {
        assert(bytes@.skip(0) =~= bytes@);
    }
    value
}

} // verus!
