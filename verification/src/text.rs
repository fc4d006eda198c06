//! Text building blocks of the ASCII rendering: decimal numbers and quoted
//! string literals.

use vstd::prelude::*;

verus! {

/// `String::push`: appends one character. Assumed: afterwards the string
/// is what it was, with the character behind it.
pub assume_specification[ std::string::String::push ](s: &mut std::string::String, c: char)
    ensures
        final(s)@ == old(s)@.push(c),
;

/// The character of a digit below sixteen, in lower case.
pub open spec fn digit(d: nat) -> char {
    if d == 0 {
        '0'
    } else if d == 1 {
        '1'
    } else if d == 2 {
        '2'
    } else if d == 3 {
        '3'
    } else if d == 4 {
        '4'
    } else if d == 5 {
        '5'
    } else if d == 6 {
        '6'
    } else if d == 7 {
        '7'
    } else if d == 8 {
        '8'
    } else if d == 9 {
        '9'
    } else if d == 10 {
        'a'
    } else if d == 11 {
        'b'
    } else if d == 12 {
        'c'
    } else if d == 13 {
        'd'
    } else if d == 14 {
        'e'
    } else {
        'f'
    }
}

/// The decimal digits of a number, without leading zeros.
pub open spec fn decimal(n: nat) -> Seq<char>
    decreases n,
{
    if n < 10 {
        seq![digit(n)]
    } else {
        decimal(n / 10).push(digit(n % 10))
    }
}

/// The decimal form of a number with its sign: a minus in front of a
/// negative number, nothing in front of another.
pub open spec fn signed_decimal(n: int) -> Seq<char> {
    if n < 0 {
        seq!['-'] + decimal((-n) as nat)
    } else {
        decimal(n as nat)
    }
}

/// What stands for a character inside a string literal: a backslash form
/// for the quote, the backslash, the line feed, the carriage return and the
/// tab; `\x` and two hex digits for the other ASCII control characters;
/// the character itself otherwise.
pub open spec fn escaped_char(c: char) -> Seq<char> {
    if c == '"' {
        seq!['\\', '"']
    } else if c == '\\' {
        seq!['\\', '\\']
    } else if c == '\n' {
        seq!['\\', 'n']
    } else if c == '\r' {
        seq!['\\', 'r']
    } else if c == '\t' {
        seq!['\\', 't']
    } else if (c as u32) < 0x20 || c as u32 == 0x7F {
        seq!['\\', 'x', digit((c as u32 / 16) as nat), digit((c as u32 % 16) as nat)]
    } else {
        seq![c]
    }
}

/// The characters of a text, each as it stands inside a string literal.
pub open spec fn escaped(s: Seq<char>) -> Seq<char>
    decreases s.len(),
{
    if s.len() == 0 {
        Seq::empty()
    } else {
        escaped(s.drop_last()) + escaped_char(s.last())
    }
}

/// A text as a string literal: between double quotes, with escapes.
pub open spec fn quoted(s: Seq<char>) -> Seq<char> {
    seq!['"'] + escaped(s) + seq!['"']
}

/// The character of a digit below sixteen, in lower case.
pub fn digit_char(d: u8) -> (c: char)
    requires
        d < 16,
    ensures
        c == digit(d as nat),
{
    match d {
        0 => '0',
        1 => '1',
        2 => '2',
        3 => '3',
        4 => '4',
        5 => '5',
        6 => '6',
        7 => '7',
        8 => '8',
        9 => '9',
        10 => 'a',
        11 => 'b',
        12 => 'c',
        13 => 'd',
        14 => 'e',
        _ => 'f',
    }
}

/// Appends the decimal digits of a number.
pub fn push_decimal(output: &mut String, n: u128)
    ensures
        final(output)@ == old(output)@ + decimal(n as nat),
{
    let mut digits: Vec<char> = Vec::new();
    let mut rest: u128 = n;
    while rest >= 10
        invariant
            decimal(n as nat) == decimal(rest as nat) + digits@.reverse(),
        decreases rest,
    {
        let d = digit_char((rest % 10) as u8);
        proof {
            let after = digits@.push(d);
            assert(after.reverse() =~= seq![d] + digits@.reverse());
            assert(decimal(rest as nat) == decimal((rest / 10) as nat).push(d));
            assert(decimal((rest / 10) as nat).push(d) + digits@.reverse() =~= decimal(
                (rest / 10) as nat,
            ) + after.reverse());
        }
        digits.push(d);
        rest = rest / 10;
    }
    output.push(digit_char(rest as u8));
    let mut i: usize = digits.len();
    proof {
        assert(digits@.reverse().take(0) =~= Seq::<char>::empty());
        assert(old(output)@.push(digit(rest as nat)) =~= old(output)@ + decimal(rest as nat)
            + digits@.reverse().take(0));
    }
    while i > 0
        invariant
            i <= digits.len(),
            output@ == old(output)@ + decimal(rest as nat) + digits@.reverse().take(
                digits.len() - i,
            ),
        decreases i,
    {
        i = i - 1;
        output.push(digits[i]);
        proof {
            let r = digits@.reverse();
            let k = digits.len() - i - 1;
            assert(r[k] == digits@[i as int]);
            assert(r.take(k + 1) =~= r.take(k).push(r[k]));
            assert(output@ =~= old(output)@ + decimal(rest as nat) + r.take(k + 1));
        }
    }
    proof {
        let r = digits@.reverse();
        assert(r.take(digits.len() as int) =~= r);
        assert(output@ =~= old(output)@ + (decimal(rest as nat) + r));
    }
}

/// Appends the decimal form of a number with its sign.
pub fn push_signed_decimal(output: &mut String, n: i128)
    ensures
        final(output)@ == old(output)@ + signed_decimal(n as int),
{
    if n < 0 {
        output.push('-');
        let magnitude: u128 = if n == i128::MIN {
            0x8000_0000_0000_0000_0000_0000_0000_0000
        } else {
            (-n) as u128
        };
        push_decimal(output, magnitude);
        proof {
            assert(output@ =~= old(output)@ + signed_decimal(n as int));
        }
    } else {
        push_decimal(output, n as u128);
    }
}

/// Appends what stands for a character inside a string literal.
pub fn push_escaped_char(output: &mut String, c: char)
    ensures
        final(output)@ == old(output)@ + escaped_char(c),
{
    let code: u32 = c as u32;
    if c == '"' {
        output.push('\\');
        output.push('"');
    } else if c == '\\' {
        output.push('\\');
        output.push('\\');
    } else if c == '\n' {
        output.push('\\');
        output.push('n');
    } else if c == '\r' {
        output.push('\\');
        output.push('r');
    } else if c == '\t' {
        output.push('\\');
        output.push('t');
    } else if code < 0x20 || code == 0x7F {
        output.push('\\');
        output.push('x');
        output.push(digit_char((code / 16) as u8));
        output.push(digit_char((code % 16) as u8));
    } else {
        output.push(c);
    }
    proof {
        assert(output@ =~= old(output)@ + escaped_char(c));
    }
}

/// Appends a text as a string literal: between double quotes, with
/// escapes.
pub fn format_string_literal(output: &mut String, s: &str)
    ensures
        final(output)@ == old(output)@ + quoted(s@),
{
    output.push('"');
    let ghost mut done: int = 0;
    proof {
        assert(s@.take(0) =~= Seq::<char>::empty());
        assert(output@ =~= old(output)@ + seq!['"'] + escaped(s@.take(0)));
    }
    for c in it: s.chars()
        invariant
            it.seq() == s@,
            done == it.index(),
            output@ == old(output)@ + seq!['"'] + escaped(s@.take(done)),
    {
        push_escaped_char(output, c);
        proof {
            assert(s@.take(done + 1).drop_last() =~= s@.take(done));
            assert(output@ =~= old(output)@ + seq!['"'] + escaped(s@.take(done + 1)));
            done = done + 1;
        }
    }
    output.push('"');
    proof {
        assert(s@.take(s@.len() as int) =~= s@);
        assert(output@ =~= old(output)@ + quoted(s@));
    }
}

} // verus!
