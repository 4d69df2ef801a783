//! Number formatting for assembly text, CPU messages and program output:
//! decimal for signed values, `0x`-prefixed lower-case hex with a minimum
//! digit count for addresses and words.
use vstd::prelude::*;

verus! {

/// The ASCII digit for `d` in bases up to 16 (lower-case letters above 9).
pub open spec fn digit_char(d: nat) -> char {
    if d < 10 {
        (48 + d) as char
    } else {
        (87 + d) as char
    }
}

/// Decimal digits of `n`, most significant first, no leading zeros.
pub open spec fn dec_digits(n: nat) -> Seq<char>
    decreases n,
{
    if n < 10 {
        seq![digit_char(n)]
    } else {
        dec_digits(n / 10) + seq![digit_char(n % 10)]
    }
}

/// A signed value the way `{}` prints it.
pub open spec fn dec_text(v: int) -> Seq<char> {
    if v < 0 {
        seq!['-'] + dec_digits((-v) as nat)
    } else {
        dec_digits(v as nat)
    }
}

/// Lower-case hex digits of `n`, zero-padded to at least `min` digits.
pub open spec fn hex_digits(n: nat, min: nat) -> Seq<char>
    decreases n, min,
{
    if n < 16 && min <= 1 {
        seq![digit_char(n)]
    } else {
        hex_digits(n / 16, if min == 0 { 0 } else { (min - 1) as nat }) + seq![digit_char(n % 16)]
    }
}

/// `n` the way `{:#0W x}` prints it: `0x`, then at least `min` hex digits.
pub open spec fn hex_text(n: nat, min: nat) -> Seq<char> {
    seq!['0', 'x'] + hex_digits(n, min)
}

fn digit(d: u32) -> (c: char)
    requires
        d < 16,
    ensures
        c == digit_char(d as nat),
{
    if d < 10 {
        ((48 + d) as u8) as char
    } else {
        ((87 + d) as u8) as char
    }
}

fn push_dec_digits(s: &mut String, n: u32)
    ensures
        final(s)@ == old(s)@ + dec_digits(n as nat),
    decreases n,
{
    if n < 10 {
        s.push(digit(n));
    } else {
        push_dec_digits(s, n / 10);
        s.push(digit(n % 10));
    }
}

/// Append `v` in decimal, with a leading `-` when negative.
pub fn push_dec(s: &mut String, v: i32)
    ensures
        final(s)@ == old(s)@ + dec_text(v as int),
{
    if v < 0 {
        s.push('-');
        let m = (0i64 - v as i64) as u32;
        push_dec_digits(s, m);
        assert(final(s)@ =~= old(s)@ + dec_text(v as int));
    } else {
        push_dec_digits(s, v as u32);
    }
}

/// Append an unsigned value in decimal.
pub fn push_dec_u32(s: &mut String, v: u32)
    ensures
        final(s)@ == old(s)@ + dec_text(v as int),
{
    push_dec_digits(s, v);
}

fn push_hex_digits(s: &mut String, n: u32, min: u32)
    ensures
        final(s)@ == old(s)@ + hex_digits(n as nat, min as nat),
    decreases n, min,
{
    if n < 16 && min <= 1 {
        s.push(digit(n));
    } else {
        let rest_min = if min == 0 {
            0
        } else {
            min - 1
        };
        push_hex_digits(s, n / 16, rest_min);
        s.push(digit(n % 16));
    }
}

/// Append `n` as `0x` followed by at least `min` lower-case hex digits.
pub fn push_hex(s: &mut String, n: u32, min: u32)
    ensures
        final(s)@ == old(s)@ + hex_text(n as nat, min as nat),
{
    s.push('0');
    s.push('x');
    push_hex_digits(s, n, min);
    assert(final(s)@ =~= old(s)@ + hex_text(n as nat, min as nat));
}

} // verus!
