//! Building the texts the library shows: decimal and hexadecimal numbers,
//! and quoted strings.

use vstd::prelude::*;

verus! {

/// The character for the digit `d` (0-15), upper case past 9.
pub open spec fn digit_char(d: nat) -> char {
    if d < 10 {
        (48 + d) as char
    } else {
        (55 + d) as char
    }
}

/// `n` in decimal, without leading zeros.
pub open spec fn decimal(n: nat) -> Seq<char>
    decreases n,
{
    if n < 10 {
        seq![digit_char(n)]
    } else {
        decimal(n / 10).push(digit_char(n % 10))
    }
}

/// The last `width` hexadecimal digits of `n`, upper case, zero-padded.
pub open spec fn hex_digits(n: nat, width: nat) -> Seq<char>
    decreases width,
{
    if width == 0 {
        seq![]
    } else {
        hex_digits(n / 16, (width - 1) as nat).push(digit_char(n % 16))
    }
}

/// `n` as Rust's `{:#06X}` writes a `u16`: `0x` and four upper-case digits.
pub open spec fn hex16(n: u16) -> Seq<char> {
    seq!['0', 'x'] + hex_digits(n as nat, 4)
}

/// `n` as Rust's `{:#04X}` writes a `u8`: `0x` and two upper-case digits.
pub open spec fn hex8(n: u8) -> Seq<char> {
    seq!['0', 'x'] + hex_digits(n as nat, 2)
}

/// What `format!("{:?}", s)` makes of a string: `s` in double quotes, with
/// quotes, backslashes and control characters escaped.
pub uninterp spec fn debug_quoted(s: Seq<char>) -> Seq<char>;

/// Appends `c` to `s` (`String::push`).
#[verifier::external_body]
pub(crate) fn push_char(s: &mut String, c: char)
    ensures
        final(s)@ == old(s)@.push(c),
{
    s.push(c);
}

/// `s` in Rust's debug notation (`format!("{s:?}")`).
#[verifier::external_body]
pub(crate) fn debug_str(s: &str) -> (quoted: String)
    ensures
        quoted@ == debug_quoted(s@),
{
    format!("{s:?}")
}

/// The character for the digit `d`.
pub fn digit(d: u8) -> (c: char)
    requires
        d < 16,
    ensures
        c == digit_char(d as nat),
{
    if d < 10 {
        (48 + d) as char
    } else {
        (55 + d) as char
    }
}

/// Appends `n` in decimal to `s`.
pub fn push_decimal(s: &mut String, n: u64)
    ensures
        final(s)@ == old(s)@ + decimal(n as nat),
    decreases n,
{
    if n >= 10 {
        push_decimal(s, n / 10);
    }
    push_char(s, digit((n % 10) as u8));
    proof {
        if n >= 10 {
            assert(decimal(n as nat) == decimal((n / 10) as nat).push(digit_char((n % 10) as nat)));
        }
    }
}

/// Appends the last `width` hexadecimal digits of `n` to `s`.
pub fn push_hex_digits(s: &mut String, n: u64, width: u8)
    ensures
        final(s)@ == old(s)@ + hex_digits(n as nat, width as nat),
    decreases width,
{
    if width > 0 {
        push_hex_digits(s, n / 16, width - 1);
        push_char(s, digit((n % 16) as u8));
    } else {
        assert(old(s)@ + hex_digits(n as nat, 0) =~= old(s)@);
    }
}

/// Appends `n` as `{:#06X}` writes it.
pub fn push_hex16(s: &mut String, n: u16)
    ensures
        final(s)@ == old(s)@ + hex16(n),
{
    push_char(s, '0');
    push_char(s, 'x');
    push_hex_digits(s, n as u64, 4);
}

/// Appends `n` as `{:#04X}` writes it.
pub fn push_hex8(s: &mut String, n: u8)
    ensures
        final(s)@ == old(s)@ + hex8(n),
{
    push_char(s, '0');
    push_char(s, 'x');
    push_hex_digits(s, n as u64, 2);
}

} // verus!
