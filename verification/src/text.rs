//! Building the text the library reports: characters, string pieces, and
//! numbers in hexadecimal and decimal.

use vstd::prelude::*;
use vstd::string::StringExecFns;

verus! {

/// Appends a character. Calls `String::push`, which appends the character
/// to the string and changes nothing else.
#[verifier::external_body]
pub(crate) fn push_char(s: &mut String, c: char)
    ensures
        final(s)@ == old(s)@.push(c),
{
    s.push(c)
}

/// Appends a string slice.
pub fn push_str(s: &mut String, t: &str)
    ensures
        final(s)@ == old(s)@ + t@,
{
    s.append(t)
}

/// The upper-case hexadecimal digit of a value below 16.
pub open spec fn hex_digit(d: int) -> char {
    if d < 10 {
        (d + 48) as char
    } else {
        (d + 55) as char
    }
}

/// The last `width` hexadecimal digits of `v`, most significant first.
pub open spec fn hex_digits(v: nat, width: nat) -> Seq<char>
    decreases width,
{
    if width == 0 {
        Seq::empty()
    } else {
        hex_digits(v / 16, (width - 1) as nat).push(hex_digit((v % 16) as int))
    }
}

/// The lower-case hexadecimal digit of a value below 16.
pub open spec fn hex_digit_lower(d: int) -> char {
    if d < 10 {
        (d + 48) as char
    } else {
        (d + 87) as char
    }
}

/// The last `width` lower-case hexadecimal digits of `v`, most
/// significant first.
pub open spec fn hex_digits_lower(v: nat, width: nat) -> Seq<char>
    decreases width,
{
    if width == 0 {
        Seq::empty()
    } else {
        hex_digits_lower(v / 16, (width - 1) as nat).push(hex_digit_lower((v % 16) as int))
    }
}

/// The decimal digits of `v`, most significant first, with no leading
/// zeros (`0` is one digit).
pub open spec fn dec_digits(v: nat) -> Seq<char>
    decreases v,
{
    if v < 10 {
        seq![((v + 48) as int) as char]
    } else {
        dec_digits(v / 10).push((((v % 10) + 48) as int) as char)
    }
}

pub fn hex_char(d: u64) -> (c: char)
    requires
        d < 16,
    ensures
        c == hex_digit(d as int),
{
    let digits: [char; 16] = [
        '0', '1', '2', '3', '4', '5', '6', '7', '8', '9', 'A', 'B', 'C', 'D', 'E', 'F',
    ];
    let c = digits[d as usize];
    assert(c == hex_digit(d as int)) by {
        assert(digits@[d as int] == c);
    }
    c
}

/// Appends the last `width` hexadecimal digits of `v`.
pub fn push_hex(s: &mut String, v: u64, width: u32)
    requires
        width <= 16,
    ensures
        final(s)@ == old(s)@ + hex_digits(v as nat, width as nat),
    decreases width,
{
    if width > 0 {
        push_hex(s, v / 16, width - 1);
        let c = hex_char(v % 16);
        push_char(s, c);
    }
}

fn hex_char_lower(d: u64) -> (c: char)
    requires
        d < 16,
    ensures
        c == hex_digit_lower(d as int),
{
    let digits: [char; 16] = [
        '0', '1', '2', '3', '4', '5', '6', '7', '8', '9', 'a', 'b', 'c', 'd', 'e', 'f',
    ];
    let c = digits[d as usize];
    assert(c == hex_digit_lower(d as int)) by {
        assert(digits@[d as int] == c);
    }
    c
}

/// Appends the last `width` lower-case hexadecimal digits of `v`.
pub fn push_hex_lower(s: &mut String, v: u64, width: u32)
    requires
        width <= 16,
    ensures
        final(s)@ == old(s)@ + hex_digits_lower(v as nat, width as nat),
    decreases width,
{
    if width > 0 {
        push_hex_lower(s, v / 16, width - 1);
        let c = hex_char_lower(v % 16);
        push_char(s, c);
    }
}

/// Appends `v` in decimal.
pub fn push_dec(s: &mut String, v: u64)
    ensures
        final(s)@ == old(s)@ + dec_digits(v as nat),
    decreases v,
{
    if v < 10 {
        let c = char_of_digit(v);
        push_char(s, c);
        assert(seq![c] =~= dec_digits(v as nat));
    } else {
        push_dec(s, v / 10);
        let c = char_of_digit(v % 10);
        push_char(s, c);
    }
}

fn char_of_digit(d: u64) -> (c: char)
    requires
        d < 10,
    ensures
        c == ((d + 48) as int) as char,
{
    let digits: [char; 10] = ['0', '1', '2', '3', '4', '5', '6', '7', '8', '9'];
    let c = digits[d as usize];
    assert(c == ((d + 48) as int) as char) by {
        assert(digits@[d as int] == c);
    }
    c
}

} // verus!
