//! Byte classes of the expression language.

use vstd::prelude::*;

verus! {

/// The ASCII decimal digits, `0` to `9`.
pub open spec fn digit_byte(c: u8) -> bool {
    0x30 <= c <= 0x39
}

/// The ASCII letters, `a` to `z` and `A` to `Z`.
pub open spec fn letter_byte(c: u8) -> bool {
    (0x61 <= c <= 0x7a) || (0x41 <= c <= 0x5a)
}

/// The ASCII letters and digits.
pub open spec fn alnum_byte(c: u8) -> bool {
    digit_byte(c) || letter_byte(c)
}

/// Space, tab and carriage return: the blanks that do not end a line.
pub open spec fn space_byte(c: u8) -> bool {
    c == 0x20 || c == 0x09 || c == 0x0d
}

pub fn is_digit(c: u8) -> (r: bool)
    ensures
        r == digit_byte(c),
{
    (c >= 0x30) && (c <= 0x39)
}

pub fn is_alnum(c: u8) -> (r: bool)
    ensures
        r == alnum_byte(c),
{
    is_digit(c) || ((c >= 0x61) && (c <= 0x7a)) || ((c >= 0x41) && (c <= 0x5a))
}

pub fn is_space(c: u8) -> (r: bool)
    ensures
        r == space_byte(c),
{
    match c {
        0x20 | 0x0d | 0x09 => true,
        _ => false,
    }
}

} // verus!

