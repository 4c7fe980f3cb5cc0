//! ASCII character classes as CommonMark uses them.

use vstd::prelude::*;

verus! {

/// Whitespace in the CommonMark sense: tab, line feed, line tabulation,
/// form feed, carriage return and space.
pub open spec fn is_space_byte(b: u8) -> bool {
    b == 9 || b == 10 || b == 11 || b == 12 || b == 13 || b == 32
}

/// ASCII punctuation: `!"#$%&'()*+,-./:;<=>?@[\]^_`{|}~`.
pub open spec fn is_punct_byte(b: u8) -> bool {
    (33 <= b && b <= 47) || (58 <= b && b <= 64) || (91 <= b && b <= 96) || (123 <= b && b <= 126)
}

/// ASCII decimal digit.
pub open spec fn is_digit_byte(b: u8) -> bool {
    48 <= b && b <= 57
}

/// ASCII letter.
pub open spec fn is_alpha_byte(b: u8) -> bool {
    (65 <= b && b <= 90) || (97 <= b && b <= 122)
}

/// ASCII letter or digit.
pub open spec fn is_alnum_byte(b: u8) -> bool {
    is_alpha_byte(b) || is_digit_byte(b)
}

/// ASCII hexadecimal digit.
pub open spec fn is_xdigit_byte(b: u8) -> bool {
    is_digit_byte(b) || (97 <= b && b <= 102) || (65 <= b && b <= 70)
}

/// Whitespace test on a byte.
pub fn isspace(b: u8) -> (r: bool)
    ensures
        r == is_space_byte(b),
{
    b == 9 || b == 10 || b == 11 || b == 12 || b == 13 || b == 32
}

/// Whitespace test on a character: only ASCII whitespace counts.
pub fn isspace_char(c: char) -> (r: bool)
    ensures
        r == (c == '\t' || c == '\n' || c == '\x0b' || c == '\x0c' || c == '\r' || c == ' '),
{
    c == '\t' || c == '\n' || c == '\x0b' || c == '\x0c' || c == '\r' || c == ' '
}

/// Punctuation test on a byte.
pub fn ispunct(b: u8) -> (r: bool)
    ensures
        r == is_punct_byte(b),
{
    (33 <= b && b <= 47) || (58 <= b && b <= 64) || (91 <= b && b <= 96) || (123 <= b && b <= 126)
}

/// Decimal digit test on a byte.
pub fn isdigit(b: u8) -> (r: bool)
    ensures
        r == is_digit_byte(b),
{
    48 <= b && b <= 57
}

/// Letter test on a byte.
pub fn isalpha(b: u8) -> (r: bool)
    ensures
        r == is_alpha_byte(b),
{
    (65 <= b && b <= 90) || (97 <= b && b <= 122)
}

/// Letter-or-digit test on a byte.
pub fn isalnum(b: u8) -> (r: bool)
    ensures
        r == is_alnum_byte(b),
{
    isalpha(b) || isdigit(b)
}

/// Hexadecimal digit test on a byte.
pub fn isxdigit(b: u8) -> (r: bool)
    ensures
        r == is_xdigit_byte(b),
{
    isdigit(b) || (97 <= b && b <= 102) || (65 <= b && b <= 70)
}

} // verus!
