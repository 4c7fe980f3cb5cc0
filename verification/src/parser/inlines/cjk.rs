//! Character classes for emphasis next to Chinese, Japanese and Korean
//! text.

use unicode_categories::UnicodeCategories;
use vstd::prelude::*;

verus! {

/// Whether a code point is a CJK character (a snapshot as of Unicode 16).
pub open spec fn cjk_code(v: u32) -> bool {
    (0x1100 <= v && v <= 0x11ff)
        || v == 0x20a9
        || (0x2329 <= v && v <= 0x232a)
        || (0x2630 <= v && v <= 0x2637)
        || (0x268a <= v && v <= 0x268f)
        || (0x2e80 <= v && v <= 0x2e99)
        || (0x2e9b <= v && v <= 0x2ef3)
        || (0x2f00 <= v && v <= 0x2fd5)
        || (0x2ff0 <= v && v <= 0x303e)
        || (0x3041 <= v && v <= 0x3096)
        || (0x3099 <= v && v <= 0x30ff)
        || (0x3105 <= v && v <= 0x312f)
        || (0x3131 <= v && v <= 0x318e)
        || (0x3190 <= v && v <= 0x31e5)
        || (0x31ef <= v && v <= 0x321e)
        || (0x3220 <= v && v <= 0x3247)
        || (0x3250 <= v && v <= 0xa48c)
        || (0xa490 <= v && v <= 0xa4c6)
        || (0xa960 <= v && v <= 0xa97c)
        || (0xac00 <= v && v <= 0xd7a3)
        || (0xd7b0 <= v && v <= 0xd7c6)
        || (0xd7cb <= v && v <= 0xd7fb)
        || (0xf900 <= v && v <= 0xfaff)
        || (0xfe10 <= v && v <= 0xfe19)
        || (0xfe30 <= v && v <= 0xfe52)
        || (0xfe54 <= v && v <= 0xfe66)
        || (0xfe68 <= v && v <= 0xfe6b)
        || (0xff01 <= v && v <= 0xffbe)
        || (0xffc2 <= v && v <= 0xffc7)
        || (0xffca <= v && v <= 0xffcf)
        || (0xffd2 <= v && v <= 0xffd7)
        || (0xffda <= v && v <= 0xffdc)
        || (0xffe0 <= v && v <= 0xffe6)
        || (0xffe8 <= v && v <= 0xffee)
        || (0x16fe0 <= v && v <= 0x16fe4)
        || (0x16ff0 <= v && v <= 0x16ff6)
        || (0x17000 <= v && v <= 0x18cd5)
        || (0x18cff <= v && v <= 0x18d1e)
        || (0x18d80 <= v && v <= 0x18df2)
        || (0x1aff0 <= v && v <= 0x1aff3)
        || (0x1aff5 <= v && v <= 0x1affb)
        || (0x1affd <= v && v <= 0x1affe)
        || (0x1b000 <= v && v <= 0x1b122)
        || v == 0x1b132
        || (0x1b150 <= v && v <= 0x1b152)
        || v == 0x1b155
        || (0x1b164 <= v && v <= 0x1b167)
        || (0x1b170 <= v && v <= 0x1b2fb)
        || (0x1d300 <= v && v <= 0x1d356)
        || (0x1d360 <= v && v <= 0x1d376)
        || v == 0x1f200
        || v == 0x1f202
        || (0x1f210 <= v && v <= 0x1f219)
        || (0x1f21b <= v && v <= 0x1f22e)
        || (0x1f230 <= v && v <= 0x1f231)
        || v == 0x1f237
        || v == 0x1f23b
        || (0x1f240 <= v && v <= 0x1f248)
        || (0x1f260 <= v && v <= 0x1f265)
        || (0x20000 <= v && v <= 0x3fffd)
}

/// Whether `c` is a CJK character.
pub fn is_cjk(c: char) -> (r: bool)
    ensures
        r == cjk_code(c as u32),
{
    let v = c as u32;
    (0x1100 <= v && v <= 0x11ff)
        || v == 0x20a9
        || (0x2329 <= v && v <= 0x232a)
        || (0x2630 <= v && v <= 0x2637)
        || (0x268a <= v && v <= 0x268f)
        || (0x2e80 <= v && v <= 0x2e99)
        || (0x2e9b <= v && v <= 0x2ef3)
        || (0x2f00 <= v && v <= 0x2fd5)
        || (0x2ff0 <= v && v <= 0x303e)
        || (0x3041 <= v && v <= 0x3096)
        || (0x3099 <= v && v <= 0x30ff)
        || (0x3105 <= v && v <= 0x312f)
        || (0x3131 <= v && v <= 0x318e)
        || (0x3190 <= v && v <= 0x31e5)
        || (0x31ef <= v && v <= 0x321e)
        || (0x3220 <= v && v <= 0x3247)
        || (0x3250 <= v && v <= 0xa48c)
        || (0xa490 <= v && v <= 0xa4c6)
        || (0xa960 <= v && v <= 0xa97c)
        || (0xac00 <= v && v <= 0xd7a3)
        || (0xd7b0 <= v && v <= 0xd7c6)
        || (0xd7cb <= v && v <= 0xd7fb)
        || (0xf900 <= v && v <= 0xfaff)
        || (0xfe10 <= v && v <= 0xfe19)
        || (0xfe30 <= v && v <= 0xfe52)
        || (0xfe54 <= v && v <= 0xfe66)
        || (0xfe68 <= v && v <= 0xfe6b)
        || (0xff01 <= v && v <= 0xffbe)
        || (0xffc2 <= v && v <= 0xffc7)
        || (0xffca <= v && v <= 0xffcf)
        || (0xffd2 <= v && v <= 0xffd7)
        || (0xffda <= v && v <= 0xffdc)
        || (0xffe0 <= v && v <= 0xffe6)
        || (0xffe8 <= v && v <= 0xffee)
        || (0x16fe0 <= v && v <= 0x16fe4)
        || (0x16ff0 <= v && v <= 0x16ff6)
        || (0x17000 <= v && v <= 0x18cd5)
        || (0x18cff <= v && v <= 0x18d1e)
        || (0x18d80 <= v && v <= 0x18df2)
        || (0x1aff0 <= v && v <= 0x1aff3)
        || (0x1aff5 <= v && v <= 0x1affb)
        || (0x1affd <= v && v <= 0x1affe)
        || (0x1b000 <= v && v <= 0x1b122)
        || v == 0x1b132
        || (0x1b150 <= v && v <= 0x1b152)
        || v == 0x1b155
        || (0x1b164 <= v && v <= 0x1b167)
        || (0x1b170 <= v && v <= 0x1b2fb)
        || (0x1d300 <= v && v <= 0x1d356)
        || (0x1d360 <= v && v <= 0x1d376)
        || v == 0x1f200
        || v == 0x1f202
        || (0x1f210 <= v && v <= 0x1f219)
        || (0x1f21b <= v && v <= 0x1f22e)
        || (0x1f230 <= v && v <= 0x1f231)
        || v == 0x1f237
        || v == 0x1f23b
        || (0x1f240 <= v && v <= 0x1f248)
        || (0x1f260 <= v && v <= 0x1f265)
        || (0x20000 <= v && v <= 0x3fffd)
}

/// Whether `c` is a general-purpose variation selector that is not the
/// emoji one: U+FE00 to U+FE0E.
pub fn is_non_emoji_general_purpose_vs(c: char) -> (r: bool)
    ensures
        r == (0xfe00 <= c as u32 && c as u32 <= 0xfe0e),
{
    let v = c as u32;
    0xfe00 <= v && v <= 0xfe0e
}

/// Whether `c` is an ideographic variation selector: U+E0100 to U+E01EF.
pub fn is_ideographic_vs(c: char) -> (r: bool)
    ensures
        r == (0xe0100 <= c as u32 && c as u32 <= 0xe01ef),
{
    let v = c as u32;
    0xe0100 <= v && v <= 0xe01ef
}

/// Whether `c` is a CJK character or an ideographic variation selector.
pub fn is_cjk_or_ideographic_vs(c: char) -> (r: bool)
    ensures
        r == (cjk_code(c as u32) || (0xe0100 <= c as u32 && c as u32 <= 0xe01ef)),
{
    is_cjk(c) || is_ideographic_vs(c)
}

/// Whether `c` is one of the quotation marks whose width is ambiguous:
/// U+2018, U+2019, U+201C, U+201D.
pub fn is_cjk_ambiguous_punctuation_candidate(c: char) -> (r: bool)
    ensures
        r == (c as u32 == 0x2018 || c as u32 == 0x2019 || c as u32 == 0x201c || c as u32 == 0x201d),
{
    let v = c as u32;
    v == 0x2018 || v == 0x2019 || v == 0x201c || v == 0x201d
}

/// Whether a character is Unicode punctuation (general category P), as the
/// tables of `unicode_categories` have it.
pub uninterp spec fn uc_punctuation(c: char) -> bool;

/// Whether a character is a Unicode symbol (general category S), as the
/// tables of `unicode_categories` have it.
pub uninterp spec fn uc_symbol(c: char) -> bool;

/// `UnicodeCategories::is_punctuation` of `unicode_categories`: a lookup
/// of the character's general category.
#[verifier::external_body]
fn uc_is_punctuation(c: char) -> (r: bool)
    ensures
        r == uc_punctuation(c),
{
    c.is_punctuation()
}

/// `UnicodeCategories::is_symbol` of `unicode_categories`.
#[verifier::external_body]
fn uc_is_symbol(c: char) -> (r: bool)
    ensures
        r == uc_symbol(c),
{
    c.is_symbol()
}

/// Whether `c` counts as punctuation for emphasis: Unicode punctuation or
/// a symbol.
pub fn is_cmark_punctuation(c: char) -> (r: bool)
    ensures
        r == (uc_punctuation(c) || uc_symbol(c)),
{
    uc_is_punctuation(c) || uc_is_symbol(c)
}

} // verus!
