//! Which bytes the inline parser stops at.  Text runs up to the next byte
//! that can start an inline construct under the options in force; with
//! smart punctuation, quotes, periods and hyphens stop it too.

use vstd::prelude::*;
use vstd::string::*;

use crate::parser::options::Options;

verus! {

/// A byte that can start an inline construct: line ends, emphasis,
/// quotes, code, escapes, entities, autolinks and HTML, links, and math,
/// and those of the extensions in force.
pub open spec fn is_special(b: u8, o: Options) -> bool {
    b == 10 || b == 13 || b == 95 || b == 42 || b == 34 || b == 96 || b == 92 || b == 38 || b == 60
        || b == 91 || b == 93 || b == 33 || b == 36 || (o.extension.autolink && (b == 58 || b == 119))
        || ((o.extension.strikethrough || o.extension.subscript) && b == 126) || ((
    o.extension.superscript || o.extension.inline_footnotes) && b == 94) || (o.extension.shortcodes
        && b == 58) || (o.extension.spoiler && b == 124)
}

/// A byte that smart punctuation rewrites: quotes, periods, hyphens.
pub open spec fn is_smart(b: u8) -> bool {
    b == 34 || b == 39 || b == 46 || b == 45
}

/// A byte that delimits emphasis-like spans under the options in force.
pub open spec fn is_emph_delim(b: u8, o: Options) -> bool {
    b == 42 || b == 95 || ((o.extension.strikethrough || o.extension.subscript) && b == 126)
        || (o.extension.superscript && b == 94) || (o.extension.spoiler && b == 124)
}

/// A byte passed over when looking at the characters around a delimiter
/// run: a tilde, when tildes are delimiters.
pub open spec fn is_skip(b: u8, o: Options) -> bool {
    (o.extension.strikethrough || o.extension.subscript) && b == 126
}

/// The byte classes the inline parser looks up, by byte value.
pub struct CharTables {
    /// Bytes that can start an inline construct.
    pub special_char_bytes: Vec<bool>,
    /// Bytes passed over around delimiter runs.
    pub skip_char_bytes: Vec<bool>,
    /// Bytes smart punctuation rewrites.
    pub smart_char_bytes: Vec<bool>,
    /// Bytes that delimit emphasis-like spans.
    pub emph_delim_bytes: Vec<bool>,
}

/// The position of the first byte from `i` on where `find_special_char`
/// stops: a special byte (except `^` within brackets) or, with smart
/// punctuation, a smart byte; the end if there is none.
pub open spec fn next_special(b: Seq<u8>, i: int, o: Options, within_brackets: bool) -> int
    decreases b.len() - i,
{
    if i < 0 || i >= b.len() {
        b.len() as int
    } else if (is_special(b[i], o) && !(b[i] == 94 && within_brackets)) || (o.parse.smart && is_smart(
        b[i],
    )) {
        i
    } else {
        next_special(b, i + 1, o, within_brackets)
    }
}

impl CharTables {
    /// The tables for the options in force.
    pub fn new(options: &Options) -> (r: Self)
        ensures
            r.special_char_bytes@.len() == 256,
            r.skip_char_bytes@.len() == 256,
            r.smart_char_bytes@.len() == 256,
            r.emph_delim_bytes@.len() == 256,
            forall|b: u8| #[trigger] r.special_char_bytes@[b as int] == is_special(b, *options),
            forall|b: u8| #[trigger] r.skip_char_bytes@[b as int] == is_skip(b, *options),
            forall|b: u8| #[trigger] r.smart_char_bytes@[b as int] == is_smart(b),
            forall|b: u8| #[trigger] r.emph_delim_bytes@[b as int] == is_emph_delim(b, *options),
    {
        let mut special: Vec<bool> = Vec::new();
        let mut skip: Vec<bool> = Vec::new();
        let mut smart: Vec<bool> = Vec::new();
        let mut emph: Vec<bool> = Vec::new();
        let mut i: usize = 0;
        while i < 256
            invariant
                i <= 256,
                special@.len() == i,
                skip@.len() == i,
                smart@.len() == i,
                emph@.len() == i,
                forall|j: int| 0 <= j < i ==> special@[j] == is_special(j as u8, *options),
                forall|j: int| 0 <= j < i ==> skip@[j] == is_skip(j as u8, *options),
                forall|j: int| 0 <= j < i ==> smart@[j] == is_smart(j as u8),
                forall|j: int| 0 <= j < i ==> emph@[j] == is_emph_delim(j as u8, *options),
            decreases 256 - i,
        {
            let b = i as u8;
            let ext = &options.extension;
            special.push(
                b == 10 || b == 13 || b == 95 || b == 42 || b == 34 || b == 96 || b == 92 || b == 38
                    || b == 60 || b == 91 || b == 93 || b == 33 || b == 36 || (ext.autolink && (b == 58
                    || b == 119)) || ((ext.strikethrough || ext.subscript) && b == 126) || ((
                ext.superscript || ext.inline_footnotes) && b == 94) || (ext.shortcodes && b == 58)
                    || (ext.spoiler && b == 124),
            );
            skip.push((ext.strikethrough || ext.subscript) && b == 126);
            smart.push(b == 34 || b == 39 || b == 46 || b == 45);
            emph.push(
                b == 42 || b == 95 || ((ext.strikethrough || ext.subscript) && b == 126) || (
                ext.superscript && b == 94) || (ext.spoiler && b == 124),
            );
            i = i + 1;
        }
        proof {
            assert forall|b: u8| #[trigger] special@[b as int] == is_special(b, *options) by {
                assert((b as int) as u8 == b);
            }
            assert forall|b: u8| #[trigger] skip@[b as int] == is_skip(b, *options) by {
                assert((b as int) as u8 == b);
            }
            assert forall|b: u8| #[trigger] smart@[b as int] == is_smart(b) by {
                assert((b as int) as u8 == b);
            }
            assert forall|b: u8| #[trigger] emph@[b as int] == is_emph_delim(b, *options) by {
                assert((b as int) as u8 == b);
            }
        }
        CharTables {
            special_char_bytes: special,
            skip_char_bytes: skip,
            smart_char_bytes: smart,
            emph_delim_bytes: emph,
        }
    }

    /// The position of the next byte from `pos` on that the inline parser
    /// must look at; see `next_special`.
    pub fn find_special_char(&self, input: &str, pos: usize, options: &Options, within_brackets: bool) -> (r: usize)
        requires
            self.special_char_bytes@.len() == 256,
            self.smart_char_bytes@.len() == 256,
            forall|b: u8| #[trigger] self.special_char_bytes@[b as int] == is_special(b, *options),
            forall|b: u8| #[trigger] self.smart_char_bytes@[b as int] == is_smart(b),
        ensures
            r == next_special(input.spec_bytes(), pos as int, *options, within_brackets),
    {
        let bytes = input.as_bytes();
        let len = bytes.len();
        let ghost bs = bytes@;
        if pos >= len {
            return len;
        }
        let mut n = pos;
        while n < len
            invariant
                bs == bytes@,
                bs == input.spec_bytes(),
                len == bs.len(),
                pos <= n <= len,
                next_special(bs, n as int, *options, within_brackets) == next_special(bs, pos as int, *options, within_brackets),
                self.special_char_bytes@.len() == 256,
                self.smart_char_bytes@.len() == 256,
                forall|b: u8| #[trigger] self.special_char_bytes@[b as int] == is_special(b, *options),
                forall|b: u8| #[trigger] self.smart_char_bytes@[b as int] == is_smart(b),
            decreases len - n,
        {
            let c = bytes[n];
            if self.special_char_bytes[c as usize] {
                if c == 94 && within_brackets {
                } else {
                    return n;
                }
            }
            if options.parse.smart && self.smart_char_bytes[c as usize] {
                return n;
            }
            n = n + 1;
        }
        len
    }
}

} // verus!
