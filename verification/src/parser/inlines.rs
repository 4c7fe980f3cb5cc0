//! Pieces of the inline parser: the byte scanner over a subject, link
//! destinations, and the table of link reference definitions.

pub mod cjk;
pub mod code_span;
pub mod delims;
pub mod dollars;
pub mod emphasis;
pub mod footnote;
pub mod handlers;
pub mod link;
pub mod pointy;
pub mod special;
pub mod wikilink;

use std::collections::HashMap;
use vstd::prelude::*;
use vstd::string::*;
use vstd::utf8::*;

use crate::ctype::is_punct_byte;
use crate::parser::ResolvedReference;
use crate::strings::{trim_bytes, trim_slice};
use crate::text::{lemma_ascii_boundary, lemma_str_valid, substr, utf8};

verus! {

broadcast use vstd::utf8::group_utf8_lib;

/// The longest link label, in bytes, that the parser accepts.
pub const MAX_LINK_LABEL_LENGTH: usize = 1000;

/// The link reference definitions of a document, and the budget that
/// limits how much text references may expand to.
pub struct RefMap {
    /// The definitions, by normalised label.
    pub map: HashMap<String, ResolvedReference>,
    /// The most text, in bytes, that resolved references may add in all.
    pub max_ref_size: usize,
    /// The text that resolved references have added so far.
    ref_size: usize,
}

impl RefMap {
    /// Within budget: what references have added does not exceed the limit.
    pub closed spec fn wf(&self) -> bool {
        self.ref_size <= self.max_ref_size
    }

    /// The text that resolved references have added so far.
    pub closed spec fn spent(&self) -> nat {
        self.ref_size as nat
    }

    /// The definitions.
    pub closed spec fn defs(&self) -> Map<String, ResolvedReference> {
        self.map@
    }

    /// The limit on the text that resolved references may add.
    pub closed spec fn limit(&self) -> nat {
        self.max_ref_size as nat
    }

    /// An empty table with no limit.
    pub fn new() -> (r: Self)
        ensures
            r.defs() == Map::<String, ResolvedReference>::empty(),
            r.limit() == usize::MAX,
            r.spent() == 0,
            r.wf(),
    {
        RefMap { map: HashMap::new(), max_ref_size: usize::MAX, ref_size: 0 }
    }

    /// Charges the text of a definition that a lookup found to the budget:
    /// when it fits in what is left, it is added to what was spent and the
    /// entry is given back; otherwise nothing changes and the lookup fails.
    pub fn charge<'a>(&mut self, entry: Option<&'a ResolvedReference>) -> (r: Option<
        &'a ResolvedReference,
    >)
        requires
            old(self).wf(),
        ensures
            final(self).wf(),
            final(self).defs() == old(self).defs(),
            final(self).limit() == old(self).limit(),
            entry is None ==> r is None && final(self).spent() == old(self).spent(),
            entry matches Some(e) ==> {
                let size = utf8(e.url@).len() + utf8(e.title@).len();
                &&& size <= old(self).limit() - old(self).spent() ==> r == entry
                    && final(self).spent() == old(self).spent() + size
                &&& size > old(self).limit() - old(self).spent() ==> r is None
                    && final(self).spent() == old(self).spent()
            },
    {
        match entry {
            Some(e) => {
                let size = e.url.as_str().as_bytes().len().checked_add(e.title.as_str().as_bytes().len());
                match size {
                    Some(size) => {
                        if size > self.max_ref_size - self.ref_size {
                            None
                        } else {
                            self.ref_size = self.ref_size + size;
                            Some(e)
                        }
                    },
                    None => None,
                }
            },
            None => None,
        }
    }
}

/// A cursor over the bytes of a subject.
#[derive(Default)]
pub struct Scanner {
    /// The position of the next byte to read.
    pub pos: usize,
}

/// Whether reading at `i` of `b` is fine: it is past the end or the byte
/// there is not NUL (the parser replaces NUL before scanning).
pub open spec fn readable(b: Seq<u8>, i: int) -> bool {
    i >= b.len() || b[i] != 0
}

/// Where a run of spaces and tabs from `i` on ends.
pub open spec fn spaces_end(b: Seq<u8>, i: int) -> int
    decreases b.len() - i,
{
    if 0 <= i < b.len() && (b[i] == 32 || b[i] == 9) {
        spaces_end(b, i + 1)
    } else {
        i
    }
}

/// Where an optional `\r` and then an optional `\n` from `i` on end.
pub open spec fn line_end_end(b: Seq<u8>, i: int) -> int {
    let j = if 0 <= i < b.len() && b[i] == 13 {
        i + 1
    } else {
        i
    };
    if 0 <= j < b.len() && b[j] == 10 {
        j + 1
    } else {
        j
    }
}

/// Whether the reads of `Scanner::skip_line_end` from `i` on are fine.
pub open spec fn line_end_readable(b: Seq<u8>, i: int) -> bool {
    readable(b, i) && (0 <= i < b.len() && b[i] == 13 ==> readable(b, i + 1))
}

/// Where the closing `]` of a link label is, scanning from `i` with
/// `length` bytes of label read so far; a `[` or a label longer than the
/// limit fails.
pub open spec fn label_close(b: Seq<u8>, i: int, length: int) -> Option<int>
    decreases b.len() - i,
{
    if i < 0 || i >= b.len() {
        None
    } else if b[i] == 93 {
        Some(i)
    } else if b[i] == 91 {
        None
    } else {
        let esc = b[i] == 92 && i + 1 < b.len() && is_punct_byte(b[i + 1]);
        let step: int = if esc {
            2
        } else {
            1
        };
        if length + step > MAX_LINK_LABEL_LENGTH {
            None
        } else {
            label_close(b, i + step, length + step)
        }
    }
}

/// Whether the reads of a link label scan from `i` on are fine.
pub open spec fn label_readable(b: Seq<u8>, i: int, length: int) -> bool
    decreases b.len() - i,
{
    if i < 0 || i >= b.len() {
        true
    } else if b[i] == 0 {
        false
    } else if b[i] == 93 || b[i] == 91 {
        true
    } else if b[i] == 92 && !readable(b, i + 1) {
        false
    } else {
        let esc = b[i] == 92 && i + 1 < b.len() && is_punct_byte(b[i + 1]);
        let step: int = if esc {
            2
        } else {
            1
        };
        if length + step > MAX_LINK_LABEL_LENGTH {
            true
        } else {
            label_readable(b, i + step, length + step)
        }
    }
}

impl Scanner {
    /// A scanner at the start of its subject.
    pub fn new() -> (r: Self)
        ensures
            r.pos == 0,
    {
        Scanner { pos: 0 }
    }

    /// The next byte, if the scanner is not at the end.
    pub fn peek_byte(&self, input: &str) -> (r: Option<u8>)
        requires
            readable(input.spec_bytes(), self.pos as int),
        ensures
            self.pos < input.spec_bytes().len() ==> r == Some(input.spec_bytes()[self.pos as int]),
            self.pos >= input.spec_bytes().len() ==> r is None,
    {
        let b = input.as_bytes();
        if self.pos >= b.len() {
            None
        } else {
            Some(b[self.pos])
        }
    }

    /// Skips spaces and tabs; tells whether there were any.
    pub fn skip_spaces(&mut self, input: &str) -> (r: bool)
        requires
            readable(input.spec_bytes(), spaces_end(input.spec_bytes(), old(self).pos as int)),
        ensures
            final(self).pos == spaces_end(input.spec_bytes(), old(self).pos as int),
            r == (final(self).pos > old(self).pos),
    {
        let b = input.as_bytes();
        let start = self.pos;
        while self.pos < b.len() && (b[self.pos] == 32 || b[self.pos] == 9)
            invariant
                b@ == input.spec_bytes(),
                start <= self.pos,
                spaces_end(b@, self.pos as int) == spaces_end(b@, start as int),
            decreases b@.len() - self.pos,
        {
            self.pos = self.pos + 1;
        }
        self.pos > start
    }

    /// Skips one line ending (`\r\n`, `\r` or `\n`); tells whether there
    /// was one or the scanner is at the end.
    pub fn skip_line_end(&mut self, input: &str) -> (r: bool)
        requires
            line_end_readable(input.spec_bytes(), old(self).pos as int),
        ensures
            final(self).pos == line_end_end(input.spec_bytes(), old(self).pos as int),
            r == (final(self).pos > old(self).pos || final(self).pos >= input.spec_bytes().len()),
    {
        let b = input.as_bytes();
        let old_pos = self.pos;
        if self.pos < b.len() && b[self.pos] == 13 {
            self.pos = self.pos + 1;
        }
        if self.pos < b.len() && b[self.pos] == 10 {
            self.pos = self.pos + 1;
        }
        self.pos > old_pos || self.pos >= b.len()
    }

    /// Skips spaces and tabs, and, after a line ending, the spaces and tabs
    /// of the next line.
    pub fn spnl(&mut self, input: &str)
        requires
            readable(input.spec_bytes(), spaces_end(input.spec_bytes(), old(self).pos as int)),
            line_end_readable(
                input.spec_bytes(),
                spaces_end(input.spec_bytes(), old(self).pos as int),
            ),
            readable(
                input.spec_bytes(),
                spaces_end(
                    input.spec_bytes(),
                    line_end_end(
                        input.spec_bytes(),
                        spaces_end(input.spec_bytes(), old(self).pos as int),
                    ),
                ),
            ),
        ensures
            ({
                let b = input.spec_bytes();
                let p1 = spaces_end(b, old(self).pos as int);
                let p2 = line_end_end(b, p1);
                final(self).pos == if p2 > p1 || p2 >= b.len() {
                    spaces_end(b, p2)
                } else {
                    p1
                }
            }),
    {
        self.skip_spaces(input);
        if self.skip_line_end(input) {
            self.skip_spaces(input);
        }
    }

    /// Reads a link label, `[` up to the next `]`; gives its text, trimmed,
    /// and moves past it.  A label that holds an unescaped `[`, that is not
    /// closed, or that is longer than `MAX_LINK_LABEL_LENGTH` bytes, gives
    /// `None` and leaves the scanner where it was.
    pub fn link_label<'i>(&mut self, input: &'i str) -> (r: Option<&'i str>)
        requires
            readable(input.spec_bytes(), old(self).pos as int),
            label_readable(input.spec_bytes(), old(self).pos + 1, 0),
        ensures
            ({
                let b = input.spec_bytes();
                let p = old(self).pos as int;
                if p < b.len() && b[p] == 91 && label_close(b, p + 1, 0) is Some {
                    let e = label_close(b, p + 1, 0)->0;
                    &&& r is Some
                    &&& r->0.spec_bytes() == trim_bytes(b.subrange(p + 1, e))
                    &&& final(self).pos == e + 1
                } else {
                    &&& r is None
                    &&& final(self).pos == p
                }
            }),
    {
        let b = input.as_bytes();
        let len = b.len();
        let startpos = self.pos;
        if !(startpos < len && b[startpos] == 91) {
            return None;
        }
        let mut i = startpos + 1;
        let mut length: usize = 0;
        while i < len
            invariant
                b@ == input.spec_bytes(),
                len == b@.len(),
                startpos < i,
                self.pos == startpos,
                old(self).pos == startpos,
                startpos < len && b@[startpos as int] == 91,
                length <= MAX_LINK_LABEL_LENGTH,
                label_close(b@, i as int, length as int) == label_close(b@, startpos + 1, 0),
            decreases len - i,
        {
            let c = b[i];
            if c == 93 {
                proof {
                    lemma_str_valid(input);
                    lemma_ascii_boundary(b@, startpos + 1);
                    lemma_ascii_boundary(b@, i as int);
                }
                let raw = substr(input, startpos + 1, i);
                self.pos = i + 1;
                return Some(trim_slice(raw));
            }
            if c == 91 {
                return None;
            }
            let step: usize = if c == 92 && i + 1 < len && crate::ctype::ispunct(b[i + 1]) {
                2
            } else {
                1
            };
            if length + step > MAX_LINK_LABEL_LENGTH {
                return None;
            }
            length = length + step;
            i = i + step;
        }
        None
    }
}

/// Where a link destination in angle brackets that starts at `i` ends,
/// the `>` included: a backslash takes the next byte with it, and a line
/// feed or `<` ends the scan without a destination.
pub open spec fn angle_url_end(b: Seq<u8>, i: int) -> Option<int>
    decreases b.len() + 2 - i,
{
    if i < 0 || i >= b.len() {
        None
    } else if b[i] == 62 {
        Some(i + 1)
    } else if b[i] == 92 {
        angle_url_end(b, i + 2)
    } else if b[i] == 10 || b[i] == 60 {
        None
    } else {
        angle_url_end(b, i + 1)
    }
}

/// Where a bare link destination from `i` on ends, with `p` parentheses
/// open: at the `)` that closes none, or at whitespace or a control
/// character once all are closed; more than 32 nested parentheses, or
/// whitespace at the very start, give none.
pub open spec fn bare_url_end(b: Seq<u8>, i: int, p: int) -> Option<int>
    decreases b.len() - i,
{
    if i < 0 || i >= b.len() {
        None
    } else if b[i] == 92 && i + 1 < b.len() && is_punct_byte(b[i + 1]) {
        bare_url_end(b, i + 2, p)
    } else if b[i] == 40 {
        if p + 1 > 32 {
            None
        } else {
            bare_url_end(b, i + 1, p + 1)
        }
    } else if b[i] == 41 {
        if p == 0 {
            Some(i)
        } else {
            bare_url_end(b, i + 1, p - 1)
        }
    } else if b[i] == 32 || b[i] == 9 || b[i] == 10 || b[i] == 11 || b[i] == 12 || b[i] == 13
        || b[i] < 32 || b[i] == 127 {
        if i == 0 || p != 0 {
            None
        } else {
            Some(i)
        }
    } else {
        bare_url_end(b, i + 1, p)
    }
}

/// A link destination at the start of `b`: where its text starts and ends,
/// and how many bytes it takes.
pub open spec fn link_url_spec(b: Seq<u8>) -> Option<(int, int, int)> {
    if b.len() > 0 && b[0] == 60 {
        match angle_url_end(b, 1) {
            Some(i) => if i >= b.len() {
                None
            } else {
                Some((1, i - 1, i))
            },
            None => None,
        }
    } else {
        match bare_url_end(b, 0, 0) {
            Some(i) => Some((0, i, i)),
            None => None,
        }
    }
}

/// Scans a link destination at the start of `input`: in angle brackets, or
/// bare with balanced parentheses.  Gives the destination's text and the
/// number of bytes it took.
pub fn manual_scan_link_url(input: &str) -> (r: Option<(&str, usize)>)
    ensures
        link_url_spec(input.spec_bytes()) is None ==> r is None,
        link_url_spec(input.spec_bytes()) matches Some((a, e, n)) ==> (r matches Some((s, m))
            && s.spec_bytes() == input.spec_bytes().subrange(a, e) && m == n),
{
    let b = input.as_bytes();
    let len = b.len();
    if len > 0 && b[0] == 60 {
        let mut i: usize = 1;
        loop
            invariant_except_break
                angle_url_end(b@, i as int) == angle_url_end(b@, 1),
            invariant
                b@ == input.spec_bytes(),
                len == b@.len(),
                len > 0 && b@[0] == 60,
                1 <= i <= len,
            ensures
                2 <= i <= len,
                b@[i - 1] == 62,
                angle_url_end(b@, 1) == Some(i as int),
            decreases len + 2 - i,
        {
            if i >= len {
                return None;
            }
            let c = b[i];
            if c == 62 {
                i = i + 1;
                break;
            } else if c == 92 {
                if i + 1 >= len {
                    proof {
                        assert(angle_url_end(b@, i + 2) is None);
                    }
                    return None;
                }
                i = i + 2;
            } else if c == 10 || c == 60 {
                return None;
            } else {
                i = i + 1;
            }
        }
        if i >= len {
            None
        } else {
            proof {
                lemma_str_valid(input);
                lemma_ascii_boundary(b@, 1);
                lemma_ascii_boundary(b@, i - 1);
            }
            Some((substr(input, 1, i - 1), i))
        }
    } else {
        manual_scan_link_url_2(input)
    }
}

/// Scans a bare link destination at the start of `input`.
fn manual_scan_link_url_2(input: &str) -> (r: Option<(&str, usize)>)
    ensures
        bare_url_end(input.spec_bytes(), 0, 0) is None ==> r is None,
        bare_url_end(input.spec_bytes(), 0, 0) matches Some(i) ==> (r matches Some((s, m))
            && s.spec_bytes() == input.spec_bytes().subrange(0, i) && m == i),
{
    let b = input.as_bytes();
    let len = b.len();
    let mut i: usize = 0;
    let mut nb_p: usize = 0;
    while i < len
        invariant
            b@ == input.spec_bytes(),
            len == b@.len(),
            i <= len,
            nb_p <= 32,
            bare_url_end(b@, i as int, nb_p as int) == bare_url_end(b@, 0, 0),
        ensures
            i <= len,
            i < len ==> b@[i as int] < 0x80,
            bare_url_end(b@, 0, 0) == if i < len && nb_p == 0 {
                Some(i as int)
            } else {
                None::<int>
            },
        decreases len - i,
    {
        let c = b[i];
        if c == 92 && i + 1 < len && crate::ctype::ispunct(b[i + 1]) {
            i = i + 2;
        } else if c == 40 {
            nb_p = nb_p + 1;
            i = i + 1;
            if nb_p > 32 {
                return None;
            }
        } else if c == 41 {
            if nb_p == 0 {
                break;
            }
            nb_p = nb_p - 1;
            i = i + 1;
        } else if c == 32 || c == 9 || c == 10 || c == 11 || c == 12 || c == 13 || c < 32 || c
            == 127 {
            if i == 0 {
                return None;
            }
            break;
        } else {
            i = i + 1;
        }
    }
    if i >= len || nb_p != 0 {
        None
    } else {
        proof {
            lemma_str_valid(input);
            lemma_ascii_boundary(b@, 0);
            lemma_ascii_boundary(b@, i as int);
        }
        Some((substr(input, 0, i), i))
    }
}

} // verus!
