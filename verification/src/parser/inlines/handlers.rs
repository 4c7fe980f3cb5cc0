//! Inline constructs made of a byte or two: line breaks, backslash
//! escapes, character references, and smart punctuation for hyphens and
//! periods.

use vstd::prelude::*;
use vstd::string::*;
use vstd::utf8::*;

use crate::ctype::{is_punct_byte, ispunct};
use crate::entity::{lemma_unescape_len, unescape, unescape_entity};
use crate::nodes::NodeValue;
use crate::parser::inlines::delims::run_of;
use crate::parser::inlines::code_span::lemma_run_bound;
use crate::parser::inlines::{line_end_end, line_end_readable, readable, spaces_end, Scanner};
use crate::strings::cow_into_owned;
use crate::text::{lemma_ascii_boundary, lemma_str_valid, push_char, substr, utf8};

verus! {

broadcast use vstd::utf8::group_utf8_lib;

/// How many em dashes and en dashes a run of `n` hyphens becomes: as many
/// em dashes as possible when `n` is a multiple of three, else en dashes
/// when it is even, else as many em dashes as fit beside one or two en
/// dashes.
pub open spec fn dash_counts(n: int) -> (int, int) {
    if n % 3 == 0 {
        (0, n / 3)
    } else if n % 2 == 0 {
        (n / 2, 0)
    } else if n % 3 == 2 {
        (1, (n - 2) / 3)
    } else {
        (2, (n - 4) / 3)
    }
}

/// `k` copies of the character `c`.
pub open spec fn repeat_char(c: char, k: nat) -> Seq<char> {
    Seq::new(k, |i: int| c)
}

/// The dashes a run of at least two hyphens is written as account for
/// every hyphen: an em dash stands for three, an en dash for two.
pub proof fn lemma_dashes_cover_hyphens(n: int)
    requires
        n >= 2,
    ensures
        dash_counts(n).0 >= 0,
        dash_counts(n).1 >= 0,
        2 * dash_counts(n).0 + 3 * dash_counts(n).1 == n,
{
}

/// Appends `k` copies of `c`.
fn push_repeat(s: &mut String, c: char, k: usize)
    ensures
        final(s)@ == old(s)@ + repeat_char(c, k as nat),
{
    let mut i: usize = 0;
    while i < k
        invariant
            i <= k,
            s@ == old(s)@ + repeat_char(c, i as nat),
        decreases k - i,
    {
        push_char(s, c);
        i = i + 1;
        proof {
            assert(s@ =~= old(s)@ + repeat_char(c, i as nat));
        }
    }
}

impl Scanner {
    /// A hyphen: with smart punctuation, a run of two or more becomes em
    /// and en dashes (see `dash_counts`); otherwise the hyphen itself.
    pub fn handle_hyphen(&mut self, input: &str, smart: bool) -> (r: NodeValue)
        requires
            old(self).pos < input.spec_bytes().len(),
            input.spec_bytes()[old(self).pos as int] == 45,
            readable(input.spec_bytes(), old(self).pos + 1),
            smart ==> readable(
                input.spec_bytes(),
                old(self).pos + run_of(input.spec_bytes(), old(self).pos as int, 45),
            ),
        ensures
            ({
                let b = input.spec_bytes();
                let start = old(self).pos as int;
                let n = run_of(b, start, 45) as int;
                &&& (!smart || n < 2) ==> (r matches NodeValue::Text(t) && t@ == seq!['-']
                    && final(self).pos == start + 1)
                &&& (smart && n >= 2) ==> (r matches NodeValue::Text(t) && t@ == repeat_char(
                    '\u{2014}',
                    dash_counts(n).1 as nat,
                ) + repeat_char('\u{2013}', dash_counts(n).0 as nat) && final(self).pos == start + n)
            }),
    {
        let ghost b = input.spec_bytes();
        let start = self.pos;
        let len = input.as_bytes().len();
        proof {
            lemma_run_bound(b, start as int, 45);
        }
        self.pos = self.pos + 1;
        if !smart || self.peek_byte(input) != Some(45) {
            let mut t = String::new();
            push_char(&mut t, '-');
            return NodeValue::Text(t);
        }
        while smart && self.peek_byte(input) == Some(45)
            invariant
                b == input.spec_bytes(),
                len == b.len(),
                smart,
                start < self.pos <= b.len(),
                self.pos + run_of(b, self.pos as int, 45) == start + run_of(b, start as int, 45),
                readable(b, start + run_of(b, start as int, 45)),
                start + run_of(b, start as int, 45) <= b.len(),
                forall|j: int| start <= j < start + run_of(b, start as int, 45) ==> b[j] == 45,
            decreases b.len() - self.pos,
        {
            self.pos = self.pos + 1;
        }
        let numhyphens = self.pos - start;
        let (ens, ems) = if numhyphens % 3 == 0 {
            (0, numhyphens / 3)
        } else if numhyphens % 2 == 0 {
            (numhyphens / 2, 0)
        } else if numhyphens % 3 == 2 {
            (1, (numhyphens - 2) / 3)
        } else {
            (2, (numhyphens - 4) / 3)
        };
        let mut buf = String::new();
        push_repeat(&mut buf, '\u{2014}', ems);
        push_repeat(&mut buf, '\u{2013}', ens);
        proof {
            assert(Seq::<char>::empty() + repeat_char('\u{2014}', ems as nat) =~= repeat_char('\u{2014}', ems as nat));
        }
        NodeValue::Text(buf)
    }

    /// A period: with smart punctuation, three become an ellipsis (two
    /// stay two periods); otherwise the period itself.
    pub fn handle_period(&mut self, input: &str, smart: bool) -> (r: NodeValue)
        requires
            old(self).pos < input.spec_bytes().len(),
            input.spec_bytes()[old(self).pos as int] == 46,
            smart ==> readable(input.spec_bytes(), old(self).pos + 1),
            smart && old(self).pos + 1 < input.spec_bytes().len() && input.spec_bytes()[old(self).pos
                + 1] == 46 ==> readable(input.spec_bytes(), old(self).pos + 2),
        ensures
            ({
                let b = input.spec_bytes();
                let p = old(self).pos as int;
                let two = smart && p + 1 < b.len() && b[p + 1] == 46;
                let three = two && p + 2 < b.len() && b[p + 2] == 46;
                &&& three ==> (r matches NodeValue::Text(t) && t@ == seq!['\u{2026}'] && final(self).pos == p + 3)
                &&& two && !three ==> (r matches NodeValue::Text(t) && t@ == seq!['.', '.'] && final(self).pos == p + 2)
                &&& !two ==> (r matches NodeValue::Text(t) && t@ == seq!['.'] && final(self).pos == p + 1)
            }),
    {
        let len = input.as_bytes().len();
        self.pos = self.pos + 1;
        let mut t = String::new();
        if smart && self.peek_byte(input) == Some(46) {
            self.pos = self.pos + 1;
            if self.peek_byte(input) == Some(46) {
                self.pos = self.pos + 1;
                push_char(&mut t, '\u{2026}');
            } else {
                push_char(&mut t, '.');
                push_char(&mut t, '.');
            }
        } else {
            push_char(&mut t, '.');
        }
        NodeValue::Text(t)
    }

    /// A line ending: a hard break after two spaces, else a soft break;
    /// the spaces at the start of the next line are skipped.
    pub fn handle_newline(&mut self, input: &str) -> (r: NodeValue)
        requires
            old(self).pos < input.spec_bytes().len(),
            input.spec_bytes()[old(self).pos as int] == 13 || input.spec_bytes()[old(self).pos as int] == 10,
            input.spec_bytes()[old(self).pos as int] == 13 ==> old(self).pos + 1 < input.spec_bytes().len(),
            readable(input.spec_bytes(), spaces_end(input.spec_bytes(), line_end_end(input.spec_bytes(), old(self).pos as int))),
        ensures
            ({
                let b = input.spec_bytes();
                let p = old(self).pos as int;
                &&& r == if p > 1 && b[p - 1] == 32 && b[p - 2] == 32 {
                    NodeValue::LineBreak
                } else {
                    NodeValue::SoftBreak
                }
                &&& final(self).pos == spaces_end(b, line_end_end(b, p))
            }),
    {
        let bytes = input.as_bytes();
        let nlpos = self.pos;
        if bytes[self.pos] == 13 {
            self.pos = self.pos + 1;
        }
        if bytes[self.pos] == 10 {
            self.pos = self.pos + 1;
        }
        let inl = if nlpos > 1 && bytes[nlpos - 1] == 32 && bytes[nlpos - 2] == 32 {
            NodeValue::LineBreak
        } else {
            NodeValue::SoftBreak
        };
        self.skip_spaces(input);
        inl
    }

    /// A backslash: before ASCII punctuation it escapes it (the character
    /// as text, inside an escaped span when those are rendered); before a
    /// line ending it is a hard break and the next line's leading spaces
    /// are skipped; otherwise it is a backslash.  Gives the node and the
    /// text node inside it, if any.
    pub fn handle_backslash(&mut self, input: &str, escaped_char_spans: bool) -> (r: (NodeValue, Option<NodeValue>))
        requires
            old(self).pos < input.spec_bytes().len(),
            input.spec_bytes()[old(self).pos as int] == 92,
            readable(input.spec_bytes(), old(self).pos + 1),
            line_end_readable(input.spec_bytes(), old(self).pos + 1),
            readable(input.spec_bytes(), spaces_end(input.spec_bytes(), line_end_end(input.spec_bytes(), old(self).pos + 1))),
        ensures
            ({
                let b = input.spec_bytes();
                let p = old(self).pos as int;
                let punct = p + 1 < b.len() && is_punct_byte(b[p + 1]);
                let brk = !punct && p + 1 < b.len() && line_end_end(b, p + 1) > p + 1;
                &&& punct ==> final(self).pos == p + 2 && (if escaped_char_spans {
                    r.0 == NodeValue::Escaped && (r.1 matches Some(NodeValue::Text(t)) && t@ == seq![b[p + 1] as char])
                } else {
                    (r.0 matches NodeValue::Text(t) && t@ == seq![b[p + 1] as char]) && r.1 is None
                })
                &&& brk ==> r == (NodeValue::LineBreak, None::<NodeValue>) && final(self).pos == spaces_end(b, line_end_end(b, p + 1))
                &&& !punct && !brk ==> (r.0 matches NodeValue::Text(t) && t@ == seq!['\\']) && r.1 is None
                    && final(self).pos == p + 1
            }),
    {
        let ghost b = input.spec_bytes();
        let len = input.as_bytes().len();
        self.pos = self.pos + 1;
        let next = self.peek_byte(input);
        if next.is_some() && ispunct(next.unwrap()) {
            let c = next.unwrap();
            self.pos = self.pos + 1;
            let mut t = String::new();
            push_char(&mut t, c as char);
            if escaped_char_spans {
                (NodeValue::Escaped, Some(NodeValue::Text(t)))
            } else {
                (NodeValue::Text(t), None)
            }
        } else if self.pos < len && self.skip_line_end(input) {
            self.skip_spaces(input);
            (NodeValue::LineBreak, None)
        } else {
            let mut t = String::new();
            push_char(&mut t, '\\');
            (NodeValue::Text(t), None)
        }
    }

    /// An ampersand: a character reference after it is decoded (see
    /// `unescape_entity`); otherwise it is an ampersand.
    pub fn handle_entity(&mut self, input: &str) -> (r: NodeValue)
        requires
            old(self).pos < input.spec_bytes().len(),
            input.spec_bytes()[old(self).pos as int] == 38,
        ensures
            ({
                let b = input.spec_bytes();
                let p = old(self).pos as int;
                match unescape_entity(b.subrange(p + 1, b.len() as int)) {
                    None => (r matches NodeValue::Text(t) && t@ == seq!['&']) && final(self).pos == p + 1,
                    Some((cs, n)) => (r matches NodeValue::Text(t) && t@ == cs) && final(self).pos == p + 1 + n,
                }
            }),
    {
        let ghost b = input.spec_bytes();
        let len = input.as_bytes().len();
        self.pos = self.pos + 1;
        proof {
            lemma_str_valid(input);
            lemma_ascii_boundary(b, self.pos as int);
            lemma_unescape_len(b.subrange(self.pos as int, b.len() as int));
        }
        let rest = substr(input, self.pos, len);
        match unescape(rest) {
            None => {
                let mut t = String::new();
                push_char(&mut t, '&');
                NodeValue::Text(t)
            },
            Some((entity, n)) => {
                self.pos = self.pos + n;
                NodeValue::Text(cow_into_owned(entity))
            },
        }
    }
}

} // verus!
