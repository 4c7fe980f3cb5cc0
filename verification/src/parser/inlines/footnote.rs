//! Inline footnotes, `^[text]`: where their text ends, and the names that
//! their definitions are given.

use vstd::prelude::*;
use vstd::string::*;
use vstd::utf8::*;

use crate::arena_tree::Id;
use crate::parser::inlines::Scanner;
use crate::text::{decimal, lemma_ascii_boundary, lemma_decimal_injective, lemma_str_valid, push_decimal, push_str, substr, utf8};

verus! {

broadcast use vstd::utf8::group_utf8_lib;

/// Scanning from `i` with `depth` brackets open: just past the `]` that
/// closes the last of them, if any.  `[` opens one more, `]` closes one,
/// and a backslash takes the byte after it with it.
pub open spec fn footnote_close(b: Seq<u8>, i: int, depth: int) -> Option<int>
    decreases b.len() - i,
{
    if depth == 0 {
        Some(i)
    } else if i < 0 || i >= b.len() {
        None
    } else if b[i] == 91 {
        footnote_close(b, i + 1, depth + 1)
    } else if b[i] == 93 {
        footnote_close(b, i + 1, depth - 1)
    } else if b[i] == 92 && i + 1 < b.len() {
        footnote_close(b, i + 2, depth)
    } else {
        footnote_close(b, i + 1, depth)
    }
}

proof fn lemma_footnote_close(b: Seq<u8>, i: int, depth: int)
    requires
        0 <= i,
        depth > 0,
    ensures
        footnote_close(b, i, depth) matches Some(e) ==> i < e <= b.len() && b[e - 1] == 93,
    decreases b.len() - i,
{
    if i < b.len() {
        if b[i] == 91 {
            lemma_footnote_close(b, i + 1, depth + 1);
        } else if b[i] == 93 {
            if depth - 1 > 0 {
                lemma_footnote_close(b, i + 1, depth - 1);
            }
        } else if b[i] == 92 && i + 1 < b.len() {
            lemma_footnote_close(b, i + 2, depth);
        } else {
            lemma_footnote_close(b, i + 1, depth);
        }
    }
}

/// The text of the inline footnote whose `^[` is at `p` of `b`: where it
/// starts and where the closing `]` is, when the brackets close and the
/// text is not empty.
pub open spec fn inline_footnote_spec(b: Seq<u8>, p: int) -> Option<(int, int)> {
    match footnote_close(b, p + 2, 1) {
        Some(e) => if e - 1 > p + 2 {
            Some((p + 2, e - 1))
        } else {
            None
        },
        None => None,
    }
}

impl Scanner {
    /// At the `^` of `^[`: the text of an inline footnote (see
    /// `inline_footnote_spec`) and where the footnote ends, just past its
    /// `]`; `None` when the brackets do not close or hold nothing, and the
    /// `^` is then text.
    pub fn inline_footnote(&self, input: &str) -> (r: Option<(String, usize)>)
        requires
            self.pos + 1 < input.spec_bytes().len(),
            input.spec_bytes()[self.pos as int] == 94,
            input.spec_bytes()[self.pos + 1] == 91,
        ensures
            ({
                let b = input.spec_bytes();
                match inline_footnote_spec(b, self.pos as int) {
                    Some((s, e)) => r matches Some((t, end)) && utf8(t@) == b.subrange(s, e) && end
                        == e + 1,
                    None => r is None,
                }
            }),
    {
        let ghost b = input.spec_bytes();
        let bytes = input.as_bytes();
        let len = bytes.len();
        let start = self.pos + 2;
        let mut depth: usize = 1;
        let mut endpos = start;
        while endpos < len && depth > 0
            invariant
                len == b.len(),
                bytes@ == b,
                2 <= start <= endpos <= len,
                0 <= depth <= endpos - start + 1,
                footnote_close(b, endpos as int, depth as int) == footnote_close(b, start as int, 1),
            decreases len - endpos,
        {
            let c = bytes[endpos];
            if c == 91 {
                depth = depth + 1;
            } else if c == 93 {
                depth = depth - 1;
            } else if c == 92 && endpos + 1 < len {
                endpos = endpos + 1;
            }
            endpos = endpos + 1;
        }
        if depth != 0 {
            return None;
        }
        proof {
            lemma_footnote_close(b, start as int, 1);
        }
        let close = endpos - 1;
        if close <= start {
            return None;
        }
        proof {
            lemma_str_valid(input);
            lemma_ascii_boundary(b, start as int);
            lemma_ascii_boundary(b, close as int);
        }
        let content = substr(input, start, close);
        let mut t = String::new();
        push_str(&mut t, content);
        proof {
            assert(utf8(Seq::<char>::empty()) =~= Seq::<u8>::empty());
            assert(Seq::<u8>::empty() + content.spec_bytes() =~= content.spec_bytes());
        }
        Some((t, endpos))
    }
}

/// The name of the `n`th inline footnote's definition.
pub open spec fn inline_name(n: nat) -> Seq<char> {
    "__inline_"@ + decimal(n)
}

/// The definitions of a document's inline footnotes, and how many names
/// have been handed out.
pub struct FootnoteDefs {
    defs: Vec<Id>,
    counter: usize,
}

impl FootnoteDefs {
    /// How many names have been handed out.
    pub closed spec fn issued(&self) -> nat {
        self.counter as nat
    }

    /// The definitions added so far, in order.
    pub closed spec fn added(&self) -> Seq<Id> {
        self.defs@
    }

    /// No names handed out and no definitions.
    pub fn new() -> (r: Self)
        ensures
            r.issued() == 0,
            r.added() == Seq::<Id>::empty(),
    {
        FootnoteDefs { defs: Vec::new(), counter: 0 }
    }

    /// A fresh name for an inline footnote's definition: `__inline_` and
    /// the count of names handed out, this one included.
    pub fn next_name(&mut self) -> (r: String)
        requires
            old(self).issued() < usize::MAX,
        ensures
            final(self).issued() == old(self).issued() + 1,
            final(self).added() == old(self).added(),
            r@ == inline_name(final(self).issued()),
    {
        self.counter = self.counter + 1;
        let mut s = String::new();
        proof {
            reveal_strlit("__inline_");
        }
        push_str(&mut s, "__inline_");
        push_decimal(&mut s, self.counter);
        proof {
            assert(Seq::<char>::empty() + "__inline_"@ =~= "__inline_"@);
        }
        s
    }

    /// Records a definition.
    pub fn add_definition(&mut self, def: Id)
        ensures
            final(self).added() == old(self).added().push(def),
            final(self).issued() == old(self).issued(),
    {
        self.defs.push(def);
    }

    /// The definitions added so far, in order.
    pub fn definitions(&self) -> (r: &Vec<Id>)
        ensures
            r@ == self.added(),
    {
        &self.defs
    }
}

/// Names of different inline footnotes differ: the names handed out
/// one after another never repeat.
pub proof fn lemma_inline_names_distinct(m: nat, n: nat)
    requires
        m != n,
    ensures
        inline_name(m) != inline_name(n),
{
    let p = "__inline_"@;
    if inline_name(m) == inline_name(n) {
        assert(inline_name(m).subrange(p.len() as int, inline_name(m).len() as int) =~= decimal(m));
        assert(inline_name(n).subrange(p.len() as int, inline_name(n).len() as int) =~= decimal(n));
        lemma_decimal_injective(m, n);
    }
}

} // verus!
