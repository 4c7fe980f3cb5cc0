//! The destination and title of an inline link, `(url "title")`, right
//! after the `]` that closes its text.

use vstd::prelude::*;
use vstd::slice::slice_subrange;
use vstd::string::*;
use vstd::utf8::*;

use crate::arena_tree::{follows, lemma_detach_unlinks, lemma_insert_before_places_prev, lemma_places, Arena, Id};
use crate::nodes::{Ast, LineColumn, NodeLink, NodeValue};
use crate::parser::inlines::{
    angle_url_end, bare_url_end, label_close, label_readable, link_url_spec, manual_scan_link_url, readable,
    Scanner,
};
use crate::scanners::{lemma_esc_run_end, lemma_run_len, link_title, link_title_spec, spacechars, spacechars_spec, ByteClass};
use crate::strings::{
    clean_title, clean_title_bytes, clean_url, clean_url_bytes, cow_into_owned, normalize_label,
    normalize_label_chars, trim_bytes, Case,
};
use crate::text::{lemma_ascii_boundary, lemma_str_valid, substr, utf8};

verus! {

broadcast use vstd::utf8::group_utf8_lib;

/// A match length, or 0 for no match.
pub open spec fn or_zero(m: Option<int>) -> int {
    match m {
        Some(k) => k,
        None => 0,
    }
}

/// An inline link's parenthesised part at `p` of `b`: `(`, optional
/// whitespace, a destination, optional whitespace and a title, optional
/// whitespace, `)`.  Gives where the destination's text starts and ends,
/// where the title starts and ends (quotes included), and where the link
/// ends, just past the `)`.
pub open spec fn inline_link_spec(b: Seq<u8>, p: int) -> Option<(int, int, int, int, int)> {
    let len = b.len() as int;
    if 0 <= p < len && b[p] == 40 {
        let offset = p + 1 + or_zero(spacechars_spec(b.subrange(p + 1, len)));
        if offset < len {
            match link_url_spec(b.subrange(offset, len)) {
                Some((a, e, n)) => {
                    let endurl = offset + n;
                    let starttitle = endurl + or_zero(spacechars_spec(b.subrange(endurl, len)));
                    let endtitle = if starttitle == endurl {
                        starttitle
                    } else {
                        starttitle + or_zero(link_title_spec(b.subrange(starttitle, len)))
                    };
                    let endall = endtitle + or_zero(spacechars_spec(b.subrange(endtitle, len)));
                    if endall < len && b[endall] == 41 {
                        Some((offset + a, offset + e, starttitle, endtitle, endall + 1))
                    } else {
                        None
                    }
                },
                None => None,
            }
        } else {
            None
        }
    } else {
        None
    }
}

proof fn lemma_angle_end(b: Seq<u8>, i: int)
    requires
        0 <= i,
    ensures
        angle_url_end(b, i) matches Some(k) ==> i < k <= b.len(),
    decreases b.len() + 2 - i,
{
    if i < b.len() && b[i] != 62 {
        if b[i] == 92 {
            lemma_angle_end(b, i + 2);
        } else if b[i] != 10 && b[i] != 60 {
            lemma_angle_end(b, i + 1);
        }
    }
}

proof fn lemma_bare_end(b: Seq<u8>, i: int, p: int)
    requires
        0 <= i,
    ensures
        bare_url_end(b, i, p) matches Some(k) ==> i <= k < b.len(),
    decreases b.len() - i,
{
    if 0 <= i < b.len() {
        if b[i] == 92 && i + 1 < b.len() && crate::ctype::is_punct_byte(b[i + 1]) {
            lemma_bare_end(b, i + 2, p);
        } else if b[i] == 40 {
            lemma_bare_end(b, i + 1, p + 1);
        } else if b[i] == 41 {
            lemma_bare_end(b, i + 1, p - 1);
        } else {
            lemma_bare_end(b, i + 1, p);
        }
    }
}

/// A link destination lies inside the text it was read from.
proof fn lemma_link_url_bounds(b: Seq<u8>)
    ensures
        link_url_spec(b) matches Some((a, e, n)) ==> 0 <= a <= e <= n <= b.len(),
{
    lemma_angle_end(b, 1);
    lemma_bare_end(b, 0, 0);
}

/// A run of whitespace at `i` stays within the text, and the byte before
/// its end, when it is not empty, is ASCII.
proof fn lemma_spaces(b: Seq<u8>, i: int)
    requires
        0 <= i <= b.len(),
    ensures
        0 <= or_zero(spacechars_spec(b.subrange(i, b.len() as int))) <= b.len() - i,
        or_zero(spacechars_spec(b.subrange(i, b.len() as int))) > 0 ==> b[i + or_zero(
            spacechars_spec(b.subrange(i, b.len() as int)),
        ) - 1] < 0x80,
{
    let t = b.subrange(i, b.len() as int);
    lemma_run_len(t, 0, ByteClass::Space);
    let n = run_len_of(t);
    if n > 0 {
        assert(crate::scanners::in_class(t[n - 1], ByteClass::Space));
        assert(b[i + n - 1] == t[n - 1]);
    }
}

spec fn run_len_of(t: Seq<u8>) -> int {
    crate::scanners::run_len(t, 0, ByteClass::Space)
}

/// A link title at `i` stays within the text, is at least two bytes long,
/// and ends with an ASCII byte.
proof fn lemma_title(b: Seq<u8>, i: int)
    requires
        0 <= i <= b.len(),
    ensures
        link_title_spec(b.subrange(i, b.len() as int)) matches Some(m) ==> 2 <= m <= b.len() - i
            && b[i + m - 1] < 0x80,
{
    let t = b.subrange(i, b.len() as int);
    if t.len() > 0 {
        lemma_esc_run_end(t, 1, ByteClass::Is(t[0]));
        lemma_esc_run_end(t, 1, ByteClass::Parens);
        if let Some(m) = link_title_spec(t) {
            assert(b[i + m - 1] == t[m - 1]);
        }
    }
}

fn or_zero_exec(m: Option<usize>) -> (r: usize)
    ensures
        r == or_zero(crate::scanners::opt_int(m)),
{
    match m {
        Some(k) => k,
        None => 0,
    }
}

impl Scanner {
    /// Right after the `]` of a link's text: an inline link's destination
    /// and title (see `inline_link_spec`), cleaned, with the scanner moved
    /// past the `)`; or `None`, with the scanner where it was.
    pub fn inline_link(&mut self, input: &str) -> (r: Option<(String, String)>)
        requires
            old(self).pos <= input.spec_bytes().len(),
            readable(input.spec_bytes(), old(self).pos as int),
        ensures
            ({
                let b = input.spec_bytes();
                match inline_link_spec(b, old(self).pos as int) {
                    Some((ua, ue, ts, te, end)) => r matches Some((url, title)) && utf8(url@)
                        == clean_url_bytes(b.subrange(ua, ue)) && utf8(title@) == clean_title_bytes(
                        b.subrange(ts, te),
                    ) && final(self).pos == end,
                    None => r is None && final(self).pos == old(self).pos,
                }
            }),
    {
        let ghost b = input.spec_bytes();
        let bytes = input.as_bytes();
        let len = bytes.len();
        let p = self.pos;
        if p >= len || bytes[p] != 40 {
            return None;
        }
        proof {
            lemma_spaces(b, p + 1);
        }
        let sps = or_zero_exec(spacechars(slice_subrange(bytes, p + 1, len)));
        let offset = p + 1 + sps;
        if offset >= len {
            return None;
        }
        proof {
            lemma_str_valid(input);
            lemma_ascii_boundary(b, offset as int);
            lemma_ascii_boundary(b, len as int);
        }
        let tail = substr(input, offset, len);
        proof {
            lemma_link_url_bounds(tail.spec_bytes());
        }
        assert(tail.spec_bytes() == b.subrange(offset as int, len as int));
        match manual_scan_link_url(tail) {
            None => None,
            Some((url, n)) => {
                proof {
                    let (a, e, nn) = link_url_spec(tail.spec_bytes())->Some_0;
                    assert(url.spec_bytes() =~= b.subrange(offset + a, offset + e));
                }
                let endurl = offset + n;
                proof {
                    lemma_spaces(b, endurl as int);
                }
                let starttitle = endurl + or_zero_exec(spacechars(slice_subrange(bytes, endurl, len)));
                proof {
                    lemma_title(b, starttitle as int);
                }
                let endtitle = if starttitle == endurl {
                    starttitle
                } else {
                    starttitle + or_zero_exec(link_title(slice_subrange(bytes, starttitle, len)))
                };
                proof {
                    lemma_spaces(b, endtitle as int);
                }
                let endall = endtitle + or_zero_exec(spacechars(slice_subrange(bytes, endtitle, len)));
                if endall < len && bytes[endall] == 41 {
                    let u = cow_into_owned(clean_url(url));
                    let t = if starttitle == endtitle {
                        proof {
                            reveal_strlit("");
                            assert(b.subrange(starttitle as int, endtitle as int) =~= Seq::<u8>::empty());
                        }
                        cow_into_owned(clean_title(""))
                    } else {
                        proof {
                            lemma_ascii_boundary(b, starttitle as int);
                            lemma_ascii_boundary(b, endtitle as int);
                        }
                        cow_into_owned(clean_title(substr(input, starttitle, endtitle)))
                    };
                    self.pos = endall + 1;
                    Some((u, t))
                } else {
                    None
                }
            },
        }
    }

    /// Right after the `]` that closes a link text starting at
    /// `text_start` (just past its `[`): the label to look a reference up
    /// by, normalised with case folding.  A `[label]` that follows gives a
    /// full reference and the scanner moves past it.  When none follows, or
    /// it is empty, and no `[` came right after the text's opening bracket,
    /// the link text itself is the label.  Otherwise there is no label.
    pub fn reference_label(&mut self, input: &str, text_start: usize, bracket_after: bool) -> (r:
        Option<String>)
        requires
            0 < old(self).pos <= input.spec_bytes().len(),
            text_start < old(self).pos,
            input.spec_bytes()[old(self).pos - 1] == 93,
            is_char_boundary(input.spec_bytes(), text_start as int),
            readable(input.spec_bytes(), old(self).pos as int),
            label_readable(input.spec_bytes(), old(self).pos + 1, 0),
        ensures
            ({
                let b = input.spec_bytes();
                let p = old(self).pos as int;
                let found = p < b.len() && b[p] == 91 && label_close(b, p + 1, 0) is Some;
                let e = label_close(b, p + 1, 0)->0;
                let lab = trim_bytes(b.subrange(p + 1, e));
                &&& final(self).pos == if found {
                    e + 1
                } else {
                    p
                }
                &&& if (!found || lab.len() == 0) && !bracket_after {
                    r matches Some(l) && l@ == normalize_label_chars(b.subrange(text_start as int, p - 1), Case::Fold)
                } else if found {
                    r matches Some(l) && l@ == normalize_label_chars(lab, Case::Fold)
                } else {
                    r is None
                }
            }),
    {
        let ghost b = input.spec_bytes();
        let initial_pos = self.pos;
        let found = self.link_label(input);
        let use_text = match found {
            Some(l) => l.as_bytes().len() == 0,
            None => true,
        };
        if use_text && !bracket_after {
            proof {
                lemma_str_valid(input);
                lemma_ascii_boundary(b, initial_pos - 1);
            }
            let text = substr(input, text_start, initial_pos - 1);
            Some(normalize_label(text, Case::Fold))
        } else {
            match found {
                Some(l) => Some(normalize_label(l, Case::Fold)),
                None => None,
            }
        }
    }
}


/// Closes a link or image whose text starts after the bracket node
/// `opener`: a new link (or image) node to `url` with `title` takes the
/// opener's place, the inlines after the opener become its children in
/// their order, and the opener leaves the tree.  Gives the new node.
pub fn close_bracket_match(
    arena: &mut Arena<Ast>,
    opener: Id,
    is_image: bool,
    url: String,
    title: String,
    start: LineColumn,
) -> (r: Id)
    requires
        old(arena).wf(),
        opener.0 < old(arena).nodes().len(),
        old(arena).nodes()[opener.0 as int].parent_link() is Some,
        old(arena).nodes().len() < usize::MAX,
    ensures
        final(arena).wf(),
        ({
            let o = old(arena).nodes();
            let n = final(arena).nodes();
            let x = opener.0 as int;
            &&& r.0 == o.len()
            &&& n.len() == o.len() + 1
            &&& n[r.0 as int].value().value == if is_image {
                NodeValue::Image(NodeLink { url, title })
            } else {
                NodeValue::Link(NodeLink { url, title })
            }
            &&& n[r.0 as int].parent_link() == o[x].parent_link()
            &&& n[x].parent_link() is None
            &&& forall|j: int| 0 <= j < o.len() ==> (#[trigger] n[j]).value() == o[j].value()
            &&& forall|j: int|
                0 <= j < o.len() && j != x ==> if follows(o, old(arena).places(), x, j) {
                    (#[trigger] n[j]).parent_link() == Some(r) && n[j].next_link() == o[j].next_link()
                } else {
                    n[j].parent_link() == o[j].parent_link()
                }
        }),
{
    let ghost o = arena.nodes();
    let ghost q0 = arena.places();
    proof {
        lemma_places(*arena, opener);
    }
    let nl = NodeLink { url, title };
    let value = if is_image {
        NodeValue::Image(nl)
    } else {
        NodeValue::Link(nl)
    };
    let inl = arena.new_node(Ast::new(value, start));
    let ghost n1 = arena.nodes();
    let ghost q1 = arena.places();
    proof {
        assert(n1[opener.0 as int] == o[opener.0 as int]);
        assert(q1[opener.0 as int] == q0[opener.0 as int]);
        assert forall|j: int| 0 <= j < o.len() implies follows(n1, q1, opener.0 as int, j) == follows(
            o,
            q0,
            opener.0 as int,
            j,
        ) by {
            assert(n1[j] == o[j]);
            assert(q1[j] == q0[j]);
        }
        assert(!follows(n1, q1, opener.0 as int, inl.0 as int));
    }
    opener.move_following_into(arena, inl);
    let ghost n2 = arena.nodes();
    proof {
        assert(!follows(n1, q1, opener.0 as int, opener.0 as int));
        assert(n2[opener.0 as int].parent_link() == n1[opener.0 as int].parent_link());
        assert(n2[inl.0 as int].parent_link() == n1[inl.0 as int].parent_link());
        lemma_places(*arena, opener);
        lemma_places(*arena, inl);
        lemma_insert_before_places_prev(*arena, opener, inl);
    }
    opener.insert_before(arena, inl);
    let ghost n3 = arena.nodes();
    proof {
        lemma_detach_unlinks(*arena, opener);
        assert forall|j: int|
            0 <= j < o.len() && j != opener.0 && follows(o, q0, opener.0 as int, j) implies n3[j].next_link()
            == n2[j].next_link() by {
            assert(n2[j].parent_link() == Some(inl));
        }
    }
    opener.detach(arena);
    inl
}

} // verus!
