//! What a `<` starts inline: a URI or email autolink, a piece of raw HTML
//! (a tag, comment, processing instruction, declaration or CDATA
//! section), or else a literal `<`.

use vstd::prelude::*;
use vstd::slice::slice_subrange;
use vstd::string::*;
use vstd::utf8::*;

use crate::ctype::{is_alpha_byte, isalpha};
use crate::entity::{unescape_html, unescape_html_bytes};
use crate::nodes::{NodeLink, NodeValue};
use crate::parser::inlines::{readable, Scanner};
use crate::parser::AutolinkType;
use crate::scanners::{
    autolink_email, autolink_email_spec, autolink_uri, autolink_uri_spec, html_tag,
    html_tag_spec, lemma_match_ends_with_gt, starts_with_exec,
};
use crate::strings::{clean_autolink, clean_autolink_bytes, cow_into_owned, starts_with_bytes};
use crate::text::{lemma_ascii_boundary, lemma_encode_ascii_seq, lemma_str_valid, push_ascii, push_str, substr, utf8};

verus! {

broadcast use vstd::utf8::group_utf8_lib;

/// The raw-HTML scans of a subject that already ran to its end without
/// finding their terminator.  A scan that found none once finds none from
/// a later position either, so it is not run again.
#[derive(Clone, Copy, Debug)]
pub struct HtmlSkipFlags {
    /// No `]]>` closes a CDATA section.
    pub cdata: bool,
    /// No `>` closes a declaration.
    pub declaration: bool,
    /// No `?>` closes a processing instruction.
    pub pi: bool,
    /// No `-->` closes a comment.
    pub comment: bool,
}

impl HtmlSkipFlags {
    /// No scan has run yet.
    pub fn new() -> (r: Self)
        ensures
            !r.cdata && !r.declaration && !r.pi && !r.comment,
    {
        HtmlSkipFlags { cdata: false, declaration: false, pi: false, comment: false }
    }
}

/// The raw HTML that starts at `p` of `b`, just after a `<`: how many bytes
/// it takes, and the flags afterwards.  A comment, CDATA section,
/// declaration or processing instruction whose scan already failed is not
/// looked for again; one whose scan fails now sets its flag.  Once the
/// comment flag is set, a `<!` is matched as any other tag.
pub open spec fn raw_html_spec(b: Seq<u8>, p: int, f: HtmlSkipFlags) -> (Option<int>, HtmlSkipFlags) {
    let t = b.subrange(p, b.len() as int);
    if p + 2 <= b.len() {
        if b[p] == 33 && !f.comment {
            if b[p + 1] == 45 && p + 2 < b.len() && b[p + 2] == 45 {
                match html_tag_spec(t) {
                    Some(m) => (Some(m), f),
                    None => (None, HtmlSkipFlags { comment: true, ..f }),
                }
            } else if b[p + 1] == 91 {
                if !f.cdata && starts_with_bytes(t, utf8("![CDATA["@)) {
                    match html_tag_spec(t) {
                        Some(m) => (Some(m), f),
                        None => (None, HtmlSkipFlags { cdata: true, ..f }),
                    }
                } else {
                    (None, f)
                }
            } else if !f.declaration && is_alpha_byte(b[p + 1]) {
                match html_tag_spec(t) {
                    Some(m) => (Some(m), f),
                    None => (None, HtmlSkipFlags { declaration: true, ..f }),
                }
            } else {
                (None, f)
            }
        } else if b[p] == 63 {
            if !f.pi {
                match html_tag_spec(t) {
                    Some(m) => (Some(m), f),
                    None => (None, HtmlSkipFlags { pi: true, ..f }),
                }
            } else {
                (None, f)
            }
        } else {
            (html_tag_spec(t), f)
        }
    } else {
        (None, f)
    }
}

/// Whether the bytes that the scan of a comment opening peeks at, after a
/// `<` ending just before `p`, are not NUL.
pub open spec fn pointy_readable(b: Seq<u8>, p: int, f: HtmlSkipFlags) -> bool {
    (p + 2 <= b.len() && b[p] == 33 && !f.comment && b[p + 1] == 45) ==> (readable(b, p + 2) && (
    p + 2 < b.len() && b[p + 2] == 45 ==> readable(b, p + 3) && (p + 3 < b.len() && b[p + 3] == 45
        ==> readable(b, p + 4))))
}

/// `r` is an autolink to the text `u`: a link to `u` cleaned (see
/// `clean_autolink_bytes`), with no title, holding `u` with its character
/// references decoded as text.
pub open spec fn autolink_made(r: (NodeValue, Option<NodeValue>), u: Seq<u8>, kind: AutolinkType) -> bool {
    &&& r.0 matches NodeValue::Link(l) && utf8(l.url@) == clean_autolink_bytes(u, kind)
        && l.title@ == Seq::<char>::empty()
    &&& r.1 matches Some(NodeValue::Text(x)) && utf8(x@) == unescape_html_bytes(u)
}

/// An autolink to the bytes of `input` from `a` up to `e`.
fn make_autolink(input: &str, a: usize, e: usize, kind: AutolinkType) -> (r: (NodeValue, Option<NodeValue>))
    requires
        0 < a <= e < input.spec_bytes().len(),
        input.spec_bytes()[a - 1] == 60,
        input.spec_bytes()[e as int] == 62,
    ensures
        autolink_made(r, input.spec_bytes().subrange(a as int, e as int), kind),
{
    proof {
        lemma_str_valid(input);
        lemma_ascii_boundary(input.spec_bytes(), a as int);
        lemma_ascii_boundary(input.spec_bytes(), e as int);
    }
    let u = substr(input, a, e);
    let url = cow_into_owned(clean_autolink(u, kind));
    let text = cow_into_owned(unescape_html(u));
    let title = String::new();
    (NodeValue::Link(NodeLink { url, title }), Some(NodeValue::Text(text)))
}

impl Scanner {
    /// A `<`: a URI autolink, else an email autolink, else raw HTML (see
    /// `raw_html_spec`), else the character `<` itself.  Gives the node and
    /// the text node inside it, if any.
    pub fn handle_pointy_brace(&mut self, input: &str, flags: &mut HtmlSkipFlags) -> (r: (
        NodeValue,
        Option<NodeValue>,
    ))
        requires
            old(self).pos < input.spec_bytes().len(),
            input.spec_bytes()[old(self).pos as int] == 60,
            pointy_readable(input.spec_bytes(), old(self).pos + 1, *old(flags)),
        ensures
            ({
                let b = input.spec_bytes();
                let p = old(self).pos + 1;
                let t = b.subrange(p, b.len() as int);
                &&& autolink_uri_spec(t) matches Some(m) ==> autolink_made(
                    r,
                    b.subrange(p, p + m - 1),
                    AutolinkType::Uri,
                ) && final(self).pos == p + m && *final(flags) == *old(flags)
                &&& autolink_uri_spec(t) is None ==> (autolink_email_spec(t) matches Some(m)
                    ==> autolink_made(r, b.subrange(p, p + m - 1), AutolinkType::Email)
                    && final(self).pos == p + m && *final(flags) == *old(flags))
                &&& autolink_uri_spec(t) is None && autolink_email_spec(t) is None ==> match raw_html_spec(
                    b,
                    p,
                    *old(flags),
                ) {
                    (Some(m), f) => (r.0 matches NodeValue::HtmlInline(h) && utf8(h@) == b.subrange(
                        p - 1,
                        p + m,
                    )) && r.1 is None && final(self).pos == p + m && *final(flags) == f,
                    (None, f) => (r.0 matches NodeValue::Text(x) && x@ == seq!['<']) && r.1 is None
                        && final(self).pos == p && *final(flags) == f,
                }
            }),
            old(flags).comment ==> final(flags).comment,
            old(flags).cdata ==> final(flags).cdata,
            old(flags).declaration ==> final(flags).declaration,
            old(flags).pi ==> final(flags).pi,
    {
        let ghost b = input.spec_bytes();
        let bytes = input.as_bytes();
        let len = bytes.len();
        self.pos = self.pos + 1;
        let p = self.pos;
        let rest = slice_subrange(bytes, p, len);
        proof {
            lemma_match_ends_with_gt(rest@);
            assert(rest@ == b.subrange(p as int, len as int));
        }
        if let Some(m) = autolink_uri(rest) {
            proof {
                assert(b[p + m - 1] == rest@[m - 1]);
            }
            self.pos = p + m;
            return make_autolink(input, p, p + m - 1, AutolinkType::Uri);
        }
        if let Some(m) = autolink_email(rest) {
            proof {
                assert(b[p + m - 1] == rest@[m - 1]);
            }
            self.pos = p + m;
            return make_autolink(input, p, p + m - 1, AutolinkType::Email);
        }
        let mut matchlen: Option<usize> = None;
        if len - p >= 2 {
            let c = bytes[p];
            if c == 33 && !flags.comment {
                let c1 = bytes[p + 1];
                if c1 == 45 && len - p > 2 && bytes[p + 2] == 45 {
                    matchlen = html_tag(rest);
                    if matchlen.is_none() {
                        flags.comment = true;
                    }
                } else if c1 == 91 {
                    proof {
                        reveal_strlit("![CDATA[");
                        lemma_encode_ascii_seq("![CDATA["@);
                    }
                    if !flags.cdata && starts_with_exec(rest, "![CDATA[".as_bytes()) {
                        matchlen = html_tag(rest);
                        if matchlen.is_none() {
                            flags.cdata = true;
                        }
                    }
                } else if !flags.declaration && isalpha(c1) {
                    matchlen = html_tag(rest);
                    if matchlen.is_none() {
                        flags.declaration = true;
                    }
                }
            } else if c == 63 {
                if !flags.pi {
                    matchlen = html_tag(rest);
                    if matchlen.is_none() {
                        flags.pi = true;
                    }
                }
            } else {
                matchlen = html_tag(rest);
            }
        }
        match matchlen {
            Some(m) => {
                proof {
                    lemma_str_valid(input);
                    assert(b[p + m - 1] == rest@[m - 1]);
                    lemma_ascii_boundary(b, p - 1);
                    lemma_ascii_boundary(b, p + m);
                }
                let contents = substr(input, p - 1, p + m);
                let mut h = String::new();
                push_str(&mut h, contents);
                proof {
                    assert(utf8(Seq::<char>::empty()) =~= Seq::<u8>::empty());
                    assert(Seq::<u8>::empty() + contents.spec_bytes() =~= contents.spec_bytes());
                }
                self.pos = p + m;
                (NodeValue::HtmlInline(h), None)
            },
            None => {
                let mut x = String::new();
                push_ascii(&mut x, '<');
                (NodeValue::Text(x), None)
            },
        }
    }
}

} // verus!
