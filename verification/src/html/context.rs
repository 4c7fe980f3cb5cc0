//! The state of an HTML rendering: the output so far and what formatters
//! share.

use vstd::prelude::*;
use vstd::string::*;

use crate::html::anchorizer::{anchor_base, candidate, Anchorizer};
use crate::html::{escape, escape_bytes, escape_href, escape_href_spec};
use crate::parser::options::{Options, Plugins};
use crate::text::{lemma_encode_concat, push_str, utf8};

verus! {

/// Whether text ends a line: it is empty or its last byte is a line feed.
pub open spec fn at_line_start(b: Seq<u8>) -> bool {
    b.len() == 0 || b.last() == 10
}

/// What `Context::lf` writes under the given options.
pub open spec fn line_feed(o: Options) -> Seq<char> {
    if o.render.compact_html {
        seq![]
    } else {
        seq!['\n']
    }
}

/// The anchor a heading with text `h` gets when the anchors in `a` were
/// handed out before: the first candidate (see `candidate`) not among them.
pub open spec fn anchor_of(a: Seq<Seq<char>>, h: Seq<char>) -> Seq<char> {
    let b = anchor_base(h);
    let u = choose|u: nat|
        !a.contains(candidate(b, u)) && forall|v: nat| v < u ==> a.contains(#[trigger] candidate(b, v));
    candidate(b, u)
}

/// Context given to formatter functions.  Output is appended to it; it
/// keeps what was written.
pub struct Context<'o, 'c, T> {
    output: String,
    last_was_lf: bool,
    /// [`Options`] in use in this render.
    pub options: &'o Options<'c>,
    /// [`Plugins`] in use in this render.
    pub plugins: &'o Plugins<'o>,
    /// [`Anchorizer`] instance used in this render.
    pub anchorizer: Anchorizer,
    /// Any user data used by the [`Context`].
    pub user: T,
    footnote_ix: u32,
    written_footnote_ix: u32,
}

impl<'o, 'c, T> Context<'o, 'c, T> {
    /// The text written so far.
    pub closed spec fn written(&self) -> Seq<char> {
        self.output@
    }

    /// The options of the render.
    pub closed spec fn opts(&self) -> Options<'c> {
        *self.options
    }

    /// The plugins of the render.
    pub closed spec fn plugs(&self) -> Plugins<'o> {
        *self.plugins
    }

    /// The user data.
    pub closed spec fn user_data(&self) -> T {
        self.user
    }

    /// The anchors handed out so far.
    pub closed spec fn anchors(&self) -> Anchorizer {
        self.anchorizer
    }

    /// The number of footnotes referenced so far.
    pub closed spec fn footnotes(&self) -> u32 {
        self.footnote_ix
    }

    /// The number of footnotes whose back references were written.
    pub closed spec fn backrefs(&self) -> u32 {
        self.written_footnote_ix
    }

    /// The number of footnotes referenced so far.
    pub fn footnote_count(&self) -> (r: u32)
        ensures
            r == self.footnotes(),
    {
        self.footnote_ix
    }

    /// The number of footnotes whose back references were written.
    pub fn backref_count(&self) -> (r: u32)
        ensures
            r == self.backrefs(),
    {
        self.written_footnote_ix
    }

    /// Counts one more footnote.
    pub fn next_footnote(&mut self)
        requires
            old(self).footnotes() < u32::MAX,
        ensures
            final(self).footnotes() == old(self).footnotes() + 1,
            final(self).written() == old(self).written(),
            final(self).wf() == old(self).wf(),
            final(self).opts() == old(self).opts(),
            final(self).plugs() == old(self).plugs(),
            final(self).anchors() == old(self).anchors(),
            final(self).backrefs() == old(self).backrefs(),
    {
        self.footnote_ix = self.footnote_ix + 1;
    }

    /// Records that the back references of the footnotes so far are
    /// written.
    pub fn backrefs_written(&mut self)
        ensures
            final(self).backrefs() == old(self).footnotes(),
            final(self).footnotes() == old(self).footnotes(),
            final(self).written() == old(self).written(),
            final(self).wf() == old(self).wf(),
            final(self).opts() == old(self).opts(),
            final(self).plugs() == old(self).plugs(),
            final(self).anchors() == old(self).anchors(),
    {
        self.written_footnote_ix = self.footnote_ix;
    }

    /// The record of whether the output ends a line is accurate.
    pub closed spec fn wf(&self) -> bool {
        self.last_was_lf == at_line_start(utf8(self.output@))
    }

    /// The options of the render.
    pub fn get_options(&self) -> (r: &'o Options<'c>)
        ensures
            *r == self.opts(),
    {
        self.options
    }

    /// The plugins of the render.
    pub fn get_plugins(&self) -> (r: &'o Plugins<'o>)
        ensures
            *r == self.plugs(),
    {
        self.plugins
    }

    /// Hands out the anchor for a heading with text `header` (see
    /// `anchor_of`) and records it.
    pub fn anchorize(&mut self, header: &str) -> (r: String)
        requires
            old(self).anchors().wf(),
        ensures
            final(self).anchors().wf(),
            final(self).anchors()@ == old(self).anchors()@.push(r@),
            r@ == anchor_of(old(self).anchors()@, header@),
            final(self).written() == old(self).written(),
            final(self).wf() == old(self).wf(),
            final(self).opts() == old(self).opts(),
            final(self).plugs() == old(self).plugs(),
            final(self).footnotes() == old(self).footnotes(),
            final(self).backrefs() == old(self).backrefs(),
    {
        let r = self.anchorizer.anchorize(header);
        proof {
            let a = old(self).anchors()@;
            let b = anchor_base(header@);
            let u = choose|u: nat|
                r@ == candidate(b, u) && forall|v: nat| v < u ==> a.contains(#[trigger] candidate(b, v));
            let w = choose|w: nat|
                !a.contains(candidate(b, w)) && forall|v: nat| v < w ==> a.contains(#[trigger] candidate(b, v));
            assert(!a.contains(candidate(b, u)) && forall|v: nat| v < u ==> a.contains(#[trigger] candidate(b, v)));
            if w < u {
                assert(a.contains(candidate(b, w)));
            } else if u < w {
                assert(a.contains(candidate(b, u)));
            }
        }
        r
    }

    /// A context with nothing written yet.
    pub fn new(options: &'o Options<'c>, plugins: &'o Plugins<'o>, user: T) -> (r: Self)
        ensures
            r.wf(),
            r.written() == Seq::<char>::empty(),
            r.footnotes() == 0,
            r.backrefs() == 0,
            r.opts() == *options,
            r.plugs() == *plugins,
            r.user_data() == user,
            r.anchors()@ == Seq::<Seq<char>>::empty(),
            r.anchors().wf(),
    {
        Context {
            output: String::new(),
            last_was_lf: true,
            options,
            plugins,
            anchorizer: Anchorizer::new(),
            user,
            footnote_ix: 0,
            written_footnote_ix: 0,
        }
    }

    /// Appends `s` to the output.
    pub fn write_str(&mut self, s: &str)
        requires
            old(self).wf(),
        ensures
            final(self).wf(),
            final(self).written() == old(self).written() + s@,
            final(self).footnotes() == old(self).footnotes(),
            final(self).user_data() == old(self).user_data(),
            final(self).opts() == old(self).opts(),
            final(self).anchors() == old(self).anchors(),
            final(self).plugs() == old(self).plugs(),
            final(self).backrefs() == old(self).backrefs(),
    {
        let b = s.as_bytes();
        let l = b.len();
        if l > 0 {
            self.last_was_lf = b[l - 1] == 10;
        }
        let ghost before = self.output@;
        self.output.append(s);
        proof {
            lemma_encode_concat(before, s@);
            if l == 0 {
                assert(s@.len() == 0) by {
                    lemma_empty_bytes(s@);
                }
                assert(self.output@ =~= before);
            }
        }
    }

    /// If the last byte written was **not** a line feed, writes one;
    /// otherwise does nothing.  (In other words, ensures the output is at a
    /// new line.)  No-op when `compact_html` is on.
    pub fn cr(&mut self)
        requires
            old(self).wf(),
        ensures
            final(self).wf(),
            final(self).written() == if old(self).opts().render.compact_html || at_line_start(
                utf8(old(self).written()),
            ) {
                old(self).written()
            } else {
                old(self).written().push('\n')
            },
            final(self).footnotes() == old(self).footnotes(),
            final(self).user_data() == old(self).user_data(),
            final(self).opts() == old(self).opts(),
            final(self).anchors() == old(self).anchors(),
            final(self).plugs() == old(self).plugs(),
            final(self).backrefs() == old(self).backrefs(),
    {
        if self.options.render.compact_html {
            return ;
        }
        if !self.last_was_lf {
            let nl = "\n";
            proof {
                reveal_strlit("\n");
            }
            self.write_str(nl);
            proof {
                assert(self.output@ =~= old(self).output@.push('\n'));
            }
        }
    }

    /// Writes `\n` unless `compact_html` is on.
    pub fn lf(&mut self)
        requires
            old(self).wf(),
        ensures
            final(self).wf(),
            final(self).written() == if old(self).opts().render.compact_html {
                old(self).written()
            } else {
                old(self).written().push('\n')
            },
            final(self).footnotes() == old(self).footnotes(),
            final(self).user_data() == old(self).user_data(),
            final(self).opts() == old(self).opts(),
            final(self).anchors() == old(self).anchors(),
            final(self).plugs() == old(self).plugs(),
            final(self).backrefs() == old(self).backrefs(),
    {
        if !self.options.render.compact_html {
            let nl = "\n";
            proof {
                reveal_strlit("\n");
            }
            self.write_str(nl);
            proof {
                assert(self.output@ =~= old(self).output@.push('\n'));
            }
        }
    }

    /// Writes `buffer` escaped with [`escape`].
    pub fn escape(&mut self, buffer: &str)
        requires
            old(self).wf(),
        ensures
            final(self).wf(),
            utf8(final(self).written()) == utf8(old(self).written()) + escape_bytes(
                buffer.spec_bytes(),
            ),
            final(self).footnotes() == old(self).footnotes(),
            final(self).user_data() == old(self).user_data(),
            final(self).opts() == old(self).opts(),
            final(self).anchors() == old(self).anchors(),
            final(self).plugs() == old(self).plugs(),
            final(self).backrefs() == old(self).backrefs(),
    {
        let e = escape(buffer);
        self.write_str(e.as_str());
        proof {
            lemma_encode_concat(old(self).output@, e@);
        }
    }

    /// Writes `buffer` escaped with [`escape_href`], IPv6 hosts recognised
    /// after any scheme when autolinks are relaxed.
    pub fn escape_href(&mut self, buffer: &str)
        requires
            old(self).wf(),
        ensures
            final(self).wf(),
            utf8(final(self).written()) == utf8(old(self).written()) + escape_href_spec(
                buffer.spec_bytes(),
                old(self).opts().parse.relaxed_autolinks,
            ),
            final(self).footnotes() == old(self).footnotes(),
            final(self).user_data() == old(self).user_data(),
            final(self).opts() == old(self).opts(),
            final(self).anchors() == old(self).anchors(),
            final(self).plugs() == old(self).plugs(),
            final(self).backrefs() == old(self).backrefs(),
    {
        let relaxed = self.options.parse.relaxed_autolinks;
        let e = escape_href(buffer, relaxed);
        self.write_str(e.as_str());
        proof {
            lemma_encode_concat(old(self).output@, e@);
        }
    }

    /// Closes the footnote section if any footnote was referenced, and
    /// gives back the output and the user data.
    pub fn finish(self) -> (r: (String, T))
        requires
            self.wf(),
        ensures
            r.1 == self.user_data(),
            self.footnotes() == 0 ==> r.0@ == self.written(),
            self.footnotes() > 0 ==> r.0@ == self.written() + "</ol>"@ + line_feed(self.opts())
                + "</section>"@ + line_feed(self.opts()),
    {
        let mut s = self;
        if s.footnote_ix > 0 {
            s.write_str("</ol>");
            s.lf();
            s.write_str("</section>");
            s.lf();
            proof {
                let o = self.output@;
                assert(s.output@ =~= o + "</ol>"@ + line_feed(self.opts()) + "</section>"@
                    + line_feed(self.opts()));
            }
        }
        (s.output, s.user)
    }
}

proof fn lemma_empty_bytes(s: Seq<char>)
    requires
        utf8(s).len() == 0,
    ensures
        s.len() == 0,
{
    if s.len() > 0 {
        lemma_encode_concat(seq![s[0]], s.drop_first());
        assert(s =~= seq![s[0]] + s.drop_first());
        assert(utf8(seq![s[0]]).len() > 0) by {
            reveal_with_fuel(vstd::utf8::encode_utf8, 2);
            assert(seq![s[0]].drop_first() =~= Seq::<char>::empty());
        }
    }
}

} // verus!
