//! What each node writes to an HTML rendering, on entering it and on
//! leaving it.  Specifications work on the bytes written so far.

use vstd::prelude::*;
use vstd::string::*;

use crate::arena_tree::{traverse_step, Arena, Id, Node, NodeEdge};
use crate::html::context::{anchor_of, at_line_start, line_feed, Context};
use crate::html::{attr_bytes, opening_tag_bytes, write_opening_tag, dangerous_url, escape_bytes, escape_href_spec, tagfilter, tagfilter_block, tagfilter_block_defined, tagfilter_bytes, tagfilter_defined, tagfilter_spec, ChildRendering};
use crate::nodes::{Ast, ListType, NodeValue, Sourcepos, TableAlignment};
use crate::parser::options::{Options, Plugins};
use crate::scanners::dangerous_url_spec;
use crate::ctype::{is_space_byte, isspace};
use crate::strings::{lead, lemma_lead, trim_bytes, trim_slice};
use crate::text::{push_str, decimal, lemma_ascii_boundary, lemma_encode_concat, lemma_encode_push_ascii, lemma_str_valid, push_decimal, substr, utf8};

verus! {

/// The bytes of a string literal's characters.
pub open spec fn u(s: &str) -> Seq<u8> {
    utf8(s@)
}

/// What `Context::cr` leaves: a line feed added unless the output is at
/// the start of a line or output is compact.
pub open spec fn cr_b(w: Seq<u8>, o: Options) -> Seq<u8> {
    if o.render.compact_html || at_line_start(w) {
        w
    } else {
        w.push(10)
    }
}

/// A source position as text: `line:column-line:column`.
pub open spec fn sourcepos_text(sp: Sourcepos) -> Seq<char> {
    decimal(sp.start.line as nat) + seq![':'] + decimal(sp.start.column as nat) + seq!['-']
        + decimal(sp.end.line as nat) + seq![':'] + decimal(sp.end.column as nat)
}

/// The `data-sourcepos` attribute written for a node, when source positions
/// are asked for and the node has one.
pub open spec fn sourcepos_b(o: Options, sp: Sourcepos) -> Seq<u8> {
    if o.render.sourcepos && sp.start.line > 0 {
        u(" data-sourcepos=\"") + utf8(sourcepos_text(sp)) + u("\"")
    } else {
        seq![]
    }
}

/// An inline element: on entering, `open`, the source position and `tail`;
/// on leaving, `close`.
pub open spec fn tag_b(w: Seq<u8>, entering: bool, o: Options, sp: Sourcepos, open: &str, tail: &str, close: &str) -> Seq<u8> {
    if entering {
        w + u(open) + sourcepos_b(o, sp) + u(tail)
    } else {
        w + u(close)
    }
}

/// Appends a string to the output.
fn put<T>(ctx: &mut Context<T>, s: &str)
    requires
        old(ctx).wf(),
    ensures
        final(ctx).wf(),
        utf8(final(ctx).written()) == utf8(old(ctx).written()) + u(s),
        final(ctx).opts() == old(ctx).opts(),
        final(ctx).footnotes() == old(ctx).footnotes(),
        final(ctx).anchors() == old(ctx).anchors(),
        final(ctx).plugs() == old(ctx).plugs(),
        final(ctx).backrefs() == old(ctx).backrefs(),
{
    ctx.write_str(s);
    proof {
        lemma_encode_concat(old(ctx).written(), s@);
    }
}

/// Starts a new line unless the output is at one.
fn put_cr<T>(ctx: &mut Context<T>)
    requires
        old(ctx).wf(),
    ensures
        final(ctx).wf(),
        utf8(final(ctx).written()) == cr_b(utf8(old(ctx).written()), old(ctx).opts()),
        final(ctx).opts() == old(ctx).opts(),
        final(ctx).footnotes() == old(ctx).footnotes(),
        final(ctx).anchors() == old(ctx).anchors(),
        final(ctx).plugs() == old(ctx).plugs(),
        final(ctx).backrefs() == old(ctx).backrefs(),
{
    ctx.cr();
    proof {
        lemma_encode_push_ascii(old(ctx).written(), '\n');
    }
}

/// Renders source position data for a node, when asked for.
pub fn render_sourcepos<T>(ctx: &mut Context<T>, sp: &Sourcepos)
    requires
        old(ctx).wf(),
    ensures
        final(ctx).wf(),
        utf8(final(ctx).written()) == utf8(old(ctx).written()) + sourcepos_b(old(ctx).opts(), *sp),
        final(ctx).opts() == old(ctx).opts(),
        final(ctx).footnotes() == old(ctx).footnotes(),
        final(ctx).anchors() == old(ctx).anchors(),
        final(ctx).plugs() == old(ctx).plugs(),
        final(ctx).backrefs() == old(ctx).backrefs(),
{
    if ctx.get_options().render.sourcepos && sp.start.line > 0 {
        let text = sp.to_display_string();
        proof {
            assert(text@ == sourcepos_text(*sp));
        }
        put(ctx, " data-sourcepos=\"");
        put(ctx, text.as_str());
        put(ctx, "\"");
    } else {
        proof {
            assert(utf8(old(ctx).written()) + Seq::<u8>::empty() =~= utf8(old(ctx).written()));
        }
    }
}

/// Writes an inline element's tags (see `tag_b`).
fn put_tag<T>(ctx: &mut Context<T>, entering: bool, sp: &Sourcepos, open: &str, tail: &str, close: &str)
    requires
        old(ctx).wf(),
    ensures
        final(ctx).wf(),
        utf8(final(ctx).written()) == tag_b(utf8(old(ctx).written()), entering, old(ctx).opts(), *sp, open, tail, close),
        final(ctx).opts() == old(ctx).opts(),
        final(ctx).footnotes() == old(ctx).footnotes(),
        final(ctx).anchors() == old(ctx).anchors(),
        final(ctx).plugs() == old(ctx).plugs(),
        final(ctx).backrefs() == old(ctx).backrefs(),
{
    if entering {
        put(ctx, open);
        render_sourcepos(ctx, sp);
        put(ctx, tail);
    } else {
        put(ctx, close);
    }
}


/// Whether the value of the node's parent satisfies `f`.
pub open spec fn parent_is(n: Seq<Node<Ast>>, id: int, f: spec_fn(NodeValue) -> bool) -> bool {
    match n[id].parent_link() {
        Some(p) => f(n[p.0 as int].value().value),
        None => false,
    }
}

/// A paragraph in a tight list item or description item, or in a
/// description term, is written without `<p>` tags.
pub open spec fn tight_para(n: Seq<Node<Ast>>, id: int) -> bool {
    match n[id].parent_link() {
        Some(p) => (match n[p.0 as int].parent_link() {
            Some(g) => match n[g.0 as int].value().value {
                NodeValue::List(nl) => nl.tight,
                NodeValue::DescriptionItem(nd) => nd.tight,
                _ => false,
            },
            None => false,
        }) || n[p.0 as int].value().value is DescriptionTerm,
        None => false,
    }
}

/// The destination of a link or image as written: escaped for an
/// attribute, or left out when it is dangerous and raw output is off.
pub open spec fn href_b(o: Options, url: Seq<u8>) -> Seq<u8> {
    if o.render.unsafe_ || dangerous_url_spec(url) is None {
        escape_href_spec(url, o.parse.relaxed_autolinks)
    } else {
        seq![]
    }
}

/// A link's tags, unless it sits in another link and autolinks are relaxed.
pub open spec fn link_b(w: Seq<u8>, entering: bool, o: Options, sp: Sourcepos, url: Seq<u8>, title: Seq<u8>, nested: bool) -> Seq<u8> {
    if o.parse.relaxed_autolinks && nested {
        w
    } else if entering {
        w + u("<a") + sourcepos_b(o, sp) + u(" href=\"") + href_b(o, url) + (if title.len() > 0 {
            u("\" title=\"") + escape_bytes(title)
        } else {
            seq![]
        }) + u("\">")
    } else {
        w + u("</a>")
    }
}

/// An image: on entering, the tag up to its `alt` text, which its children
/// then write as plain text; on leaving, the title and the tag's end.
pub open spec fn image_b(w: Seq<u8>, entering: bool, o: Options, sp: Sourcepos, url: Seq<u8>, title: Seq<u8>) -> Seq<u8> {
    let fig = o.render.figure_with_caption;
    if entering {
        w + (if fig { u("<figure>") } else { seq![] }) + u("<img") + sourcepos_b(o, sp) + u(" src=\"")
            + href_b(o, url) + u("\" alt=\"")
    } else {
        w + (if title.len() > 0 {
            u("\" title=\"") + escape_bytes(title)
        } else {
            seq![]
        }) + u("\" />") + (if fig {
            (if title.len() > 0 {
                u("<figcaption>") + escape_bytes(title) + u("</figcaption>")
            } else {
                seq![]
            }) + u("</figure>")
        } else {
            seq![]
        })
    }
}

/// Raw HTML inline: escaped, replaced by a comment unless raw output is
/// on, its `<` escaped when the tag filter catches it, or as it is.
pub open spec fn html_inline_b(o: Options, lit: Seq<u8>) -> Seq<u8> {
    if o.render.escape {
        escape_bytes(lit)
    } else if !o.render.unsafe_ {
        u("<!-- raw HTML omitted -->")
    } else if o.extension.tagfilter && tagfilter_spec(lit) {
        u("&lt;") + lit.subrange(1, lit.len() as int)
    } else {
        lit
    }
}

/// An HTML block: like raw HTML inline, the tag filter applied to the
/// whole block, between line starts.
pub open spec fn html_block_b(w: Seq<u8>, o: Options, lit: Seq<u8>) -> Seq<u8> {
    cr_b(cr_b(w, o) + if o.render.escape {
        escape_bytes(lit)
    } else if !o.render.unsafe_ {
        u("<!-- raw HTML omitted -->")
    } else if o.extension.tagfilter {
        tagfilter_bytes(lit, lit.len() as int)
    } else {
        lit
    }, o)
}

/// A list's opening tag, with its start number when that is not 1.
pub open spec fn list_b(w: Seq<u8>, entering: bool, o: Options, sp: Sourcepos, ordered: bool, task: bool, start: nat) -> Seq<u8> {
    if entering {
        cr_b(w, o) + (if ordered { u("<ol") } else { u("<ul") }) + (if task && o.render.tasklist_classes {
            u(" class=\"contains-task-list\"")
        } else {
            seq![]
        }) + sourcepos_b(o, sp) + (if ordered && start != 1 {
            u(" start=\"") + utf8(decimal(start)) + u("\">\n")
        } else {
            u(">\n")
        })
    } else if ordered {
        w + u("</ol>\n")
    } else {
        w + u("</ul>\n")
    }
}

/// A heading's tags, `<hN>` and `</hN>`.
pub open spec fn heading_b(w: Seq<u8>, entering: bool, o: Options, sp: Sourcepos, level: nat) -> Seq<u8> {
    if entering {
        cr_b(w, o) + u("<h") + utf8(decimal(level)) + sourcepos_b(o, sp) + u(">")
    } else {
        w + u("</h") + utf8(decimal(level)) + u(">\n")
    }
}

/// The end of a table: `</tbody>` when it has rows after its header, then
/// `</table>`, each on a line of its own.
pub open spec fn table_end_b(w: Seq<u8>, n: Seq<Node<Ast>>, id: int, o: Options) -> Seq<u8> {
    let w1 = if n[id].last_link() is Some && n[id].last_link() != n[id].first_link() {
        cr_b(w, o) + u("</tbody>\n")
    } else {
        w
    };
    cr_b(w1, o) + u("</table>\n")
}

/// A table row: the header row opens `<thead>`, and the first row after it
/// `<tbody>`.
pub open spec fn row_b(w: Seq<u8>, n: Seq<Node<Ast>>, id: int, entering: bool, o: Options, sp: Sourcepos, thead: bool) -> Seq<u8> {
    if entering {
        let after_head = match n[id].prev_link() {
            Some(pr) => n[pr.0 as int].value().value == NodeValue::TableRow(true),
            None => false,
        };
        cr_b(w, o) + (if thead {
            u("<thead>\n")
        } else if after_head {
            u("<tbody>\n")
        } else {
            seq![]
        }) + u("<tr") + sourcepos_b(o, sp) + u(">")
    } else {
        let w1 = cr_b(w, o) + u("</tr>");
        if thead {
            cr_b(w1, o) + u("</thead>")
        } else {
            w1
        }
    }
}

/// The `align` attribute of a cell.
pub open spec fn align_b(a: TableAlignment) -> Seq<u8> {
    match a {
        TableAlignment::Left => u(" align=\"left\""),
        TableAlignment::Right => u(" align=\"right\""),
        TableAlignment::Center => u(" align=\"center\""),
        TableAlignment::Unaligned => seq![],
    }
}

/// The row and table of a table cell, when it has them.
pub open spec fn cell_frame(n: Seq<Node<Ast>>, id: int) -> Option<(bool, Seq<TableAlignment>)> {
    match n[id].parent_link() {
        Some(r) => match n[r.0 as int].value().value {
            NodeValue::TableRow(head) => match n[r.0 as int].parent_link() {
                Some(t) => match n[t.0 as int].value().value {
                    NodeValue::Table(nt) => Some((head, nt.alignments@)),
                    _ => None,
                },
                None => None,
            },
            _ => None,
        },
        None => None,
    }
}

/// A table cell: `th` in the header row, else `td`, aligned as its column.
pub open spec fn cell_b(w: Seq<u8>, n: Seq<Node<Ast>>, q: Seq<nat>, id: int, entering: bool, o: Options, sp: Sourcepos) -> Seq<u8> {
    let (head, al) = cell_frame(n, id)->0;
    if entering {
        cr_b(w, o) + (if head { u("<th") } else { u("<td") }) + sourcepos_b(o, sp) + align_b(al[q[id] as int])
            + u(">")
    } else if head {
        w + u("</th>")
    } else {
        w + u("</td>")
    }
}

/// `b` when `c` holds, else nothing.
pub open spec fn when(c: bool, b: Seq<u8>) -> Seq<u8> {
    if c {
        b
    } else {
        seq![]
    }
}

/// A task item: a checkbox, inside a list item of its own when its parent
/// is a list.
pub open spec fn task_b(w: Seq<u8>, n: Seq<Node<Ast>>, id: int, entering: bool, o: Options, sp: Sourcepos, checked: bool) -> Seq<u8> {
    let li = match n[id].parent_link() {
        Some(p) => n[p.0 as int].value().value is List,
        None => false,
    };
    let classes = o.render.tasklist_classes;
    if entering {
        cr_b(w, o) + when(li, u("<li")) + when(li && classes, u(" class=\"task-list-item\"")) + when(li, sourcepos_b(o, sp))
            + when(li, u(">")) + u("<input type=\"checkbox\"") + when(!li, sourcepos_b(o, sp)) + when(
            classes,
            u(" class=\"task-list-item-checkbox\""),
        ) + when(checked, u(" checked=\"\"")) + u(" disabled=\"\" /> ")
    } else {
        w + when(li, u("</li>\n"))
    }
}

/// A wikilink's tags.
pub open spec fn wikilink_b(w: Seq<u8>, entering: bool, o: Options, sp: Sourcepos, url: Seq<u8>) -> Seq<u8> {
    if entering {
        w + u("<a") + sourcepos_b(o, sp) + u(" href=\"") + href_b(o, url) + u("\" data-wikilink=\"true")
            + u("\">")
    } else {
        w + u("</a>")
    }
}

/// The link a heading with an anchor starts with.
pub open spec fn anchor_link_b(id: Seq<char>, prefix: Seq<u8>) -> Seq<u8> {
    u("<a href=\"#") + utf8(id) + u("\" aria-hidden=\"true\" class=\"anchor\" id=\"") + prefix + utf8(id)
        + u("\"></a>")
}

/// The anchors handed out after a node is written: entering a heading,
/// when headings get anchors, adds its anchor.
pub open spec fn anchors_after(a: Seq<Seq<char>>, n: Seq<Node<Ast>>, id: int, entering: bool, o: Options) -> Seq<Seq<char>> {
    if entering && n[id].value().value is Heading && o.extension.header_ids is Some {
        a.push(anchor_of(a, collect_text_spec(n, Id(id as usize))))
    } else {
        a
    }
}

/// Inline math: a `span` for dollar math, else `code`, with its style and
/// source position, around the math escaped.
pub open spec fn math_b(w: Seq<u8>, o: Options, sp: Sourcepos, dollar: bool, display: bool, lit: Seq<u8>) -> Seq<u8> {
    let tag = if dollar { u("span") } else { u("code") };
    let attrs = seq![(u("data-math-style"), if display { u("display") } else { u("inline") })] + when_attr(
        o.render.sourcepos,
        (u("data-sourcepos"), utf8(sourcepos_text(sp))),
    );
    w + opening_tag_bytes(tag, attrs) + escape_bytes(lit) + u("</") + tag + u(">")
}

/// One attribute when `c` holds, else none.
pub open spec fn when_attr(c: bool, a: (Seq<u8>, Seq<u8>)) -> Seq<(Seq<u8>, Seq<u8>)> {
    if c {
        seq![a]
    } else {
        seq![]
    }
}

/// The id of a footnote reference: `fnref-` and the name, and the
/// reference's number after a dash when it is not the first.
pub open spec fn fnref_id(name: Seq<char>, ref_num: nat) -> Seq<char> {
    "fnref-"@ + name + if ref_num > 1 {
        seq!['-'] + decimal(ref_num)
    } else {
        seq![]
    }
}

/// A footnote reference: a superscript link to the note, numbered.
pub open spec fn footnote_ref_b(w: Seq<u8>, o: Options, sp: Sourcepos, name: Seq<char>, ref_num: nat, ix: nat) -> Seq<u8> {
    w + u("<sup") + sourcepos_b(o, sp) + u(" class=\"footnote-ref\"><a href=\"#fn-") + escape_href_spec(
        utf8(name),
        o.parse.relaxed_autolinks,
    ) + u("\" id=\"") + escape_href_spec(utf8(fnref_id(name, ref_num)), o.parse.relaxed_autolinks) + u(
        "\" data-footnote-ref>",
    ) + utf8(decimal(ix)) + u("</a></sup>")
}

/// The suffix of the `k`th back reference: `-k` after the first.
pub open spec fn ref_suffix(k: nat) -> Seq<char> {
    if k > 1 {
        seq!['-'] + decimal(k)
    } else {
        seq![]
    }
}

/// The text of the `k`th back reference after the target's name.
pub open spec fn backref_tail(fnix: nat, k: nat) -> Seq<char> {
    ref_suffix(k) + "\" class=\"footnote-backref\" data-footnote-backref data-footnote-backref-idx=\""@ + decimal(fnix)
        + ref_suffix(k) + "\" aria-label=\"Back to reference "@ + decimal(fnix) + ref_suffix(k) + "\">\u{21a9}"@
        + (if k > 1 {
        "<sup class=\"footnote-ref\">"@ + decimal(k) + "</sup>"@
    } else {
        seq![]
    }) + "</a>"@
}

/// The `k`th back reference of the footnote `name`, the `fnix`th footnote.
pub open spec fn backref_piece(o: Options, name: Seq<u8>, fnix: nat, k: nat) -> Seq<u8> {
    when(k > 1, u(" ")) + u("<a href=\"#fnref-") + escape_href_spec(name, o.parse.relaxed_autolinks) + utf8(
        backref_tail(fnix, k),
    )
}

/// The back references of a footnote with `total` references.
pub open spec fn backrefs_b(o: Options, name: Seq<u8>, fnix: nat, total: nat) -> Seq<u8>
    decreases total,
{
    if total == 0 {
        seq![]
    } else {
        backrefs_b(o, name, fnix, (total - 1) as nat) + backref_piece(o, name, fnix, total)
    }
}

/// The footnote definition a paragraph ends, when it is the last child of
/// one.
pub open spec fn closes_footnote(n: Seq<Node<Ast>>, id: int) -> Option<(Seq<u8>, nat)> {
    match n[id].parent_link() {
        Some(p) => match n[p.0 as int].value().value {
            NodeValue::FootnoteDefinition(fd) => if n[id].next_link() is None {
                Some((utf8(fd.name@), fd.total_references as nat))
            } else {
                None
            },
            _ => None,
        },
        None => None,
    }
}

/// The footnote counts after a node is written: `(footnotes entered, back
/// references written)`.
pub open spec fn footnotes_after(fs: (nat, nat), n: Seq<Node<Ast>>, id: int, entering: bool) -> (nat, nat) {
    let v = n[id].value().value;
    if v is FootnoteDefinition {
        if entering {
            (fs.0 + 1, fs.1)
        } else if fs.1 < fs.0 {
            (fs.0, fs.0)
        } else {
            fs
        }
    } else if v is Paragraph && !entering && !tight_para(n, id) && closes_footnote(n, id) is Some && fs.1 < fs.0 {
        (fs.0, fs.0)
    } else {
        fs
    }
}

/// A paragraph: `<p>` tags unless it is tight; the last paragraph of a
/// footnote ends with a space and the note's back references, when those
/// are not yet written.
pub open spec fn para_b(w: Seq<u8>, fs: (nat, nat), n: Seq<Node<Ast>>, id: int, entering: bool, o: Options, sp: Sourcepos) -> Seq<u8> {
    if tight_para(n, id) {
        w
    } else if entering {
        cr_b(w, o) + u("<p") + sourcepos_b(o, sp) + u(">")
    } else {
        match closes_footnote(n, id) {
            Some((name, total)) => w + u(" ") + when(fs.1 < fs.0, backrefs_b(o, name, fs.0, total)) + u("</p>\n"),
            None => w + u("</p>\n"),
        }
    }
}

/// A footnote definition: the first opens the footnote section; each is an
/// item of its list, ended by its back references when those are not yet
/// written.
pub open spec fn fndef_b(w: Seq<u8>, fs: (nat, nat), entering: bool, o: Options, sp: Sourcepos, name: Seq<u8>, total: nat) -> Seq<u8> {
    if entering {
        w + when(fs.0 == 0, u("<section")) + when(fs.0 == 0, sourcepos_b(o, sp)) + when(
            fs.0 == 0,
            u(" class=\"footnotes\" data-footnotes>\n<ol>\n"),
        ) + u("<li") + sourcepos_b(o, sp) + u(" id=\"fn-") + escape_href_spec(name, o.parse.relaxed_autolinks) + u("\">")
    } else {
        w + when(fs.1 < fs.0, backrefs_b(o, name, fs.0, total)) + when(fs.1 < fs.0, u("\n")) + u("</li>\n")
    }
}

/// What a node writes on entering or leaving it, and how its children are
/// written, given what was written before.
#[verifier::opaque]
pub open spec fn node_b(w: Seq<u8>, anc: Seq<Seq<char>>, fs: (nat, nat), n: Seq<Node<Ast>>, q: Seq<nat>, id: int, entering: bool, o: Options) -> (Seq<u8>, ChildRendering) {
    let a = n[id].value();
    let sp = a.sourcepos;
    match a.value {
        NodeValue::BlockQuote | NodeValue::MultilineBlockQuote(_) => (if entering {
            cr_b(w, o) + u("<blockquote") + sourcepos_b(o, sp) + u(">\n")
        } else {
            cr_b(w, o) + u("</blockquote>\n")
        }, ChildRendering::HTML),
        NodeValue::Table(_) => (if entering {
            cr_b(w, o) + u("<table") + sourcepos_b(o, sp) + u(">\n")
        } else {
            table_end_b(w, n, id, o)
        }, ChildRendering::HTML),
        NodeValue::TableRow(thead) => (row_b(w, n, id, entering, o, sp, thead), ChildRendering::HTML),
        NodeValue::TableCell => (cell_b(w, n, q, id, entering, o, sp), ChildRendering::HTML),
        NodeValue::TaskItem(sym) => (task_b(w, n, id, entering, o, sp, sym is Some), ChildRendering::HTML),
        NodeValue::WikiLink(wl) => (wikilink_b(w, entering, o, sp, utf8(wl.url@)), ChildRendering::HTML),
        NodeValue::Code(c) => (if entering {
            w + u("<code") + sourcepos_b(o, sp) + u(">") + escape_bytes(utf8(c.literal@)) + u("</code>")
        } else {
            w
        }, ChildRendering::HTML),
        NodeValue::Emph => (tag_b(w, entering, o, sp, "<em", ">", "</em>"), ChildRendering::HTML),
        NodeValue::Strong => (if o.render.gfm_quirks && parent_is(n, id, |v: NodeValue| v is Strong) {
            w
        } else {
            tag_b(w, entering, o, sp, "<strong", ">", "</strong>")
        }, ChildRendering::HTML),
        NodeValue::Strikethrough => (tag_b(w, entering, o, sp, "<del", ">", "</del>"), ChildRendering::HTML),
        NodeValue::Superscript => (tag_b(w, entering, o, sp, "<sup", ">", "</sup>"), ChildRendering::HTML),
        NodeValue::Subscript => (tag_b(w, entering, o, sp, "<sub", ">", "</sub>"), ChildRendering::HTML),
        NodeValue::Underline => (tag_b(w, entering, o, sp, "<u", ">", "</u>"), ChildRendering::HTML),
        NodeValue::SpoileredText => (tag_b(w, entering, o, sp, "<span", " class=\"spoiler\">", "</span>"), ChildRendering::HTML),
        NodeValue::Escaped => (if o.render.escaped_char_spans {
            tag_b(w, entering, o, sp, "<span data-escaped-char", ">", "</span>")
        } else {
            w
        }, ChildRendering::HTML),
        NodeValue::EscapedTag(t) => (w + utf8(t@), ChildRendering::HTML),
        NodeValue::DescriptionList => (if entering {
            cr_b(w, o) + u("<dl") + sourcepos_b(o, sp) + u(">\n")
        } else {
            w + u("</dl>\n")
        }, ChildRendering::HTML),
        NodeValue::DescriptionTerm => (tag_b(w, entering, o, sp, "<dt", ">", "</dt>\n"), ChildRendering::HTML),
        NodeValue::DescriptionDetails => (tag_b(w, entering, o, sp, "<dd", ">", "</dd>\n"), ChildRendering::HTML),
        NodeValue::Text(t) => (if entering {
            w + escape_bytes(utf8(t@))
        } else {
            w
        }, ChildRendering::HTML),
        NodeValue::SoftBreak => (if !entering {
            w
        } else if o.render.hardbreaks {
            w + u("<br") + sourcepos_b(o, sp) + u(" />\n")
        } else {
            w + u("\n")
        }, ChildRendering::HTML),
        NodeValue::LineBreak => (if entering {
            w + u("<br") + sourcepos_b(o, sp) + u(" />\n")
        } else {
            w
        }, ChildRendering::HTML),
        NodeValue::ThematicBreak => (if entering {
            cr_b(w, o) + u("<hr") + sourcepos_b(o, sp) + u(" />\n")
        } else {
            w
        }, ChildRendering::HTML),
        NodeValue::Item(_) => (if entering {
            cr_b(w, o) + u("<li") + sourcepos_b(o, sp) + u(">")
        } else {
            w + u("</li>\n")
        }, ChildRendering::HTML),
        NodeValue::List(nl) => (list_b(w, entering, o, sp, nl.list_type == ListType::Ordered, nl.is_task_list, nl.start as nat), ChildRendering::HTML),
        NodeValue::Paragraph => (para_b(w, fs, n, id, entering, o, sp), ChildRendering::HTML),
        NodeValue::FootnoteDefinition(fd) => (fndef_b(w, fs, entering, o, sp, utf8(fd.name@), fd.total_references as nat), ChildRendering::HTML),
        NodeValue::Heading(nh) => (heading_b(w, entering, o, sp, nh.level as nat) + match o.extension.header_ids {
            Some(prefix) => if entering {
                anchor_link_b(anchor_of(anc, collect_text_spec(n, Id(id as usize))), utf8(prefix@))
            } else {
                seq![]
            },
            None => seq![],
        }, ChildRendering::HTML),
        NodeValue::CodeBlock(cb) => (if entering {
            code_block_b(w, o, sp, utf8(cb.info@), utf8(cb.literal@))
        } else {
            w
        }, ChildRendering::HTML),
        NodeValue::HtmlInline(lit) => (if entering {
            w + html_inline_b(o, utf8(lit@))
        } else {
            w
        }, ChildRendering::HTML),
        NodeValue::HtmlBlock(hb) => (if entering {
            html_block_b(w, o, utf8(hb.literal@))
        } else {
            w
        }, ChildRendering::HTML),
        NodeValue::Link(nl) => (link_b(w, entering, o, sp, utf8(nl.url@), utf8(nl.title@), parent_is(n, id, |v: NodeValue| v is Link)), ChildRendering::HTML),
        NodeValue::ShortCode(sc) => (if entering {
            w + utf8(sc.emoji@)
        } else {
            w
        }, ChildRendering::HTML),
        NodeValue::Math(m) => (if entering {
            math_b(w, o, sp, m.dollar_math, m.display_math, utf8(m.literal@))
        } else {
            w
        }, ChildRendering::HTML),
        NodeValue::FootnoteReference(fr) => (if entering {
            footnote_ref_b(w, o, sp, fr.name@, fr.ref_num as nat, fr.ix as nat)
        } else {
            w
        }, ChildRendering::HTML),
        NodeValue::Image(nl) => (image_b(w, entering, o, sp, utf8(nl.url@), utf8(nl.title@)), if entering {
            ChildRendering::Plain
        } else {
            ChildRendering::HTML
        }),
        _ => (w, ChildRendering::HTML),
    }
}


/// Not a whitespace byte.
pub open spec fn not_space() -> spec_fn(u8) -> bool {
    |c: u8| !is_space_byte(c)
}

/// The attributes of a code block's `pre` and `code` tags.  With an info
/// string, its first word names the language (`lang` on `pre` for GitHub
/// style, else the class `language-…` on `code`), and the rest, trimmed,
/// is `data-meta` when full info strings are asked for; the source
/// position goes on `pre`.  A block whose info string is `math` is display
/// math.  The attributes come in this order; where a tag gets several, the
/// order among them is otherwise left open.
pub open spec fn code_attrs(o: Options, sp: Sourcepos, info: Seq<u8>) -> (Seq<(Seq<u8>, Seq<u8>)>, Seq<(Seq<u8>, Seq<u8>)>) {
    let gpl = o.render.github_pre_lang;
    let spa: Seq<(Seq<u8>, Seq<u8>)> = if o.render.sourcepos {
        seq![(u("data-sourcepos"), utf8(sourcepos_text(sp)))]
    } else {
        seq![]
    };
    if info == u("math") {
        if gpl {
            (seq![(u("lang"), u("math")), (u("data-math-style"), u("display"))] + spa, seq![])
        } else {
            (spa, seq![(u("class"), u("language-math")), (u("data-math-style"), u("display"))])
        }
    } else {
        let ft = lead(info, not_space()) as int;
        let lang = info.subrange(0, ft);
        let meta = trim_bytes(info.subrange(ft, info.len() as int));
        let metas: Seq<(Seq<u8>, Seq<u8>)> = if o.render.full_info_string && meta.len() > 0 {
            seq![(u("data-meta"), meta)]
        } else {
            seq![]
        };
        if info.len() == 0 {
            (spa, seq![])
        } else if gpl {
            (seq![(u("lang"), lang)] + metas + spa, seq![])
        } else {
            (spa, seq![(u("class"), u("language-") + lang)] + metas)
        }
    }
}

/// A code block: on a line of its own, `<pre><code>` with their
/// attributes (see `code_attrs`), the code escaped, and the closing tags.
pub open spec fn code_block_b(w: Seq<u8>, o: Options, sp: Sourcepos, info: Seq<u8>, lit: Seq<u8>) -> Seq<u8> {
    let (pre, code) = code_attrs(o, sp, info);
    cr_b(w, o) + opening_tag_bytes(u("pre"), pre) + opening_tag_bytes(u("code"), code) + escape_bytes(lit)
        + u("</code></pre>\n")
}

/// Whether `format_node_default` can write a node of this value: the
/// kinds it writes, headings without anchors, links and images without a
/// URL rewriter, and raw HTML that the tag filter can judge.
pub open spec fn renderable(v: NodeValue, o: Options) -> bool {
    match v {
        NodeValue::MultilineBlockQuote(_) | NodeValue::Table(_) | NodeValue::TableRow(_) | NodeValue::TableCell
        | NodeValue::TaskItem(_) | NodeValue::WikiLink(_) | NodeValue::ShortCode(_) | NodeValue::Math(_)
        | NodeValue::FootnoteReference(_) | NodeValue::FootnoteDefinition(_) => true,
        NodeValue::Document | NodeValue::FrontMatter(_) | NodeValue::DescriptionItem(_) | NodeValue::BlockQuote
        | NodeValue::Code(_) | NodeValue::Emph | NodeValue::Strong | NodeValue::Strikethrough
        | NodeValue::Superscript | NodeValue::Subscript | NodeValue::Underline | NodeValue::SpoileredText
        | NodeValue::Escaped | NodeValue::EscapedTag(_) | NodeValue::DescriptionList
        | NodeValue::DescriptionTerm | NodeValue::DescriptionDetails | NodeValue::Text(_)
        | NodeValue::SoftBreak | NodeValue::LineBreak | NodeValue::ThematicBreak | NodeValue::Item(_)
        | NodeValue::List(_) | NodeValue::Paragraph | NodeValue::CodeBlock(_) => true,
        NodeValue::Heading(_) => true,
        NodeValue::Link(_) => o.extension.link_url_rewriter is None,
        NodeValue::Image(_) => o.extension.image_url_rewriter is None,
        NodeValue::HtmlInline(lit) => tagfilter_defined(utf8(lit@)),
        NodeValue::HtmlBlock(hb) => tagfilter_block_defined(utf8(hb.literal@)),
        _ => false,
    }
}

fn put_escape<T>(ctx: &mut Context<T>, s: &str)
    requires
        old(ctx).wf(),
    ensures
        final(ctx).wf(),
        utf8(final(ctx).written()) == utf8(old(ctx).written()) + escape_bytes(s.spec_bytes()),
        final(ctx).opts() == old(ctx).opts(),
        final(ctx).footnotes() == old(ctx).footnotes(),
        final(ctx).anchors() == old(ctx).anchors(),
        final(ctx).plugs() == old(ctx).plugs(),
        final(ctx).backrefs() == old(ctx).backrefs(),
{
    ctx.escape(s);
}

fn put_href<T>(ctx: &mut Context<T>, url: &str)
    requires
        old(ctx).wf(),
    ensures
        final(ctx).wf(),
        utf8(final(ctx).written()) == utf8(old(ctx).written()) + href_b(old(ctx).opts(), url.spec_bytes()),
        final(ctx).opts() == old(ctx).opts(),
        final(ctx).footnotes() == old(ctx).footnotes(),
        final(ctx).anchors() == old(ctx).anchors(),
        final(ctx).plugs() == old(ctx).plugs(),
        final(ctx).backrefs() == old(ctx).backrefs(),
{
    if ctx.get_options().render.unsafe_ || !dangerous_url(url) {
        ctx.escape_href(url);
    } else {
        proof {
            assert(utf8(old(ctx).written()) + Seq::<u8>::empty() =~= utf8(old(ctx).written()));
        }
    }
}

fn put_title<T>(ctx: &mut Context<T>, title: &str)
    requires
        old(ctx).wf(),
    ensures
        final(ctx).wf(),
        utf8(final(ctx).written()) == utf8(old(ctx).written()) + if title.spec_bytes().len() > 0 {
            u("\" title=\"") + escape_bytes(title.spec_bytes())
        } else {
            seq![]
        },
        final(ctx).opts() == old(ctx).opts(),
        final(ctx).footnotes() == old(ctx).footnotes(),
        final(ctx).anchors() == old(ctx).anchors(),
        final(ctx).plugs() == old(ctx).plugs(),
        final(ctx).backrefs() == old(ctx).backrefs(),
{
    if title.as_bytes().len() > 0 {
        put(ctx, "\" title=\"");
        put_escape(ctx, title);
    } else {
        proof {
            assert(utf8(old(ctx).written()) + Seq::<u8>::empty() =~= utf8(old(ctx).written()));
        }
    }
}

fn put_decimal<T>(ctx: &mut Context<T>, k: usize)
    requires
        old(ctx).wf(),
    ensures
        final(ctx).wf(),
        utf8(final(ctx).written()) == utf8(old(ctx).written()) + utf8(decimal(k as nat)),
        final(ctx).opts() == old(ctx).opts(),
        final(ctx).footnotes() == old(ctx).footnotes(),
        final(ctx).anchors() == old(ctx).anchors(),
        final(ctx).plugs() == old(ctx).plugs(),
        final(ctx).backrefs() == old(ctx).backrefs(),
{
    let mut d = String::new();
    push_decimal(&mut d, k);
    proof {
        assert(Seq::<char>::empty() + decimal(k as nat) =~= decimal(k as nat));
    }
    put(ctx, d.as_str());
}

/// Writes a link's tags (see `link_b`).
pub fn render_link<T>(ctx: &mut Context<T>, entering: bool, sp: &Sourcepos, url: &str, title: &str, nested: bool)
    requires
        old(ctx).wf(),
    ensures
        final(ctx).wf(),
        utf8(final(ctx).written()) == link_b(utf8(old(ctx).written()), entering, old(ctx).opts(), *sp, url.spec_bytes(), title.spec_bytes(), nested),
        final(ctx).opts() == old(ctx).opts(),
        final(ctx).footnotes() == old(ctx).footnotes(),
        final(ctx).anchors() == old(ctx).anchors(),
        final(ctx).plugs() == old(ctx).plugs(),
        final(ctx).backrefs() == old(ctx).backrefs(),
{
    if ctx.get_options().parse.relaxed_autolinks && nested {
        return;
    }
    if entering {
        put(ctx, "<a");
        render_sourcepos(ctx, sp);
        put(ctx, " href=\"");
        put_href(ctx, url);
        put_title(ctx, title);
        put(ctx, "\">");
    } else {
        put(ctx, "</a>");
    }
}

/// Writes an image's tags (see `image_b`).
pub fn render_image<T>(ctx: &mut Context<T>, entering: bool, sp: &Sourcepos, url: &str, title: &str) -> (r: ChildRendering)
    requires
        old(ctx).wf(),
    ensures
        final(ctx).wf(),
        utf8(final(ctx).written()) == image_b(utf8(old(ctx).written()), entering, old(ctx).opts(), *sp, url.spec_bytes(), title.spec_bytes()),
        r == if entering { ChildRendering::Plain } else { ChildRendering::HTML },
        final(ctx).opts() == old(ctx).opts(),
        final(ctx).footnotes() == old(ctx).footnotes(),
        final(ctx).anchors() == old(ctx).anchors(),
        final(ctx).plugs() == old(ctx).plugs(),
        final(ctx).backrefs() == old(ctx).backrefs(),
{
    let fig = ctx.get_options().render.figure_with_caption;
    let ghost w = utf8(old(ctx).written());
    if entering {
        if fig {
            put(ctx, "<figure>");
        }
        proof {
            assert(utf8(ctx.written()) == w + (if fig { u("<figure>") } else { seq![] })) by {
                if !fig {
                    assert(w + Seq::<u8>::empty() =~= w);
                }
            }
        }
        put(ctx, "<img");
        render_sourcepos(ctx, sp);
        put(ctx, " src=\"");
        put_href(ctx, url);
        put(ctx, "\" alt=\"");
        ChildRendering::Plain
    } else {
        put_title(ctx, title);
        put(ctx, "\" />");
        if fig {
            let has_title = title.as_bytes().len() > 0;
            if has_title {
                put(ctx, "<figcaption>");
                put_escape(ctx, title);
                put(ctx, "</figcaption>");
            }
            let ghost mid = utf8(ctx.written());
            put(ctx, "</figure>");
        } else {
            proof {
                assert(utf8(ctx.written()) + Seq::<u8>::empty() =~= utf8(ctx.written()));
            }
        }
        ChildRendering::HTML
    }
}


/// Writes a list's tags (see `list_b`).
pub fn render_list<T>(ctx: &mut Context<T>, entering: bool, sp: &Sourcepos, ordered: bool, task: bool, start: usize)
    requires
        old(ctx).wf(),
    ensures
        final(ctx).wf(),
        utf8(final(ctx).written()) == list_b(utf8(old(ctx).written()), entering, old(ctx).opts(), *sp, ordered, task, start as nat),
        final(ctx).opts() == old(ctx).opts(),
        final(ctx).footnotes() == old(ctx).footnotes(),
        final(ctx).anchors() == old(ctx).anchors(),
        final(ctx).plugs() == old(ctx).plugs(),
        final(ctx).backrefs() == old(ctx).backrefs(),
{
    if entering {
        put_cr(ctx);
        if ordered {
            put(ctx, "<ol");
        } else {
            put(ctx, "<ul");
        }
        let ghost w1 = utf8(ctx.written());
        if task && ctx.get_options().render.tasklist_classes {
            put(ctx, " class=\"contains-task-list\"");
        } else {
            proof {
                assert(w1 + Seq::<u8>::empty() =~= w1);
            }
        }
        render_sourcepos(ctx, sp);
        if ordered && start != 1 {
            put(ctx, " start=\"");
            put_decimal(ctx, start);
            put(ctx, "\">\n");
        } else {
            put(ctx, ">\n");
        }
    } else if ordered {
        put(ctx, "</ol>\n");
    } else {
        put(ctx, "</ul>\n");
    }
}

/// Writes a heading's tags (see `heading_b`).
pub fn render_heading<T>(ctx: &mut Context<T>, entering: bool, sp: &Sourcepos, level: u8)
    requires
        old(ctx).wf(),
    ensures
        final(ctx).wf(),
        utf8(final(ctx).written()) == heading_b(utf8(old(ctx).written()), entering, old(ctx).opts(), *sp, level as nat),
        final(ctx).opts() == old(ctx).opts(),
        final(ctx).footnotes() == old(ctx).footnotes(),
        final(ctx).anchors() == old(ctx).anchors(),
        final(ctx).plugs() == old(ctx).plugs(),
        final(ctx).backrefs() == old(ctx).backrefs(),
{
    if entering {
        put_cr(ctx);
        put(ctx, "<h");
        put_decimal(ctx, level as usize);
        render_sourcepos(ctx, sp);
        put(ctx, ">");
    } else {
        put(ctx, "</h");
        put_decimal(ctx, level as usize);
        put(ctx, ">\n");
    }
}

/// Writes raw HTML inline (see `html_inline_b`).
pub fn render_html_inline<T>(ctx: &mut Context<T>, lit: &str)
    requires
        old(ctx).wf(),
        tagfilter_defined(lit.spec_bytes()),
    ensures
        final(ctx).wf(),
        utf8(final(ctx).written()) == utf8(old(ctx).written()) + html_inline_b(old(ctx).opts(), lit.spec_bytes()),
        final(ctx).opts() == old(ctx).opts(),
        final(ctx).footnotes() == old(ctx).footnotes(),
        final(ctx).anchors() == old(ctx).anchors(),
        final(ctx).plugs() == old(ctx).plugs(),
        final(ctx).backrefs() == old(ctx).backrefs(),
{
    let o = ctx.get_options();
    if o.render.escape {
        put_escape(ctx, lit);
    } else if !o.render.unsafe_ {
        put(ctx, "<!-- raw HTML omitted -->");
    } else if o.extension.tagfilter && tagfilter(lit.as_bytes()) {
        proof {
            lemma_str_valid(lit);
            lemma_ascii_boundary(lit.spec_bytes(), 1);
            lemma_ascii_boundary(lit.spec_bytes(), lit.spec_bytes().len() as int);
        }
        let rest = substr(lit, 1, lit.as_bytes().len());
        put(ctx, "&lt;");
        put(ctx, rest);
        proof {
            assert(rest@ == rest@);
        }
    } else {
        put(ctx, lit);
    }
}

/// Writes an HTML block (see `html_block_b`).
pub fn render_html_block<T>(ctx: &mut Context<T>, lit: &str)
    requires
        old(ctx).wf(),
        tagfilter_block_defined(lit.spec_bytes()),
    ensures
        final(ctx).wf(),
        utf8(final(ctx).written()) == html_block_b(utf8(old(ctx).written()), old(ctx).opts(), lit.spec_bytes()),
        final(ctx).opts() == old(ctx).opts(),
        final(ctx).footnotes() == old(ctx).footnotes(),
        final(ctx).anchors() == old(ctx).anchors(),
        final(ctx).plugs() == old(ctx).plugs(),
        final(ctx).backrefs() == old(ctx).backrefs(),
{
    put_cr(ctx);
    let o = ctx.get_options();
    if o.render.escape {
        put_escape(ctx, lit);
    } else if !o.render.unsafe_ {
        put(ctx, "<!-- raw HTML omitted -->");
    } else if o.extension.tagfilter {
        let f = tagfilter_block(lit);
        put(ctx, f.as_str());
    } else {
        put(ctx, lit);
    }
    put_cr(ctx);
}


/// Writes a code block (see `code_block_b`).
pub fn render_code_block<T>(ctx: &mut Context<T>, sp: &Sourcepos, info: &str, lit: &str)
    requires
        old(ctx).wf(),
    ensures
        final(ctx).wf(),
        utf8(final(ctx).written()) == code_block_b(utf8(old(ctx).written()), old(ctx).opts(), *sp, info.spec_bytes(), lit.spec_bytes()),
        final(ctx).opts() == old(ctx).opts(),
        final(ctx).footnotes() == old(ctx).footnotes(),
        final(ctx).anchors() == old(ctx).anchors(),
        final(ctx).plugs() == old(ctx).plugs(),
        final(ctx).backrefs() == old(ctx).backrefs(),
{
    let ghost o = ctx.opts();
    let gpl = ctx.get_options().render.github_pre_lang;
    let full = ctx.get_options().render.full_info_string;
    let with_sp = ctx.get_options().render.sourcepos;
    put_cr(ctx);
    let spt = sp.to_display_string();
    let mut pre: Vec<(&str, &str)> = Vec::new();
    let mut code: Vec<(&str, &str)> = Vec::new();
    let ib = info.as_bytes();
    let len = ib.len();
    proof {
        reveal_strlit("math");
        reveal_strlit("lang");
        reveal_strlit("display");
    }
    let is_math = len == 4 && ib[0] == 109 && ib[1] == 97 && ib[2] == 116 && ib[3] == 104;
    proof {
        crate::text::lemma_encode_ascii_seq("math"@);
        assert(is_math == (info.spec_bytes() == u("math"))) by {
            if info.spec_bytes() == u("math") {
                assert(u("math")[0] == 109u8);
            }
            if is_math {
                assert(info.spec_bytes() =~= u("math"));
            }
        }
    }
    let mut class = String::new();
    let mut first: usize = 0;
    if is_math {
        if gpl {
            pre.push(("lang", "math"));
            pre.push(("data-math-style", "display"));
        } else {
            code.push(("class", "language-math"));
            code.push(("data-math-style", "display"));
        }
    } else {
        while first < len && !isspace(ib[first])
            invariant
                ib@ == info.spec_bytes(),
                len == ib@.len(),
                first <= len,
                forall|i: int| 0 <= i < first ==> (not_space())(#[trigger] ib@[i]),
            decreases len - first,
        {
            first = first + 1;
        }
        proof {
            lemma_lead(ib@, not_space(), first as int);
            lemma_str_valid(info);
            lemma_ascii_boundary(ib@, first as int);
            lemma_ascii_boundary(ib@, len as int);
        }
        let lang = substr(info, 0, first);
        let meta = trim_slice(substr(info, first, len));
        let has_meta = full && meta.as_bytes().len() > 0;
        if len > 0 {
            if gpl {
                pre.push(("lang", lang));
                if has_meta {
                    pre.push(("data-meta", meta));
                }
            } else {
                push_str(&mut class, "language-");
                push_str(&mut class, lang);
                proof {
                    crate::text::lemma_encode_concat(Seq::<char>::empty(), "language-"@);
                    assert(Seq::<char>::empty() + "language-"@ =~= "language-"@);
                }
                code.push(("class", class.as_str()));
                if has_meta {
                    code.push(("data-meta", meta));
                }
            }
        }
    }
    if with_sp {
        pre.push(("data-sourcepos", spt.as_str()));
    }
    proof {
        let (ep, ec) = code_attrs(o, *sp, info.spec_bytes());
        assert(attr_bytes(pre@) =~= ep);
        assert(attr_bytes(code@) =~= ec);
    }
    let pt = write_opening_tag("pre", pre.as_slice());
    let ct = write_opening_tag("code", code.as_slice());
    put(ctx, pt.as_str());
    put(ctx, ct.as_str());
    put_escape(ctx, lit);
    put(ctx, "</code></pre>\n");
}

/// The number of siblings before a node: its place.
fn sibling_index(arena: &Arena<Ast>, id: Id) -> (r: usize)
    requires
        arena.wf(),
        id.0 < arena.nodes().len(),
        arena.places()[id.0 as int] < usize::MAX,
    ensures
        r == arena.places()[id.0 as int],
{
    let ghost q = arena.places();
    let mut c = id;
    let mut k: usize = 0;
    loop
        invariant
            arena.wf(),
            c.0 < arena.nodes().len(),
            q == arena.places(),
            k + q[c.0 as int] == q[id.0 as int],
            q[id.0 as int] < usize::MAX,
        decreases q[c.0 as int],
    {
        proof {
            crate::arena_tree::lemma_places(*arena, c);
        }
        match c.previous_sibling(arena) {
            None => {
                return k;
            },
            Some(pv) => {
                c = pv;
                k = k + 1;
            },
        }
    }
}

/// Writes a table's tags.
fn render_table<T>(ctx: &mut Context<T>, arena: &Arena<Ast>, id: Id, entering: bool, sp: &Sourcepos)
    requires
        old(ctx).wf(),
        arena.wf(),
        id.0 < arena.nodes().len(),
    ensures
        final(ctx).wf(),
        utf8(final(ctx).written()) == if entering {
            cr_b(utf8(old(ctx).written()), old(ctx).opts()) + u("<table") + sourcepos_b(old(ctx).opts(), *sp) + u(">\n")
        } else {
            table_end_b(utf8(old(ctx).written()), arena.nodes(), id.0 as int, old(ctx).opts())
        },
        final(ctx).opts() == old(ctx).opts(),
        final(ctx).footnotes() == old(ctx).footnotes(),
        final(ctx).anchors() == old(ctx).anchors(),
        final(ctx).plugs() == old(ctx).plugs(),
        final(ctx).backrefs() == old(ctx).backrefs(),
{
    put_cr(ctx);
    if entering {
        put(ctx, "<table");
        render_sourcepos(ctx, sp);
        put(ctx, ">\n");
    } else {
        let first = id.first_child(arena);
        let last = id.last_child(arena);
        let body = match (first, last) {
            (Some(f), Some(l)) => f != l,
            (None, Some(_)) => true,
            _ => false,
        };
        if body {
            put(ctx, "</tbody>\n");
            put_cr(ctx);
        }
        put(ctx, "</table>\n");
    }
}

/// Writes a table row's tags (see `row_b`).
fn render_table_row<T>(ctx: &mut Context<T>, arena: &Arena<Ast>, id: Id, entering: bool, sp: &Sourcepos, thead: bool)
    requires
        old(ctx).wf(),
        arena.wf(),
        id.0 < arena.nodes().len(),
    ensures
        final(ctx).wf(),
        utf8(final(ctx).written()) == row_b(utf8(old(ctx).written()), arena.nodes(), id.0 as int, entering, old(ctx).opts(), *sp, thead),
        final(ctx).opts() == old(ctx).opts(),
        final(ctx).footnotes() == old(ctx).footnotes(),
        final(ctx).anchors() == old(ctx).anchors(),
        final(ctx).plugs() == old(ctx).plugs(),
        final(ctx).backrefs() == old(ctx).backrefs(),
{
    put_cr(ctx);
    if entering {
        proof {
            crate::arena_tree::lemma_places(*arena, id);
        }
        let after_head = match id.previous_sibling(arena) {
            Some(pr) => match &pr.data(arena).value {
                NodeValue::TableRow(h) => *h,
                _ => false,
            },
            None => false,
        };
        let ghost w1 = utf8(ctx.written());
        if thead {
            put(ctx, "<thead>\n");
        } else if after_head {
            put(ctx, "<tbody>\n");
        } else {
            proof {
                assert(w1 + Seq::<u8>::empty() =~= w1);
            }
        }
        put(ctx, "<tr");
        render_sourcepos(ctx, sp);
        put(ctx, ">");
    } else {
        put(ctx, "</tr>");
        if thead {
            put_cr(ctx);
            put(ctx, "</thead>");
        }
    }
}

/// Writes a table cell's tags (see `cell_b`).
fn render_table_cell<T>(ctx: &mut Context<T>, arena: &Arena<Ast>, id: Id, entering: bool, sp: &Sourcepos)
    requires
        old(ctx).wf(),
        arena.wf(),
        id.0 < arena.nodes().len(),
        cell_frame(arena.nodes(), id.0 as int) matches Some((_, al)) && arena.places()[id.0 as int] < al.len(),
    ensures
        final(ctx).wf(),
        utf8(final(ctx).written()) == cell_b(utf8(old(ctx).written()), arena.nodes(), arena.places(), id.0 as int, entering, old(ctx).opts(), *sp),
        final(ctx).opts() == old(ctx).opts(),
        final(ctx).footnotes() == old(ctx).footnotes(),
        final(ctx).anchors() == old(ctx).anchors(),
        final(ctx).plugs() == old(ctx).plugs(),
        final(ctx).backrefs() == old(ctx).backrefs(),
{
    proof {
        crate::arena_tree::lemma_places(*arena, id);
    }
    let row = id.parent(arena).unwrap();
    proof {
        crate::arena_tree::lemma_places(*arena, row);
    }
    let head = match &row.data(arena).value {
        NodeValue::TableRow(h) => *h,
        _ => false,
    };
    let table = row.parent(arena).unwrap();
    if entering {
        put_cr(ctx);
        if head {
            put(ctx, "<th");
        } else {
            put(ctx, "<td");
        }
        render_sourcepos(ctx, sp);
        match &table.data(arena).value {
            NodeValue::Table(nt) => {
                let nal = nt.alignments.len();
                let i = sibling_index(arena, id);
                match nt.alignments[i] {
                    TableAlignment::Left => put(ctx, " align=\"left\""),
                    TableAlignment::Right => put(ctx, " align=\"right\""),
                    TableAlignment::Center => put(ctx, " align=\"center\""),
                    TableAlignment::Unaligned => {
                        proof {
                            assert(utf8(ctx.written()) + Seq::<u8>::empty() =~= utf8(ctx.written()));
                        }
                    },
                }
            },
            _ => {},
        }
        put(ctx, ">");
    } else if head {
        put(ctx, "</th>");
    } else {
        put(ctx, "</td>");
    }
}

/// Appends `s` when `c` holds.
fn put_when<T>(ctx: &mut Context<T>, c: bool, s: &str)
    requires
        old(ctx).wf(),
    ensures
        final(ctx).wf(),
        utf8(final(ctx).written()) == utf8(old(ctx).written()) + when(c, u(s)),
        final(ctx).opts() == old(ctx).opts(),
        final(ctx).footnotes() == old(ctx).footnotes(),
        final(ctx).anchors() == old(ctx).anchors(),
        final(ctx).plugs() == old(ctx).plugs(),
        final(ctx).backrefs() == old(ctx).backrefs(),
{
    if c {
        put(ctx, s);
    } else {
        proof {
            assert(utf8(old(ctx).written()) + Seq::<u8>::empty() =~= utf8(old(ctx).written()));
        }
    }
}

/// Appends the source position when `c` holds.
fn sourcepos_when<T>(ctx: &mut Context<T>, c: bool, sp: &Sourcepos)
    requires
        old(ctx).wf(),
    ensures
        final(ctx).wf(),
        utf8(final(ctx).written()) == utf8(old(ctx).written()) + when(c, sourcepos_b(old(ctx).opts(), *sp)),
        final(ctx).opts() == old(ctx).opts(),
        final(ctx).footnotes() == old(ctx).footnotes(),
        final(ctx).anchors() == old(ctx).anchors(),
        final(ctx).plugs() == old(ctx).plugs(),
        final(ctx).backrefs() == old(ctx).backrefs(),
{
    if c {
        render_sourcepos(ctx, sp);
    } else {
        proof {
            assert(utf8(old(ctx).written()) + Seq::<u8>::empty() =~= utf8(old(ctx).written()));
        }
    }
}

/// Writes a task item (see `task_b`).
fn render_task_item<T>(ctx: &mut Context<T>, arena: &Arena<Ast>, id: Id, entering: bool, sp: &Sourcepos, checked: bool)
    requires
        old(ctx).wf(),
        arena.wf(),
        id.0 < arena.nodes().len(),
    ensures
        final(ctx).wf(),
        utf8(final(ctx).written()) == task_b(utf8(old(ctx).written()), arena.nodes(), id.0 as int, entering, old(ctx).opts(), *sp, checked),
        final(ctx).opts() == old(ctx).opts(),
        final(ctx).footnotes() == old(ctx).footnotes(),
        final(ctx).anchors() == old(ctx).anchors(),
        final(ctx).plugs() == old(ctx).plugs(),
        final(ctx).backrefs() == old(ctx).backrefs(),
{
    proof {
        crate::arena_tree::lemma_places(*arena, id);
    }
    let li = match id.parent(arena) {
        Some(p) => match &p.data(arena).value {
            NodeValue::List(_) => true,
            _ => false,
        },
        None => false,
    };
    let classes = ctx.get_options().render.tasklist_classes;
    if entering {
        put_cr(ctx);
        put_when(ctx, li, "<li");
        put_when(ctx, li && classes, " class=\"task-list-item\"");
        sourcepos_when(ctx, li, sp);
        put_when(ctx, li, ">");
        put(ctx, "<input type=\"checkbox\"");
        sourcepos_when(ctx, !li, sp);
        put_when(ctx, classes, " class=\"task-list-item-checkbox\"");
        put_when(ctx, checked, " checked=\"\"");
        put(ctx, " disabled=\"\" /> ");
    } else {
        put_when(ctx, li, "</li>\n");
    }
}

/// Whether the node's parent is a link (with `link`) or a strong span
/// (without).
fn parent_kind(arena: &Arena<Ast>, id: Id, link: bool) -> (r: bool)
    requires
        arena.wf(),
        id.0 < arena.nodes().len(),
    ensures
        r == if link {
            parent_is(arena.nodes(), id.0 as int, |v: NodeValue| v is Link)
        } else {
            parent_is(arena.nodes(), id.0 as int, |v: NodeValue| v is Strong)
        },
{
    proof {
        crate::arena_tree::lemma_places(*arena, id);
    }
    match id.parent(arena) {
        Some(p) => match &p.data(arena).value {
            NodeValue::Link(_) => link,
            NodeValue::Strong => !link,
            _ => false,
        },
        None => false,
    }
}

fn is_tight_para(arena: &Arena<Ast>, id: Id) -> (r: bool)
    requires
        arena.wf(),
        id.0 < arena.nodes().len(),
    ensures
        r == tight_para(arena.nodes(), id.0 as int),
{
    proof {
        crate::arena_tree::lemma_places(*arena, id);
    }
    match id.parent(arena) {
        Some(p) => {
            proof {
                crate::arena_tree::lemma_places(*arena, p);
            }
            let in_tight = match p.parent(arena) {
                Some(g) => match &g.data(arena).value {
                    NodeValue::List(nl) => nl.tight,
                    NodeValue::DescriptionItem(nd) => nd.tight,
                    _ => false,
                },
                None => false,
            };
            let in_term = match &p.data(arena).value {
                NodeValue::DescriptionTerm => true,
                _ => false,
            };
            in_tight || in_term
        },
        None => false,
    }
}

/// Writes what a node writes on entering or leaving it (see `node_b`),
/// and tells how its children are to be written.
/// Writes inline math (see `math_b`).
fn render_math<T>(ctx: &mut Context<T>, sp: &Sourcepos, dollar: bool, display: bool, lit: &str)
    requires
        old(ctx).wf(),
    ensures
        final(ctx).wf(),
        utf8(final(ctx).written()) == math_b(utf8(old(ctx).written()), old(ctx).opts(), *sp, dollar, display, lit.spec_bytes()),
        final(ctx).opts() == old(ctx).opts(),
        final(ctx).footnotes() == old(ctx).footnotes(),
        final(ctx).anchors() == old(ctx).anchors(),
        final(ctx).plugs() == old(ctx).plugs(),
        final(ctx).backrefs() == old(ctx).backrefs(),
{
    let tag = if dollar { "span" } else { "code" };
    let style = if display { "display" } else { "inline" };
    let spt = sp.to_display_string();
    let mut attrs: Vec<(&str, &str)> = Vec::new();
    attrs.push(("data-math-style", style));
    if ctx.get_options().render.sourcepos {
        attrs.push(("data-sourcepos", spt.as_str()));
    }
    proof {
        assert(attr_bytes(attrs@) =~= seq![(u("data-math-style"), if display { u("display") } else { u("inline") })]
            + when_attr(ctx.opts().render.sourcepos, (u("data-sourcepos"), utf8(sourcepos_text(*sp)))));
    }
    let open = write_opening_tag(tag, attrs.as_slice());
    put(ctx, open.as_str());
    put_escape(ctx, lit);
    put(ctx, "</");
    put(ctx, tag);
    put(ctx, ">");
}

/// Writes a footnote reference (see `footnote_ref_b`).
fn render_footnote_reference<T>(ctx: &mut Context<T>, sp: &Sourcepos, name: &str, ref_num: u32, ix: u32)
    requires
        old(ctx).wf(),
    ensures
        final(ctx).wf(),
        utf8(final(ctx).written()) == footnote_ref_b(utf8(old(ctx).written()), old(ctx).opts(), *sp, name@, ref_num as nat, ix as nat),
        final(ctx).opts() == old(ctx).opts(),
        final(ctx).footnotes() == old(ctx).footnotes(),
        final(ctx).anchors() == old(ctx).anchors(),
        final(ctx).plugs() == old(ctx).plugs(),
        final(ctx).backrefs() == old(ctx).backrefs(),
{
    let mut ref_id = String::new();
    push_str(&mut ref_id, "fnref-");
    push_str(&mut ref_id, name);
    if ref_num > 1 {
        crate::text::push_char(&mut ref_id, '-');
        push_decimal(&mut ref_id, ref_num as usize);
    }
    proof {
        assert(ref_id@ =~= fnref_id(name@, ref_num as nat));
    }
    put(ctx, "<sup");
    render_sourcepos(ctx, sp);
    put(ctx, " class=\"footnote-ref\"><a href=\"#fn-");
    ctx.escape_href(name);
    put(ctx, "\" id=\"");
    ctx.escape_href(ref_id.as_str());
    put(ctx, "\" data-footnote-ref>");
    put_decimal(ctx, ix as usize);
    put(ctx, "</a></sup>");
}

/// Writes the `k`th back reference (see `backref_piece`).
fn backref_tail_string(fnix: u32, k: u32) -> (r: String)
    ensures
        r@ == backref_tail(fnix as nat, k as nat),
{
    let mut suffix = String::new();
    if k > 1 {
        crate::text::push_char(&mut suffix, '-');
        push_decimal(&mut suffix, k as usize);
    }
    proof {
        assert(suffix@ =~= ref_suffix(k as nat));
    }
    let mut t = String::new();
    push_str(&mut t, suffix.as_str());
    push_str(&mut t, "\" class=\"footnote-backref\" data-footnote-backref data-footnote-backref-idx=\"");
    push_decimal(&mut t, fnix as usize);
    push_str(&mut t, suffix.as_str());
    push_str(&mut t, "\" aria-label=\"Back to reference ");
    push_decimal(&mut t, fnix as usize);
    push_str(&mut t, suffix.as_str());
    push_str(&mut t, "\">\u{21a9}");
    let ghost mid = t@;
    if k > 1 {
        push_str(&mut t, "<sup class=\"footnote-ref\">");
        push_decimal(&mut t, k as usize);
        push_str(&mut t, "</sup>");
    }
    push_str(&mut t, "</a>");
    proof {
        assert(t@ =~= backref_tail(fnix as nat, k as nat));
    }
    t
}

/// Writes the `k`th back reference (see `backref_piece`).
fn put_backref_piece<T>(ctx: &mut Context<T>, name: &str, fnix: u32, k: u32)
    requires
        old(ctx).wf(),
    ensures
        final(ctx).wf(),
        utf8(final(ctx).written()) == utf8(old(ctx).written()) + backref_piece(old(ctx).opts(), name.spec_bytes(), fnix as nat, k as nat),
        final(ctx).opts() == old(ctx).opts(),
        final(ctx).footnotes() == old(ctx).footnotes(),
        final(ctx).anchors() == old(ctx).anchors(),
        final(ctx).plugs() == old(ctx).plugs(),
        final(ctx).backrefs() == old(ctx).backrefs(),
{
    let tail = backref_tail_string(fnix, k);
    put_when(ctx, k > 1, " ");
    put(ctx, "<a href=\"#fnref-");
    ctx.escape_href(name);
    put(ctx, tail.as_str());
}

/// Writes the back references of a footnote unless those of all footnotes
/// so far are written, and records them written; tells whether it wrote.
fn put_backrefs<T>(ctx: &mut Context<T>, name: &str, total: u32) -> (r: bool)
    requires
        old(ctx).wf(),
    ensures
        final(ctx).wf(),
        r == (old(ctx).backrefs() < old(ctx).footnotes()),
        utf8(final(ctx).written()) == utf8(old(ctx).written()) + when(r, backrefs_b(old(ctx).opts(), name.spec_bytes(), old(ctx).footnotes() as nat, total as nat)),
        final(ctx).backrefs() == if r { old(ctx).footnotes() } else { old(ctx).backrefs() },
        final(ctx).opts() == old(ctx).opts(),
        final(ctx).footnotes() == old(ctx).footnotes(),
        final(ctx).anchors() == old(ctx).anchors(),
        final(ctx).plugs() == old(ctx).plugs(),
{
    if ctx.backref_count() >= ctx.footnote_count() {
        proof {
            assert(utf8(old(ctx).written()) + Seq::<u8>::empty() =~= utf8(old(ctx).written()));
        }
        return false;
    }
    ctx.backrefs_written();
    let fnix = ctx.footnote_count();
    let ghost w0 = utf8(old(ctx).written());
    let ghost o = ctx.opts();
    let mut k: u32 = 0;
    proof {
        assert(w0 + backrefs_b(o, name.spec_bytes(), fnix as nat, 0) =~= w0);
    }
    while k < total
        invariant
            ctx.wf(),
            k <= total,
            ctx.opts() == o,
            ctx.footnotes() == fnix,
            ctx.backrefs() == fnix,
            ctx.anchors() == old(ctx).anchors(),
            ctx.plugs() == old(ctx).plugs(),
            utf8(ctx.written()) == w0 + backrefs_b(o, name.spec_bytes(), fnix as nat, k as nat),
        decreases total - k,
    {
        k = k + 1;
        put_backref_piece(ctx, name, fnix, k);
    }
    true
}

fn closes_footnote_exec<'a>(arena: &'a Arena<Ast>, id: Id) -> (r: Option<(&'a str, u32)>)
    requires
        arena.wf(),
        id.0 < arena.nodes().len(),
    ensures
        match closes_footnote(arena.nodes(), id.0 as int) {
            Some((name, total)) => r matches Some((nm, t)) && nm.spec_bytes() == name && t == total,
            None => r is None,
        },
{
    proof {
        crate::arena_tree::lemma_places(*arena, id);
    }
    match id.parent(arena) {
        Some(p) => match &p.data(arena).value {
            NodeValue::FootnoteDefinition(fd) => {
                if id.next_sibling(arena).is_none() {
                    Some((fd.name.as_str(), fd.total_references))
                } else {
                    None
                }
            },
            _ => None,
        },
        None => None,
    }
}

/// Writes a paragraph's tags (see `para_b`).
fn render_paragraph<T>(ctx: &mut Context<T>, arena: &Arena<Ast>, id: Id, entering: bool, sp: &Sourcepos)
    requires
        old(ctx).wf(),
        arena.wf(),
        id.0 < arena.nodes().len(),
        arena.nodes()[id.0 as int].value().value is Paragraph,
    ensures
        final(ctx).wf(),
        utf8(final(ctx).written()) == para_b(utf8(old(ctx).written()), (old(ctx).footnotes() as nat, old(ctx).backrefs() as nat), arena.nodes(), id.0 as int, entering, old(ctx).opts(), *sp),
        (final(ctx).footnotes() as nat, final(ctx).backrefs() as nat) == footnotes_after((old(ctx).footnotes() as nat, old(ctx).backrefs() as nat), arena.nodes(), id.0 as int, entering),
        final(ctx).opts() == old(ctx).opts(),
        final(ctx).anchors() == old(ctx).anchors(),
        final(ctx).plugs() == old(ctx).plugs(),
{
    if is_tight_para(arena, id) {
        return;
    }
    if entering {
        put_cr(ctx);
        put(ctx, "<p");
        render_sourcepos(ctx, sp);
        put(ctx, ">");
    } else {
        match closes_footnote_exec(arena, id) {
            Some((name, total)) => {
                put(ctx, " ");
                put_backrefs(ctx, name, total);
                put(ctx, "</p>\n");
            },
            None => {
                put(ctx, "</p>\n");
            },
        }
    }
}

/// Writes a footnote definition's tags (see `fndef_b`).
fn render_footnote_definition<T>(ctx: &mut Context<T>, entering: bool, sp: &Sourcepos, name: &str, total: u32)
    requires
        old(ctx).wf(),
        old(ctx).footnotes() < u32::MAX,
    ensures
        final(ctx).wf(),
        utf8(final(ctx).written()) == fndef_b(utf8(old(ctx).written()), (old(ctx).footnotes() as nat, old(ctx).backrefs() as nat), entering, old(ctx).opts(), *sp, name.spec_bytes(), total as nat),
        final(ctx).footnotes() == if entering { old(ctx).footnotes() + 1 } else { old(ctx).footnotes() as int },
        final(ctx).backrefs() == if !entering && old(ctx).backrefs() < old(ctx).footnotes() { old(ctx).footnotes() } else { old(ctx).backrefs() },
        final(ctx).opts() == old(ctx).opts(),
        final(ctx).anchors() == old(ctx).anchors(),
        final(ctx).plugs() == old(ctx).plugs(),
{
    if entering {
        let first = ctx.footnote_count() == 0;
        put_when(ctx, first, "<section");
        sourcepos_when(ctx, first, sp);
        put_when(ctx, first, " class=\"footnotes\" data-footnotes>\n<ol>\n");
        ctx.next_footnote();
        put(ctx, "<li");
        render_sourcepos(ctx, sp);
        put(ctx, " id=\"fn-");
        ctx.escape_href(name);
        put(ctx, "\">");
    } else {
        let wrote = put_backrefs(ctx, name, total);
        put_when(ctx, wrote, "\n");
        put(ctx, "</li>\n");
    }
}

/// Inline nodes other than the ones a heading's anchor is made of.
pub open spec fn inline_kind(v: NodeValue) -> bool {
    v is Code || v is Emph || v is Strong || v is Strikethrough || v is Superscript || v is Subscript
        || v is Underline || v is SpoileredText || v is Escaped || v is EscapedTag || v is Text
        || v is SoftBreak || v is LineBreak || v is HtmlInline || v is Link || v is Image || v is WikiLink
        || v is ShortCode || v is Math || v is FootnoteReference
}

fn is_inline_kind(v: &NodeValue) -> (r: bool)
    ensures
        r == inline_kind(*v),
{
    match v {
        NodeValue::Code(_) | NodeValue::Emph | NodeValue::Strong | NodeValue::Strikethrough
        | NodeValue::Superscript | NodeValue::Subscript | NodeValue::Underline | NodeValue::SpoileredText
        | NodeValue::Escaped | NodeValue::EscapedTag(_) | NodeValue::Text(_) | NodeValue::SoftBreak
        | NodeValue::LineBreak | NodeValue::HtmlInline(_) | NodeValue::Link(_) | NodeValue::Image(_)
        | NodeValue::WikiLink(_) | NodeValue::ShortCode(_) | NodeValue::Math(_)
        | NodeValue::FootnoteReference(_) => true,
        _ => false,
    }
}

#[verifier::rlimit(100)]
#[verifier::spinoff_prover]
fn format_inline<T>(ctx: &mut Context<T>, arena: &Arena<Ast>, id: Id, entering: bool) -> (r: ChildRendering)
    requires
        old(ctx).wf(),
        old(ctx).anchors().wf(),
        old(ctx).plugs().render.codefence_syntax_highlighter is None,
        old(ctx).plugs().render.heading_adapter is None,
        old(ctx).footnotes() < u32::MAX,
        arena.wf(),
        id.0 < arena.nodes().len(),
        2 * arena.nodes().len() + 1 < usize::MAX,
        renderable_at(arena.nodes(), arena.places(), id.0 as int, old(ctx).opts()),
        inline_kind(arena.nodes()[id.0 as int].value().value),
    ensures
        final(ctx).wf(),
        final(ctx).anchors().wf(),
        (utf8(final(ctx).written()), r) == node_b(utf8(old(ctx).written()), old(ctx).anchors()@, (old(ctx).footnotes() as nat, old(ctx).backrefs() as nat), arena.nodes(), arena.places(), id.0 as int, entering, old(ctx).opts()),
        final(ctx).anchors()@ == anchors_after(old(ctx).anchors()@, arena.nodes(), id.0 as int, entering, old(ctx).opts()),
        (final(ctx).footnotes() as nat, final(ctx).backrefs() as nat) == footnotes_after((old(ctx).footnotes() as nat, old(ctx).backrefs() as nat), arena.nodes(), id.0 as int, entering),
        final(ctx).opts() == old(ctx).opts(),
        final(ctx).plugs() == old(ctx).plugs(),
{
    reveal(node_b);
    let ast = id.data(arena);
    let sp = &ast.sourcepos;
    let ghost w = utf8(old(ctx).written());
    match &ast.value {
        NodeValue::Code(c) => {
            if entering {
                put(ctx, "<code");
                render_sourcepos(ctx, sp);
                put(ctx, ">");
                put_escape(ctx, c.literal.as_str());
                put(ctx, "</code>");
            }
            ChildRendering::HTML
        },
        NodeValue::Emph => {
            put_tag(ctx, entering, sp, "<em", ">", "</em>");
            ChildRendering::HTML
        },
        NodeValue::Strong => {
            if !(ctx.get_options().render.gfm_quirks && parent_kind(arena, id, false)) {
                put_tag(ctx, entering, sp, "<strong", ">", "</strong>");
            }
            ChildRendering::HTML
        },
        NodeValue::Strikethrough => {
            put_tag(ctx, entering, sp, "<del", ">", "</del>");
            ChildRendering::HTML
        },
        NodeValue::Superscript => {
            put_tag(ctx, entering, sp, "<sup", ">", "</sup>");
            ChildRendering::HTML
        },
        NodeValue::Subscript => {
            put_tag(ctx, entering, sp, "<sub", ">", "</sub>");
            ChildRendering::HTML
        },
        NodeValue::Underline => {
            put_tag(ctx, entering, sp, "<u", ">", "</u>");
            ChildRendering::HTML
        },
        NodeValue::SpoileredText => {
            put_tag(ctx, entering, sp, "<span", " class=\"spoiler\">", "</span>");
            ChildRendering::HTML
        },
        NodeValue::Escaped => {
            if ctx.get_options().render.escaped_char_spans {
                put_tag(ctx, entering, sp, "<span data-escaped-char", ">", "</span>");
            }
            ChildRendering::HTML
        },
        NodeValue::EscapedTag(t) => {
            put(ctx, t.as_str());
            ChildRendering::HTML
        },
        NodeValue::Text(t) => {
            if entering {
                put_escape(ctx, t.as_str());
            }
            ChildRendering::HTML
        },
        NodeValue::SoftBreak => {
            if entering {
                if ctx.get_options().render.hardbreaks {
                    put(ctx, "<br");
                    render_sourcepos(ctx, sp);
                    put(ctx, " />\n");
                } else {
                    put(ctx, "\n");
                }
            }
            ChildRendering::HTML
        },
        NodeValue::LineBreak => {
            if entering {
                put(ctx, "<br");
                render_sourcepos(ctx, sp);
                put(ctx, " />\n");
            }
            ChildRendering::HTML
        },
        NodeValue::HtmlInline(lit) => {
            if entering {
                render_html_inline(ctx, lit.as_str());
            }
            ChildRendering::HTML
        },
        NodeValue::Link(nl) => {
            let nested = parent_kind(arena, id, true);
            render_link(ctx, entering, sp, nl.url.as_str(), nl.title.as_str(), nested);
            ChildRendering::HTML
        },
        NodeValue::ShortCode(sc) => {
            if entering {
                put(ctx, sc.emoji.as_str());
            }
            ChildRendering::HTML
        },
        NodeValue::Math(m) => {
            if entering {
                render_math(ctx, sp, m.dollar_math, m.display_math, m.literal.as_str());
            }
            ChildRendering::HTML
        },
        NodeValue::FootnoteReference(fr) => {
            if entering {
                render_footnote_reference(ctx, sp, fr.name.as_str(), fr.ref_num, fr.ix);
            }
            ChildRendering::HTML
        },
        NodeValue::Image(nl) => render_image(ctx, entering, sp, nl.url.as_str(), nl.title.as_str()),
        NodeValue::WikiLink(wl) => {
            if entering {
                put(ctx, "<a");
                render_sourcepos(ctx, sp);
                put(ctx, " href=\"");
                put_href(ctx, wl.url.as_str());
                put(ctx, "\" data-wikilink=\"true");
                put(ctx, "\">");
            } else {
                put(ctx, "</a>");
            }
            ChildRendering::HTML
        },
        _ => ChildRendering::HTML,
    }
}

/// A heading's tags, with the anchor link when headings get ids.
#[verifier::rlimit(100)]
#[verifier::spinoff_prover]
fn format_heading<T>(ctx: &mut Context<T>, arena: &Arena<Ast>, id: Id, entering: bool) -> (r: ChildRendering)
    requires
        old(ctx).wf(),
        old(ctx).anchors().wf(),
        old(ctx).plugs().render.codefence_syntax_highlighter is None,
        old(ctx).plugs().render.heading_adapter is None,
        old(ctx).footnotes() < u32::MAX,
        arena.wf(),
        id.0 < arena.nodes().len(),
        2 * arena.nodes().len() + 1 < usize::MAX,
        renderable_at(arena.nodes(), arena.places(), id.0 as int, old(ctx).opts()),
        arena.nodes()[id.0 as int].value().value is Heading,
    ensures
        final(ctx).wf(),
        final(ctx).anchors().wf(),
        (utf8(final(ctx).written()), r) == node_b(utf8(old(ctx).written()), old(ctx).anchors()@, (old(ctx).footnotes() as nat, old(ctx).backrefs() as nat), arena.nodes(), arena.places(), id.0 as int, entering, old(ctx).opts()),
        final(ctx).anchors()@ == anchors_after(old(ctx).anchors()@, arena.nodes(), id.0 as int, entering, old(ctx).opts()),
        (final(ctx).footnotes() as nat, final(ctx).backrefs() as nat) == footnotes_after((old(ctx).footnotes() as nat, old(ctx).backrefs() as nat), arena.nodes(), id.0 as int, entering),
        final(ctx).opts() == old(ctx).opts(),
        final(ctx).plugs() == old(ctx).plugs(),
{
    reveal(node_b);
    let ast = id.data(arena);
    let sp = &ast.sourcepos;
    match &ast.value {
        NodeValue::Heading(nh) => {
            render_heading(ctx, entering, sp, nh.level);
            match &ctx.get_options().extension.header_ids {
                Some(prefix) => {
                    if entering {
                        let text = collect_text(arena, id);
                        let anchor = ctx.anchorize(text.as_str());
                        put(ctx, "<a href=\"#");
                        put(ctx, anchor.as_str());
                        put(ctx, "\" aria-hidden=\"true\" class=\"anchor\" id=\"");
                        put(ctx, prefix.as_str());
                        put(ctx, anchor.as_str());
                        put(ctx, "\"></a>");
                    } else {
                        proof {
                            assert(utf8(ctx.written()) + Seq::<u8>::empty() =~= utf8(ctx.written()));
                        }
                    }
                },
                None => {
                    proof {
                        assert(utf8(ctx.written()) + Seq::<u8>::empty() =~= utf8(ctx.written()));
                    }
                },
            }
            ChildRendering::HTML
        },
        _ => ChildRendering::HTML,
    }
}

#[verifier::rlimit(100)]
#[verifier::spinoff_prover]
fn format_block<T>(ctx: &mut Context<T>, arena: &Arena<Ast>, id: Id, entering: bool) -> (r: ChildRendering)
    requires
        old(ctx).wf(),
        old(ctx).anchors().wf(),
        old(ctx).plugs().render.codefence_syntax_highlighter is None,
        old(ctx).plugs().render.heading_adapter is None,
        old(ctx).footnotes() < u32::MAX,
        arena.wf(),
        id.0 < arena.nodes().len(),
        2 * arena.nodes().len() + 1 < usize::MAX,
        renderable_at(arena.nodes(), arena.places(), id.0 as int, old(ctx).opts()),
        !inline_kind(arena.nodes()[id.0 as int].value().value),
    ensures
        final(ctx).wf(),
        final(ctx).anchors().wf(),
        (utf8(final(ctx).written()), r) == node_b(utf8(old(ctx).written()), old(ctx).anchors()@, (old(ctx).footnotes() as nat, old(ctx).backrefs() as nat), arena.nodes(), arena.places(), id.0 as int, entering, old(ctx).opts()),
        final(ctx).anchors()@ == anchors_after(old(ctx).anchors()@, arena.nodes(), id.0 as int, entering, old(ctx).opts()),
        (final(ctx).footnotes() as nat, final(ctx).backrefs() as nat) == footnotes_after((old(ctx).footnotes() as nat, old(ctx).backrefs() as nat), arena.nodes(), id.0 as int, entering),
        final(ctx).opts() == old(ctx).opts(),
        final(ctx).plugs() == old(ctx).plugs(),
{
    reveal(node_b);
    let ast = id.data(arena);
    let sp = &ast.sourcepos;
    let ghost w = utf8(old(ctx).written());
    match &ast.value {
        NodeValue::BlockQuote | NodeValue::MultilineBlockQuote(_) => {
            put_cr(ctx);
            if entering {
                put(ctx, "<blockquote");
                render_sourcepos(ctx, sp);
                put(ctx, ">\n");
            } else {
                put(ctx, "</blockquote>\n");
            }
            ChildRendering::HTML
        },
        NodeValue::DescriptionList => {
            if entering {
                put_cr(ctx);
                put(ctx, "<dl");
                render_sourcepos(ctx, sp);
                put(ctx, ">\n");
            } else {
                put(ctx, "</dl>\n");
            }
            ChildRendering::HTML
        },
        NodeValue::DescriptionTerm => {
            put_tag(ctx, entering, sp, "<dt", ">", "</dt>\n");
            ChildRendering::HTML
        },
        NodeValue::DescriptionDetails => {
            put_tag(ctx, entering, sp, "<dd", ">", "</dd>\n");
            ChildRendering::HTML
        },
        NodeValue::ThematicBreak => {
            if entering {
                put_cr(ctx);
                put(ctx, "<hr");
                render_sourcepos(ctx, sp);
                put(ctx, " />\n");
            }
            ChildRendering::HTML
        },
        NodeValue::Item(_) => {
            if entering {
                put_cr(ctx);
                put(ctx, "<li");
                render_sourcepos(ctx, sp);
                put(ctx, ">");
            } else {
                put(ctx, "</li>\n");
            }
            ChildRendering::HTML
        },
        NodeValue::List(nl) => {
            let ordered = match nl.list_type {
                ListType::Ordered => true,
                ListType::Bullet => false,
            };
            render_list(ctx, entering, sp, ordered, nl.is_task_list, nl.start);
            ChildRendering::HTML
        },
        NodeValue::Paragraph => {
            render_paragraph(ctx, arena, id, entering, sp);
            ChildRendering::HTML
        },
        NodeValue::FootnoteDefinition(fd) => {
            render_footnote_definition(ctx, entering, sp, fd.name.as_str(), fd.total_references);
            ChildRendering::HTML
        },
        NodeValue::Heading(_) => format_heading(ctx, arena, id, entering),
        NodeValue::CodeBlock(cb) => {
            if entering {
                render_code_block(ctx, sp, cb.info.as_str(), cb.literal.as_str());
            }
            ChildRendering::HTML
        },
        NodeValue::HtmlBlock(hb) => {
            if entering {
                render_html_block(ctx, hb.literal.as_str());
            }
            ChildRendering::HTML
        },
        NodeValue::Table(_) => {
            render_table(ctx, arena, id, entering, sp);
            ChildRendering::HTML
        },
        NodeValue::TableRow(thead) => {
            render_table_row(ctx, arena, id, entering, sp, *thead);
            ChildRendering::HTML
        },
        NodeValue::TableCell => {
            render_table_cell(ctx, arena, id, entering, sp);
            ChildRendering::HTML
        },
        NodeValue::TaskItem(sym) => {
            render_task_item(ctx, arena, id, entering, sp, sym.is_some());
            ChildRendering::HTML
        },
        _ => ChildRendering::HTML,
    }
}

/// Unless `unsafe_` is set, raw HTML and dangerous URLs are scrubbed: raw
/// HTML, inline or as a block, is replaced by a comment saying it was left
/// out, and a link or image whose URL is dangerous gets an empty one.
#[verifier::rlimit(100)]
#[verifier::spinoff_prover]
pub proof fn lemma_safe_by_default(
    w: Seq<u8>,
    anc: Seq<Seq<char>>,
    fs: (nat, nat),
    n: Seq<Node<Ast>>,
    q: Seq<nat>,
    id: int,
    o: Options,
)
    requires
        0 <= id < n.len(),
        !o.render.unsafe_,
        !o.render.escape,
    ensures
        n[id].value().value is HtmlInline ==> node_b(w, anc, fs, n, q, id, true, o).0 == w + u(
            "<!-- raw HTML omitted -->",
        ),
        n[id].value().value is HtmlBlock ==> node_b(w, anc, fs, n, q, id, true, o).0 == cr_b(
            cr_b(w, o) + u("<!-- raw HTML omitted -->"),
            o,
        ),
        forall|url: Seq<u8>| #[trigger] dangerous_url_spec(url) is Some ==> href_b(o, url) == Seq::<u8>::empty(),
{
    let v = n[id].value().value;
    if v is HtmlInline {
        assert(node_b(w, anc, fs, n, q, id, true, o).0 == w + u("<!-- raw HTML omitted -->")) by {
            reveal(node_b);
        }
    }
    if v is HtmlBlock {
        assert(node_b(w, anc, fs, n, q, id, true, o).0 == cr_b(cr_b(w, o) + u("<!-- raw HTML omitted -->"), o)) by {
            reveal(node_b);
        }
    }
}

pub fn format_node_default<T>(ctx: &mut Context<T>, arena: &Arena<Ast>, id: Id, entering: bool) -> (r: ChildRendering)
    requires
        old(ctx).wf(),
        old(ctx).anchors().wf(),
        old(ctx).plugs().render.codefence_syntax_highlighter is None,
        old(ctx).plugs().render.heading_adapter is None,
        old(ctx).footnotes() < u32::MAX,
        arena.wf(),
        id.0 < arena.nodes().len(),
        2 * arena.nodes().len() + 1 < usize::MAX,
        renderable_at(arena.nodes(), arena.places(), id.0 as int, old(ctx).opts()),
    ensures
        final(ctx).wf(),
        final(ctx).anchors().wf(),
        (utf8(final(ctx).written()), r) == node_b(utf8(old(ctx).written()), old(ctx).anchors()@, (old(ctx).footnotes() as nat, old(ctx).backrefs() as nat), arena.nodes(), arena.places(), id.0 as int, entering, old(ctx).opts()),
        final(ctx).anchors()@ == anchors_after(old(ctx).anchors()@, arena.nodes(), id.0 as int, entering, old(ctx).opts()),
        (final(ctx).footnotes() as nat, final(ctx).backrefs() as nat) == footnotes_after((old(ctx).footnotes() as nat, old(ctx).backrefs() as nat), arena.nodes(), id.0 as int, entering),
        final(ctx).opts() == old(ctx).opts(),
        final(ctx).plugs() == old(ctx).plugs(),
{
    if is_inline_kind(&id.data(arena).value) {
        format_inline(ctx, arena, id, entering)
    } else {
        format_block(ctx, arena, id, entering)
    }
}


/// The text a node contributes to `collect_text` without looking at its
/// children: the literal of text, code and math, a space for a line break.
pub open spec fn leaf_text(v: NodeValue) -> Option<Seq<char>> {
    match v {
        NodeValue::Text(t) => Some(t@),
        NodeValue::Code(c) => Some(c.literal@),
        NodeValue::Math(m) => Some(m.literal@),
        NodeValue::LineBreak | NodeValue::SoftBreak => Some(seq![' ']),
        _ => None,
    }
}

/// The text gathered by walking `root`'s subtree from `next` on, in at
/// most `fuel` steps, below no node that gave its own text.
pub open spec fn collect_walk(n: Seq<Node<Ast>>, root: Id, next: Option<NodeEdge<Id>>, acc: Seq<char>, skip: Option<Id>, fuel: nat) -> Seq<char>
    decreases fuel,
{
    match next {
        None => acc,
        Some(e) => if fuel == 0 {
            acc
        } else {
            let (acc2, skip2) = match e {
                NodeEdge::Start(x) => if skip is Some {
                    (acc, skip)
                } else {
                    match leaf_text(n[x.0 as int].value().value) {
                        Some(t) => (acc + t, Some(x)),
                        None => (acc, None::<Id>),
                    }
                },
                NodeEdge::End(x) => if skip == Some(x) {
                    (acc, None::<Id>)
                } else {
                    (acc, skip)
                },
            };
            collect_walk(n, root, traverse_step(n, root, e, false), acc2, skip2, (fuel - 1) as nat)
        },
    }
}

/// The text of a node: in document order, the literal of each text, code
/// and math node and a space for each line break, not looking inside
/// those.
pub open spec fn collect_text_spec(n: Seq<Node<Ast>>, root: Id) -> Seq<char> {
    collect_walk(n, root, Some(NodeEdge::Start(root)), seq![], None, (2 * n.len() + 1) as nat)
}

/// The text of a node (see `collect_text_spec`).
pub fn collect_text(arena: &Arena<Ast>, node: Id) -> (r: String)
    requires
        arena.wf(),
        node.0 < arena.nodes().len(),
        2 * arena.nodes().len() + 1 < usize::MAX,
    ensures
        r@ == collect_text_spec(arena.nodes(), node),
{
    let ghost n = arena.nodes();
    let mut out = String::new();
    let mut walk = node.traverse(arena);
    let mut skip: Option<Id> = None;
    let mut fuel: usize = 2 * arena.len() + 1;
    while fuel > 0
        invariant
            walk.valid(),
            walk.arena() == arena,
            walk.root() == node,
            arena.nodes() == n,
            collect_walk(n, node, walk.next_edge(), out@, skip, fuel as nat) == collect_text_spec(n, node),
        ensures
            collect_walk(n, node, walk.next_edge(), out@, skip, fuel as nat) == collect_text_spec(n, node),
            fuel == 0 || walk.next_edge() is None,
        decreases fuel,
    {
        match walk.next() {
            None => {
                break;
            },
            Some(e) => {
                proof {
                    let x = crate::arena_tree::edge_node(e);
                    let k = choose|k: nat| crate::arena_tree::ancestor_at(n, x, k) == Some(node);
                    assert(x.0 < n.len());
                }
                let ghost acc0 = out@;
                match e {
                    NodeEdge::Start(x) => {
                        if skip.is_none() {
                            match &x.data(arena).value {
                                NodeValue::Text(t) => {
                                    out.append(t.as_str());
                                    skip = Some(x);
                                },
                                NodeValue::Code(c) => {
                                    out.append(c.literal.as_str());
                                    skip = Some(x);
                                },
                                NodeValue::Math(m) => {
                                    out.append(m.literal.as_str());
                                    skip = Some(x);
                                },
                                NodeValue::LineBreak | NodeValue::SoftBreak => {
                                    crate::text::push_char(&mut out, ' ');
                                    skip = Some(x);
                                    proof {
                                        assert(out@ =~= acc0 + seq![' ']);
                                    }
                                },
                                _ => {},
                            }
                        }
                    },
                    NodeEdge::End(x) => {
                        let leave = match skip {
                            Some(s) => s == x,
                            None => false,
                        };
                        if leave {
                            skip = None;
                        }
                    },
                }
                fuel = fuel - 1;
            },
        }
    }
    proof {
        assert(collect_walk(n, node, walk.next_edge(), out@, skip, fuel as nat) == out@);
    }
    out
}

/// What a node inside an image writes: its text, escaped; a line break is
/// a space.
pub open spec fn plain_b(v: NodeValue) -> Seq<u8> {
    match v {
        NodeValue::Text(t) => escape_bytes(utf8(t@)),
        NodeValue::Code(c) => escape_bytes(utf8(c.literal@)),
        NodeValue::HtmlInline(l) => escape_bytes(utf8(l@)),
        NodeValue::LineBreak | NodeValue::SoftBreak => u(" "),
        _ => seq![],
    }
}

/// One edge of the walk: what it writes, the image, if any, whose
/// children are being written as plain text afterwards, the anchors handed
/// out, and the footnote counts.
pub open spec fn edge_b(w: Seq<u8>, a: Seq<Seq<char>>, fs: (nat, nat), n: Seq<Node<Ast>>, q: Seq<nat>, e: NodeEdge<Id>, plain: Option<Id>, o: Options) -> (Seq<u8>, Option<Id>, Seq<Seq<char>>, (nat, nat)) {
    match e {
        NodeEdge::Start(x) => if plain is Some {
            (w + plain_b(n[x.0 as int].value().value), plain, a, fs)
        } else {
            let (w2, c) = node_b(w, a, fs, n, q, x.0 as int, true, o);
            (w2, if c == ChildRendering::Plain {
                Some(x)
            } else {
                None
            }, anchors_after(a, n, x.0 as int, true, o), footnotes_after(fs, n, x.0 as int, true))
        },
        NodeEdge::End(x) => if plain == Some(x) || plain is None {
            (node_b(w, a, fs, n, q, x.0 as int, false, o).0, None, a, footnotes_after(fs, n, x.0 as int, false))
        } else {
            (w, plain, a, fs)
        },
    }
}

/// The output of walking `root`'s subtree from the edge `next` on, in at
/// most `fuel` steps, and the number of footnotes then; `None` when the
/// walk takes longer.
pub open spec fn walk_b(w: Seq<u8>, a: Seq<Seq<char>>, fs: (nat, nat), n: Seq<Node<Ast>>, q: Seq<nat>, root: Id, next: Option<NodeEdge<Id>>, plain: Option<Id>, o: Options, fuel: nat) -> Option<(Seq<u8>, nat)>
    decreases fuel,
{
    match next {
        None => Some((w, fs.0)),
        Some(e) => if fuel == 0 {
            None
        } else {
            let (w2, p2, a2, f2) = edge_b(w, a, fs, n, q, e, plain, o);
            walk_b(w2, a2, f2, n, q, root, traverse_step(n, root, e, false), p2, o, (fuel - 1) as nat)
        },
    }
}

/// Node `j` is one `format_node_default` writes: its kind is renderable,
/// and a table cell sits in a row of a table with a column for it.
pub open spec fn renderable_at(n: Seq<Node<Ast>>, q: Seq<nat>, j: int, o: Options) -> bool {
    &&& renderable(n[j].value().value, o)
    &&& n[j].value().value is TableCell ==> (cell_frame(n, j) matches Some((_, al)) && q[j] < al.len())
}

/// Every node of the arena is one `format_node_default` writes.
pub open spec fn all_renderable(n: Seq<Node<Ast>>, q: Seq<nat>, o: Options) -> bool {
    forall|j: int| 0 <= j < n.len() ==> #[trigger] renderable_at(n, q, j, o)
}

/// The HTML of the document under `root`: the walk of its subtree from
/// `root`'s start, with nothing written before it, and the end of the
/// footnote section when there were footnotes.  A walk of a tree of `k`
/// nodes takes `2k` steps.
pub open spec fn document_b(n: Seq<Node<Ast>>, q: Seq<nat>, root: Id, o: Options) -> Option<Seq<u8>> {
    match walk_b(seq![], seq![], (0, 0), n, q, root, Some(NodeEdge::Start(root)), None, o, (2 * n.len() + 1) as nat) {
        Some((w, ix)) => Some(if ix > 0 {
            w + utf8("</ol>"@ + line_feed(o) + "</section>"@ + line_feed(o))
        } else {
            w
        }),
        None => None,
    }
}

fn put_plain<T>(ctx: &mut Context<T>, v: &NodeValue)
    requires
        old(ctx).wf(),
    ensures
        final(ctx).wf(),
        utf8(final(ctx).written()) == utf8(old(ctx).written()) + plain_b(*v),
        final(ctx).opts() == old(ctx).opts(),
        final(ctx).footnotes() == old(ctx).footnotes(),
        final(ctx).anchors() == old(ctx).anchors(),
        final(ctx).plugs() == old(ctx).plugs(),
        final(ctx).backrefs() == old(ctx).backrefs(),
{
    match v {
        NodeValue::Text(t) => put_escape(ctx, t.as_str()),
        NodeValue::Code(c) => put_escape(ctx, c.literal.as_str()),
        NodeValue::HtmlInline(l) => put_escape(ctx, l.as_str()),
        NodeValue::LineBreak | NodeValue::SoftBreak => put(ctx, " "),
        _ => {
            proof {
                assert(utf8(old(ctx).written()) + Seq::<u8>::empty() =~= utf8(old(ctx).written()));
            }
        },
    }
}


/// Writes one edge of the walk (see `edge_b`); gives the image whose
/// children are written as plain text afterwards, if any.
fn render_edge<T>(ctx: &mut Context<T>, arena: &Arena<Ast>, e: NodeEdge<Id>, plain: Option<Id>) -> (r: Option<Id>)
    requires
        old(ctx).wf(),
        old(ctx).anchors().wf(),
        old(ctx).plugs().render.codefence_syntax_highlighter is None,
        old(ctx).plugs().render.heading_adapter is None,
        old(ctx).footnotes() < u32::MAX,
        arena.wf(),
        crate::arena_tree::edge_node(e).0 < arena.nodes().len(),
        2 * arena.nodes().len() + 1 < usize::MAX,
        all_renderable(arena.nodes(), arena.places(), old(ctx).opts()),
    ensures
        final(ctx).wf(),
        final(ctx).anchors().wf(),
        (utf8(final(ctx).written()), r, final(ctx).anchors()@, (final(ctx).footnotes() as nat, final(ctx).backrefs() as nat)) == edge_b(utf8(old(ctx).written()), old(ctx).anchors()@, (old(ctx).footnotes() as nat, old(ctx).backrefs() as nat), arena.nodes(), arena.places(), e, plain, old(ctx).opts()),
        final(ctx).footnotes() <= old(ctx).footnotes() + 1,
        final(ctx).opts() == old(ctx).opts(),
        final(ctx).plugs() == old(ctx).plugs(),
{
    proof {
        assert(renderable_at(arena.nodes(), arena.places(), crate::arena_tree::edge_node(e).0 as int, old(ctx).opts()));
    }
    match e {
        NodeEdge::Start(x) => {
            if plain.is_some() {
                put_plain(ctx, &x.data(arena).value);
                plain
            } else {
                let c = format_node_default(ctx, arena, x, true);
                match c {
                    ChildRendering::Plain => Some(x),
                    _ => None,
                }
            }
        },
        NodeEdge::End(x) => {
            let at_image = match plain {
                Some(p) => p == x,
                None => true,
            };
            if at_image {
                format_node_default(ctx, arena, x, false);
                None
            } else {
                plain
            }
        },
    }
}

/// Formats the document under `root` as HTML: a walk over its subtree that
/// writes each node on entering and leaving it (see `format_node_default`),
/// and only the text of the nodes inside an image.  The output is
/// `document_b`, which a tree always gives.
pub fn format_document<'o, 'c>(arena: &Arena<Ast>, root: Id, options: &'o Options<'c>, plugins: &'o Plugins<'o>) -> (r: String)
    requires
        arena.wf(),
        root.0 < arena.nodes().len(),
        all_renderable(arena.nodes(), arena.places(), *options),
        2 * arena.nodes().len() + 1 < u32::MAX,
        plugins.render.codefence_syntax_highlighter is None,
        plugins.render.heading_adapter is None,
    ensures
        document_b(arena.nodes(), arena.places(), root, *options) matches Some(out) ==> utf8(r@) == out,
{
    let ghost n = arena.nodes();
    let ghost q = arena.places();
    let ghost o = *options;
    let mut ctx = Context::new(options, plugins, ());
    let mut walk = root.traverse(arena);
    let mut plain: Option<Id> = None;
    let mut fuel: usize = 2 * arena.len() + 1;
    let ghost start = walk_b(seq![], seq![], (0, 0), n, q, root, Some(NodeEdge::Start(root)), None, o, fuel as nat);
    proof {
        assert(utf8(Seq::<char>::empty()) =~= Seq::<u8>::empty());
    }
    while fuel > 0
        invariant
            walk.valid(),
            walk.arena() == arena,
            walk.root() == root,
            arena.nodes() == n,
            arena.places() == q,
            all_renderable(n, q, o),
            ctx.wf(),
            ctx.anchors().wf(),
            ctx.opts() == o,
            ctx.plugs() == *plugins,
            plugins.render.codefence_syntax_highlighter is None,
            plugins.render.heading_adapter is None,
            2 * n.len() + 1 < u32::MAX,
            ctx.footnotes() + fuel <= 2 * n.len() + 1,
            walk_b(utf8(ctx.written()), ctx.anchors()@, (ctx.footnotes() as nat, ctx.backrefs() as nat), n, q, root, walk.next_edge(), plain, o, fuel as nat) == start,
        ensures
            ctx.wf(),
            walk_b(utf8(ctx.written()), ctx.anchors()@, (ctx.footnotes() as nat, ctx.backrefs() as nat), n, q, root, walk.next_edge(), plain, o, fuel as nat) == start,
            fuel == 0 || walk.next_edge() is None,
        decreases fuel,
    {
        match walk.next() {
            None => {
                break;
            },
            Some(e) => {
                proof {
                    let x = crate::arena_tree::edge_node(e);
                    let k = choose|k: nat| crate::arena_tree::ancestor_at(n, x, k) == Some(root);
                    assert(x.0 < n.len());
                }
                plain = render_edge(&mut ctx, arena, e, plain);
                fuel = fuel - 1;
            },
        }
    }
    let ghost w = utf8(ctx.written());
    let ghost ix = ctx.footnotes();
    proof {
        assert(start matches Some((out, k)) ==> out == w && k == ix);
        crate::text::lemma_encode_concat(ctx.written(), "</ol>"@ + line_feed(o) + "</section>"@ + line_feed(o));
    }
    let (out, _) = ctx.finish();
    proof {
        if ix > 0 {
            assert(out@ =~= ctx.written() + ("</ol>"@ + line_feed(o) + "</section>"@ + line_feed(o)));
        }
    }
    out
}

} // verus!
