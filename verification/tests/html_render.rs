use comrak::arena_tree::{Arena, Id};
use comrak::html::render::format_document;
use comrak::nodes::{
    Ast, LineColumn, ListDelimType, ListType, NodeCode, NodeHeading, NodeLink, NodeList, NodeValue,
};
use comrak::nodes::{NodeTable, TableAlignment};
use comrak::parser::options::{Options, Plugins};

fn node(arena: &mut Arena<Ast>, parent: Option<Id>, v: NodeValue) -> Id {
    let id = arena.new_node(Ast::new(v, LineColumn { line: 0, column: 0 }));
    if let Some(p) = parent {
        p.append(arena, id);
    }
    id
}

fn text(arena: &mut Arena<Ast>, parent: Id, t: &str) -> Id {
    node(arena, Some(parent), NodeValue::Text(t.to_string()))
}

fn render(arena: &Arena<Ast>, root: Id, options: &Options) -> String {
    let plugins = Plugins::default();
    format_document(arena, root, options, &plugins)
}

fn list(tight: bool, ordered: bool, start: usize) -> NodeList {
    NodeList {
        list_type: if ordered { ListType::Ordered } else { ListType::Bullet },
        marker_offset: 0,
        padding: 2,
        start,
        delimiter: ListDelimType::Period,
        bullet_char: b'-',
        tight,
        is_task_list: false,
    }
}

#[test]
fn render_paragraph_with_inlines() {
    let mut arena = Arena::new();
    let doc = node(&mut arena, None, NodeValue::Document);
    let p = node(&mut arena, Some(doc), NodeValue::Paragraph);
    text(&mut arena, p, "Hello ");
    let em = node(&mut arena, Some(p), NodeValue::Emph);
    text(&mut arena, em, "world");
    text(&mut arena, p, " & ");
    let link = node(
        &mut arena,
        Some(p),
        NodeValue::Link(NodeLink { url: "http://x.org/a b".to_string(), title: "T\"".to_string() }),
    );
    text(&mut arena, link, "x");
    node(&mut arena, Some(p), NodeValue::SoftBreak);
    let code = NodeCode { num_backticks: 1, literal: "a<b".to_string() };
    node(&mut arena, Some(p), NodeValue::Code(code));
    let options = Options::default();
    assert_eq!(
        render(&arena, doc, &options),
        "<p>Hello <em>world</em> &amp; <a href=\"http://x.org/a%20b\" title=\"T&quot;\">x</a>\n<code>a&lt;b</code></p>\n"
    );
}

#[test]
fn render_image_alt_is_plain() {
    let mut arena = Arena::new();
    let doc = node(&mut arena, None, NodeValue::Document);
    let p = node(&mut arena, Some(doc), NodeValue::Paragraph);
    let img = node(
        &mut arena,
        Some(p),
        NodeValue::Image(NodeLink { url: "a.png".to_string(), title: String::new() }),
    );
    text(&mut arena, img, "a ");
    let strong = node(&mut arena, Some(img), NodeValue::Strong);
    text(&mut arena, strong, "b");
    let options = Options::default();
    assert_eq!(render(&arena, doc, &options), "<p><img src=\"a.png\" alt=\"a b\" /></p>\n");
}

#[test]
fn render_dangerous_link_and_raw_html() {
    let mut arena = Arena::new();
    let doc = node(&mut arena, None, NodeValue::Document);
    let p = node(&mut arena, Some(doc), NodeValue::Paragraph);
    let link = node(
        &mut arena,
        Some(p),
        NodeValue::Link(NodeLink { url: "javascript:alert(1)".to_string(), title: String::new() }),
    );
    text(&mut arena, link, "x");
    node(&mut arena, Some(p), NodeValue::HtmlInline("<b>".to_string()));
    let mut options = Options::default();
    assert_eq!(
        render(&arena, doc, &options),
        "<p><a href=\"\">x</a><!-- raw HTML omitted --></p>\n"
    );
    options.render.unsafe_ = true;
    assert_eq!(
        render(&arena, doc, &options),
        "<p><a href=\"javascript:alert(1)\">x</a><b></p>\n"
    );
}

#[test]
fn render_lists_and_blocks() {
    let mut arena = Arena::new();
    let doc = node(&mut arena, None, NodeValue::Document);
    let h = node(&mut arena, Some(doc), NodeValue::Heading(NodeHeading { level: 2, setext: false }));
    text(&mut arena, h, "Title");
    let l = node(&mut arena, Some(doc), NodeValue::List(list(true, true, 3)));
    for t in ["one", "two"].iter() {
        let item = node(&mut arena, Some(l), NodeValue::Item(list(true, true, 3)));
        let p = node(&mut arena, Some(item), NodeValue::Paragraph);
        text(&mut arena, p, t);
    }
    node(&mut arena, Some(doc), NodeValue::ThematicBreak);
    let q = node(&mut arena, Some(doc), NodeValue::BlockQuote);
    let p = node(&mut arena, Some(q), NodeValue::Paragraph);
    text(&mut arena, p, "quoted");
    let options = Options::default();
    assert_eq!(
        render(&arena, doc, &options),
        "<h2>Title</h2>\n<ol start=\"3\">\n<li>one</li>\n<li>two</li>\n</ol>\n<hr />\n<blockquote>\n<p>quoted</p>\n</blockquote>\n"
    );
}

#[test]
fn render_loose_bullet_list_and_sourcepos() {
    let mut arena = Arena::new();
    let doc = node(&mut arena, None, NodeValue::Document);
    let l = node(&mut arena, Some(doc), NodeValue::List(list(false, false, 1)));
    let item = node(&mut arena, Some(l), NodeValue::Item(list(false, false, 1)));
    let p = node(&mut arena, Some(item), NodeValue::Paragraph);
    text(&mut arena, p, "a");
    node(&mut arena, Some(p), NodeValue::LineBreak);
    text(&mut arena, p, "b");
    {
        let ast = p.data_mut(&mut arena);
        ast.sourcepos.start = LineColumn { line: 1, column: 3 };
        ast.sourcepos.end = LineColumn { line: 2, column: 4 };
    }
    let mut options = Options::default();
    assert_eq!(
        render(&arena, doc, &options),
        "<ul>\n<li>\n<p>a<br />\nb</p>\n</li>\n</ul>\n"
    );
    options.render.sourcepos = true;
    assert_eq!(
        render(&arena, doc, &options),
        "<ul>\n<li>\n<p data-sourcepos=\"1:3-2:4\">a<br />\nb</p>\n</li>\n</ul>\n"
    );
}

fn code_block_doc(info: &str, literal: &str) -> (Arena<Ast>, Id) {
    let mut arena = Arena::new();
    let doc = node(&mut arena, None, NodeValue::Document);
    node(
        &mut arena,
        Some(doc),
        NodeValue::CodeBlock(comrak::nodes::NodeCodeBlock {
            fenced: true,
            fence_char: b'`',
            fence_length: 3,
            fence_offset: 0,
            info: info.to_string(),
            literal: literal.to_string(),
        }),
    );
    (arena, doc)
}

#[test]
fn render_code_blocks() {
    let mut options = Options::default();
    let (arena, doc) = code_block_doc("rust extra  ", "fn <x>\n");
    assert_eq!(
        render(&arena, doc, &options),
        "<pre><code class=\"language-rust\">fn &lt;x&gt;\n</code></pre>\n"
    );
    options.render.full_info_string = true;
    assert_eq!(
        render(&arena, doc, &options),
        "<pre><code class=\"language-rust\" data-meta=\"extra\">fn &lt;x&gt;\n</code></pre>\n"
    );
    options.render.github_pre_lang = true;
    assert_eq!(
        render(&arena, doc, &options),
        "<pre lang=\"rust\" data-meta=\"extra\"><code>fn &lt;x&gt;\n</code></pre>\n"
    );
    let (arena, doc) = code_block_doc("", "x\n");
    assert_eq!(render(&arena, doc, &Options::default()), "<pre><code>x\n</code></pre>\n");
    let (arena, doc) = code_block_doc("math", "a^2\n");
    assert_eq!(
        render(&arena, doc, &Options::default()),
        "<pre><code class=\"language-math\" data-math-style=\"display\">a^2\n</code></pre>\n"
    );
}

#[test]
fn render_table_with_header_and_body() {
    let mut arena = Arena::new();
    let doc = node(&mut arena, None, NodeValue::Document);
    let t = node(
        &mut arena,
        Some(doc),
        NodeValue::Table(NodeTable {
            alignments: vec![TableAlignment::Left, TableAlignment::Unaligned],
            num_columns: 2,
            num_rows: 2,
            num_nonempty_cells: 4,
        }),
    );
    for (head, cells) in [(true, ["a", "b"]), (false, ["1", "2"])].iter() {
        let row = node(&mut arena, Some(t), NodeValue::TableRow(*head));
        for c in cells.iter() {
            let cell = node(&mut arena, Some(row), NodeValue::TableCell);
            text(&mut arena, cell, c);
        }
    }
    assert_eq!(
        render(&arena, doc, &Options::default()),
        "<table>\n<thead>\n<tr>\n<th align=\"left\">a</th>\n<th>b</th>\n</tr>\n</thead>\n<tbody>\n<tr>\n<td align=\"left\">1</td>\n<td>2</td>\n</tr>\n</tbody>\n</table>\n"
    );
}

#[test]
fn render_task_items() {
    let mut arena = Arena::new();
    let doc = node(&mut arena, None, NodeValue::Document);
    let l = node(&mut arena, Some(doc), NodeValue::List(list(true, false, 1)));
    let t = node(&mut arena, Some(l), NodeValue::TaskItem(Some('x')));
    let p = node(&mut arena, Some(t), NodeValue::Paragraph);
    text(&mut arena, p, "done");
    let mut options = Options::default();
    assert_eq!(
        render(&arena, doc, &options),
        "<ul>\n<li><input type=\"checkbox\" checked=\"\" disabled=\"\" /> done</li>\n</ul>\n"
    );
    options.render.tasklist_classes = true;
    assert_eq!(
        render(&arena, doc, &options),
        "<ul>\n<li class=\"task-list-item\"><input type=\"checkbox\" class=\"task-list-item-checkbox\" checked=\"\" disabled=\"\" /> done</li>\n</ul>\n"
    );
}

#[test]
fn render_heading_anchors() {
    let mut arena = Arena::new();
    let doc = node(&mut arena, None, NodeValue::Document);
    for _ in 0..2 {
        let h = node(&mut arena, Some(doc), NodeValue::Heading(NodeHeading { level: 1, setext: false }));
        text(&mut arena, h, "Hello ");
        let em = node(&mut arena, Some(h), NodeValue::Emph);
        text(&mut arena, em, "World");
    }
    let mut options = Options::default();
    options.extension.header_ids = Some("user-content-".to_string());
    assert_eq!(
        render(&arena, doc, &options),
        "<h1><a href=\"#hello-world\" aria-hidden=\"true\" class=\"anchor\" id=\"user-content-hello-world\"></a>Hello <em>World</em></h1>\n\
         <h1><a href=\"#hello-world-1\" aria-hidden=\"true\" class=\"anchor\" id=\"user-content-hello-world-1\"></a>Hello <em>World</em></h1>\n"
    );
}

#[test]
fn collect_text_gathers_literals() {
    let mut arena = Arena::new();
    let p = node(&mut arena, None, NodeValue::Paragraph);
    text(&mut arena, p, "a");
    let em = node(&mut arena, Some(p), NodeValue::Emph);
    text(&mut arena, em, "b");
    node(&mut arena, Some(p), NodeValue::SoftBreak);
    let code = NodeCode { num_backticks: 1, literal: "c".to_string() };
    node(&mut arena, Some(p), NodeValue::Code(code));
    assert_eq!(comrak::html::render::collect_text(&arena, p), "ab c");
}

#[test]
fn render_math_shortcode_and_footnote_reference() {
    let mut arena = Arena::new();
    let doc = node(&mut arena, None, NodeValue::Document);
    let p = node(&mut arena, Some(doc), NodeValue::Paragraph);
    node(
        &mut arena,
        Some(p),
        NodeValue::Math(comrak::parser::math::NodeMath {
            dollar_math: true,
            display_math: false,
            literal: "x<y".to_string(),
        }),
    );
    node(
        &mut arena,
        Some(p),
        NodeValue::ShortCode(comrak::parser::shortcodes::NodeShortCode {
            code: "rabbit".to_string(),
            emoji: "🐰".to_string(),
        }),
    );
    node(
        &mut arena,
        Some(p),
        NodeValue::FootnoteReference(comrak::nodes::NodeFootnoteReference {
            name: "a b".to_string(),
            ref_num: 2,
            ix: 3,
        }),
    );
    assert_eq!(
        render(&arena, doc, &Options::default()),
        "<p><span data-math-style=\"inline\">x&lt;y</span>🐰<sup class=\"footnote-ref\"><a href=\"#fn-a%20b\" id=\"fnref-a%20b-2\" data-footnote-ref>3</a></sup></p>\n"
    );
}

#[test]
fn render_footnote_definition_section() {
    let mut arena = Arena::new();
    let doc = node(&mut arena, None, NodeValue::Document);
    let p = node(&mut arena, Some(doc), NodeValue::Paragraph);
    text(&mut arena, p, "see");
    let fd = node(
        &mut arena,
        Some(doc),
        NodeValue::FootnoteDefinition(comrak::nodes::NodeFootnoteDefinition {
            name: "1".to_string(),
            total_references: 1,
        }),
    );
    let q = node(&mut arena, Some(fd), NodeValue::Paragraph);
    text(&mut arena, q, "note");
    assert_eq!(
        render(&arena, doc, &Options::default()),
        "<p>see</p>\n<section class=\"footnotes\" data-footnotes>\n<ol>\n<li id=\"fn-1\">\n<p>note <a href=\"#fnref-1\" class=\"footnote-backref\" data-footnote-backref data-footnote-backref-idx=\"1\" aria-label=\"Back to reference 1\">\u{21a9}</a></p>\n</li>\n</ol>\n</section>\n"
    );
}
