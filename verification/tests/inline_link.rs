use comrak::parser::inlines::Scanner;

fn scan(input: &str) -> (Option<(String, String)>, usize) {
    let mut s = Scanner::new();
    let r = s.inline_link(input);
    (r, s.pos)
}

fn some(url: &str, title: &str) -> Option<(String, String)> {
    Some((url.to_string(), title.to_string()))
}

#[test]
fn inline_link_with_title() {
    let input = "(http://example.com \"the title\") rest";
    assert_eq!(scan(input), (some("http://example.com", "the title"), 32));
    assert_eq!(scan("(/url 'single')"), (some("/url", "single"), 15));
    assert_eq!(scan("(/url (paren))"), (some("/url", "paren"), 14));
}

#[test]
fn inline_link_without_title() {
    assert_eq!(scan("(foo)bar"), (some("foo", ""), 5));
    assert_eq!(scan("(  foo  )"), (some("foo", ""), 9));
    assert_eq!(scan("()"), (some("", ""), 2));
}

#[test]
fn inline_link_angle_destination() {
    assert_eq!(scan("(<a b> \"t\")"), (some("a b", "t"), 11));
}

#[test]
fn inline_link_escapes_and_entities() {
    assert_eq!(scan("(a\\)b)"), (some("a)b", ""), 6));
    assert_eq!(scan("(a&amp;b \"x &quot;y&quot;\")"), (some("a&b", "x \"y\""), 27));
}

#[test]
fn inline_link_rejected() {
    assert_eq!(scan("(foo \"t\" x)"), (None, 0));
    assert_eq!(scan("[foo]"), (None, 0));
    assert_eq!(scan("("), (None, 0));
    assert_eq!(scan(""), (None, 0));
    assert_eq!(scan("(foo"), (None, 0));
}

fn label(input: &str, text_start: usize, pos: usize, bracket_after: bool) -> (Option<String>, usize) {
    let mut s = Scanner::new();
    s.pos = pos;
    let r = s.reference_label(input, text_start, bracket_after);
    (r, s.pos)
}

#[test]
fn reference_label_full() {
    assert_eq!(label("[Foo Bar][ Baz  Qux ]x", 1, 9, false), (Some("baz qux".to_string()), 21));
}

#[test]
fn reference_label_collapsed_and_shortcut() {
    assert_eq!(label("[Foo  Bar][]", 1, 10, false), (Some("foo bar".to_string()), 12));
    assert_eq!(label("[Foo] x", 1, 5, false), (Some("foo".to_string()), 5));
}

#[test]
fn reference_label_after_bracket() {
    assert_eq!(label("[Foo] x", 1, 5, true), (None, 5));
    assert_eq!(label("[Foo][]", 1, 5, true), (Some(String::new()), 7));
}

use comrak::arena_tree::{Arena, Id};
use comrak::nodes::{Ast, LineColumn, NodeValue};
use comrak::parser::inlines::link::close_bracket_match;

fn text_node(arena: &mut Arena<Ast>, t: &str) -> Id {
    arena.new_node(Ast::new(NodeValue::Text(t.to_string()), LineColumn { line: 1, column: 1 }))
}

fn kids(arena: &Arena<Ast>, id: Id) -> Vec<Id> {
    let mut out = Vec::new();
    let mut c = id.first_child(arena);
    while let Some(x) = c {
        out.push(x);
        c = x.next_sibling(arena);
    }
    out
}

fn build_bracketed() -> (Arena<Ast>, Id, Id, Vec<Id>, Id) {
    let mut arena = Arena::new();
    let para = arena.new_node(Ast::new(NodeValue::Paragraph, LineColumn { line: 1, column: 1 }));
    let before = text_node(&mut arena, "a ");
    let opener = text_node(&mut arena, "[");
    let inner: Vec<Id> = ["foo", " ", "bar"].iter().map(|t| text_node(&mut arena, t)).collect();
    para.append(&mut arena, before);
    para.append(&mut arena, opener);
    for i in inner.iter() {
        para.append(&mut arena, *i);
    }
    (arena, para, before, inner, opener)
}

#[test]
fn close_bracket_match_wraps_link_text() {
    let (mut arena, para, before, inner, opener) = build_bracketed();
    let link = close_bracket_match(
        &mut arena,
        opener,
        false,
        "/url".to_string(),
        "title".to_string(),
        LineColumn { line: 1, column: 3 },
    );
    assert_eq!(kids(&arena, para), vec![before, link]);
    assert_eq!(kids(&arena, link), inner);
    assert_eq!(opener.parent(&arena), None);
    match &link.data(&arena).value {
        NodeValue::Link(l) => {
            assert_eq!(l.url, "/url");
            assert_eq!(l.title, "title");
        }
        _ => panic!("not a link"),
    }
}

#[test]
fn close_bracket_match_image_with_empty_text() {
    let mut arena = Arena::new();
    let para = arena.new_node(Ast::new(NodeValue::Paragraph, LineColumn { line: 1, column: 1 }));
    let opener = text_node(&mut arena, "![");
    para.append(&mut arena, opener);
    let img = close_bracket_match(
        &mut arena,
        opener,
        true,
        "a.png".to_string(),
        String::new(),
        LineColumn { line: 1, column: 1 },
    );
    assert_eq!(kids(&arena, para), vec![img]);
    assert!(kids(&arena, img).is_empty());
    assert!(matches!(img.data(&arena).value, NodeValue::Image(_)));
}

#[test]
fn move_following_into_keeps_order() {
    let (mut arena, para, before, inner, opener) = build_bracketed();
    let w = arena.new_node(Ast::new(NodeValue::Emph, LineColumn { line: 1, column: 1 }));
    opener.move_following_into(&mut arena, w);
    assert_eq!(kids(&arena, para), vec![before, opener]);
    assert_eq!(kids(&arena, w), inner);
    assert_eq!(opener.next_sibling(&arena), None);
}
