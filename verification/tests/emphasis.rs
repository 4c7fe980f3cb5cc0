use comrak::arena_tree::{Arena, Id};
use comrak::nodes::{Ast, LineColumn, NodeValue, Sourcepos};
use comrak::parser::inlines::emphasis::{make_inline, DelimiterStack};
use comrak::parser::options::Options;

/// A paragraph whose children are text nodes for `pieces`, laid out one
/// after another from column 1.  Returns the arena, the paragraph, and the
/// text nodes.
fn paragraph(pieces: &[&str]) -> (Arena<Ast>, Id, Vec<Id>) {
    let mut arena = Arena::new();
    let para = arena.new_node(Ast::new(NodeValue::Paragraph, LineColumn { line: 1, column: 1 }));
    let mut ids = Vec::new();
    let mut col = 1;
    for p in pieces {
        let len = p.len();
        let id = make_inline(
            &mut arena,
            NodeValue::Text(p.to_string()),
            Sourcepos {
                start: LineColumn { line: 1, column: col },
                end: LineColumn { line: 1, column: col + len - 1 },
            },
        );
        para.append(&mut arena, id);
        ids.push(id);
        col += len;
    }
    (arena, para, ids)
}

fn kids(arena: &Arena<Ast>, id: Id) -> Vec<Id> {
    let mut out = Vec::new();
    let mut it = id.first_child(arena);
    while let Some(c) = it {
        out.push(c);
        it = c.next_sibling(arena);
    }
    out
}

fn value(arena: &Arena<Ast>, id: Id) -> NodeValue {
    id.data(arena).value.clone()
}

fn text(s: &str) -> NodeValue {
    NodeValue::Text(s.to_string())
}

/// Push a delimiter for the run held by `inl`, which ends just before
/// `position`.
fn push(stack: &mut DelimiterStack, arena: &Arena<Ast>, b: u8, open: bool, close: bool, inl: Id, position: usize) -> usize {
    let length = inl.data(arena).value.text().unwrap().len();
    stack.push_delimiter(b, open, close, inl, position, length)
}

#[test]
fn single_stars_make_emph() {
    let (mut arena, para, ids) = paragraph(&["*", "foo", "*"]);
    let mut stack = DelimiterStack::new();
    push(&mut stack, &arena, b'*', true, false, ids[0], 1);
    push(&mut stack, &arena, b'*', false, true, ids[2], 5);
    stack.process_emphasis(&mut arena, &Options::default(), 0);
    let top = kids(&arena, para);
    assert_eq!(top.len(), 1);
    assert_eq!(value(&arena, top[0]), NodeValue::Emph);
    let inner = kids(&arena, top[0]);
    assert_eq!(inner, vec![ids[1]]);
    assert_eq!(value(&arena, inner[0]), text("foo"));
    assert_eq!(stack.last_delimiter(), None);
    // the used-up runs have left the tree
    assert_eq!(ids[0].parent(&arena), None);
    assert_eq!(ids[2].parent(&arena), None);
    // the new node spans the runs it used and the text between them
    let sp = top[0].data(&arena).sourcepos;
    assert_eq!((sp.start.column, sp.end.column), (1, 5));
}

#[test]
fn double_stars_make_strong() {
    let (mut arena, para, ids) = paragraph(&["**", "foo", "**"]);
    let mut stack = DelimiterStack::new();
    push(&mut stack, &arena, b'*', true, false, ids[0], 2);
    push(&mut stack, &arena, b'*', false, true, ids[2], 7);
    stack.process_emphasis(&mut arena, &Options::default(), 0);
    let top = kids(&arena, para);
    assert_eq!(top.len(), 1);
    assert_eq!(value(&arena, top[0]), NodeValue::Strong);
    assert_eq!(kids(&arena, top[0]), vec![ids[1]]);
}

#[test]
fn triple_stars_nest_strong_in_emph() {
    let (mut arena, para, ids) = paragraph(&["***", "foo", "***"]);
    let mut stack = DelimiterStack::new();
    push(&mut stack, &arena, b'*', true, false, ids[0], 3);
    push(&mut stack, &arena, b'*', false, true, ids[2], 9);
    stack.process_emphasis(&mut arena, &Options::default(), 0);
    let top = kids(&arena, para);
    assert_eq!(top.len(), 1);
    assert_eq!(value(&arena, top[0]), NodeValue::Emph);
    let mid = kids(&arena, top[0]);
    assert_eq!(mid.len(), 1);
    assert_eq!(value(&arena, mid[0]), NodeValue::Strong);
    assert_eq!(kids(&arena, mid[0]), vec![ids[1]]);
}

#[test]
fn leftover_closer_stays_as_text() {
    let (mut arena, para, ids) = paragraph(&["*", "foo", "**"]);
    let mut stack = DelimiterStack::new();
    push(&mut stack, &arena, b'*', true, false, ids[0], 1);
    push(&mut stack, &arena, b'*', false, true, ids[2], 6);
    stack.process_emphasis(&mut arena, &Options::default(), 0);
    let top = kids(&arena, para);
    assert_eq!(top.len(), 2);
    assert_eq!(value(&arena, top[0]), NodeValue::Emph);
    assert_eq!(top[1], ids[2]);
    assert_eq!(value(&arena, top[1]), text("*"));
    let sp = top[1].data(&arena).sourcepos;
    assert_eq!((sp.start.column, sp.end.column), (6, 6));
    assert_eq!(stack.last_delimiter(), None);
}

#[test]
fn unmatched_runs_stay_as_text() {
    let (mut arena, para, ids) = paragraph(&["*", "foo"]);
    let mut stack = DelimiterStack::new();
    push(&mut stack, &arena, b'*', true, false, ids[0], 1);
    stack.process_emphasis(&mut arena, &Options::default(), 0);
    assert_eq!(kids(&arena, para), ids);
    assert_eq!(value(&arena, ids[0]), text("*"));
    assert_eq!(stack.last_delimiter(), None);
}

#[test]
fn different_bytes_do_not_match() {
    let (mut arena, para, ids) = paragraph(&["*", "foo", "_"]);
    let mut stack = DelimiterStack::new();
    push(&mut stack, &arena, b'*', true, false, ids[0], 1);
    push(&mut stack, &arena, b'_', false, true, ids[2], 5);
    stack.process_emphasis(&mut arena, &Options::default(), 0);
    assert_eq!(kids(&arena, para), ids);
}

#[test]
fn strikethrough_needs_equal_runs() {
    let mut options = Options::default();
    options.extension.strikethrough = true;
    let (mut arena, para, ids) = paragraph(&["~~", "foo", "~~"]);
    let mut stack = DelimiterStack::new();
    push(&mut stack, &arena, b'~', true, false, ids[0], 2);
    push(&mut stack, &arena, b'~', false, true, ids[2], 7);
    stack.process_emphasis(&mut arena, &options, 0);
    let top = kids(&arena, para);
    assert_eq!(top.len(), 1);
    assert_eq!(value(&arena, top[0]), NodeValue::Strikethrough);

    let (mut arena, para, ids) = paragraph(&["~~", "foo", "~"]);
    let mut stack = DelimiterStack::new();
    let o = push(&mut stack, &arena, b'~', true, false, ids[0], 2);
    let c = push(&mut stack, &arena, b'~', false, true, ids[2], 6);
    // the match is turned down and nothing changes
    assert_eq!(stack.insert_emph(&mut arena, &options, o, c), None);
    assert_eq!(kids(&arena, para), ids);
    assert_eq!(value(&arena, ids[0]), text("~~"));
    assert_eq!(stack.last_delimiter(), Some(c));
}

#[test]
fn tilde_without_strikethrough_is_escaped_tag() {
    let mut options = Options::default();
    options.extension.subscript = true;
    let (mut arena, para, ids) = paragraph(&["~", "x", "~"]);
    let mut stack = DelimiterStack::new();
    push(&mut stack, &arena, b'~', true, false, ids[0], 1);
    push(&mut stack, &arena, b'~', false, true, ids[2], 3);
    stack.process_emphasis(&mut arena, &options, 0);
    let top = kids(&arena, para);
    assert_eq!(value(&arena, top[0]), NodeValue::Subscript);
}

#[test]
fn underline_and_spoiler() {
    let mut options = Options::default();
    options.extension.underline = true;
    options.extension.spoiler = true;
    let (mut arena, para, ids) = paragraph(&["__", "u", "__", "||", "s", "||"]);
    let mut stack = DelimiterStack::new();
    push(&mut stack, &arena, b'_', true, false, ids[0], 2);
    push(&mut stack, &arena, b'_', false, true, ids[2], 5);
    push(&mut stack, &arena, b'|', true, false, ids[3], 7);
    push(&mut stack, &arena, b'|', false, true, ids[5], 10);
    stack.process_emphasis(&mut arena, &options, 0);
    let top = kids(&arena, para);
    assert_eq!(top.len(), 2);
    assert_eq!(value(&arena, top[0]), NodeValue::Underline);
    assert_eq!(value(&arena, top[1]), NodeValue::SpoileredText);
}

#[test]
fn smart_quotes_curl() {
    let (mut arena, para, ids) = paragraph(&["’", "foo", "’"]);
    let mut stack = DelimiterStack::new();
    push(&mut stack, &arena, b'\'', true, false, ids[0], 1);
    push(&mut stack, &arena, b'\'', false, true, ids[2], 5);
    stack.process_emphasis(&mut arena, &Options::default(), 0);
    assert_eq!(kids(&arena, para), ids);
    assert_eq!(value(&arena, ids[0]), text("‘"));
    assert_eq!(value(&arena, ids[2]), text("’"));

    let (mut arena, _para, ids) = paragraph(&["“", "foo", "\""]);
    let mut stack = DelimiterStack::new();
    push(&mut stack, &arena, b'"', true, false, ids[0], 1);
    push(&mut stack, &arena, b'"', false, true, ids[2], 5);
    stack.process_emphasis(&mut arena, &Options::default(), 0);
    assert_eq!(value(&arena, ids[0]), text("“"));
    assert_eq!(value(&arena, ids[2]), text("”"));
}

#[test]
fn stack_bottom_leaves_lower_runs() {
    let (mut arena, para, ids) = paragraph(&["*", "a", "*", "b", "*"]);
    let mut stack = DelimiterStack::new();
    let first = push(&mut stack, &arena, b'*', true, false, ids[0], 1);
    push(&mut stack, &arena, b'*', true, false, ids[2], 3);
    push(&mut stack, &arena, b'*', false, true, ids[4], 5);
    stack.process_emphasis(&mut arena, &Options::default(), 2);
    // only the runs at or past position 2 were processed
    let top = kids(&arena, para);
    assert_eq!(top.len(), 3);
    assert_eq!(top[0], ids[0]);
    assert_eq!(top[1], ids[1]);
    assert_eq!(value(&arena, top[2]), NodeValue::Emph);
    assert_eq!(stack.last_delimiter(), Some(first));
}

#[test]
fn rule_of_three() {
    // `*foo**bar*`: the middle run can open and close, and does not pair
    // with the first, so the outer runs make one emphasis around it.
    let (mut arena, para, ids) = paragraph(&["*", "foo", "**", "bar", "*"]);
    let mut stack = DelimiterStack::new();
    push(&mut stack, &arena, b'*', true, false, ids[0], 1);
    push(&mut stack, &arena, b'*', true, true, ids[2], 6);
    push(&mut stack, &arena, b'*', false, true, ids[4], 10);
    stack.process_emphasis(&mut arena, &Options::default(), 0);
    let top = kids(&arena, para);
    assert_eq!(top.len(), 1);
    assert_eq!(value(&arena, top[0]), NodeValue::Emph);
    assert_eq!(kids(&arena, top[0]), vec![ids[1], ids[2], ids[3]]);
    assert_eq!(value(&arena, ids[2]), text("**"));
}

#[test]
fn push_and_remove_delimiters() {
    let (arena, _para, ids) = paragraph(&["*", "a", "_", "b", "*"]);
    let mut stack = DelimiterStack::new();
    let a = push(&mut stack, &arena, b'*', true, false, ids[0], 1);
    let b = push(&mut stack, &arena, b'_', true, true, ids[2], 3);
    let c = push(&mut stack, &arena, b'*', false, true, ids[4], 5);
    assert_eq!(stack.last_delimiter(), Some(c));
    assert_eq!(stack.get(b).prev, Some(a));
    assert_eq!(stack.get(b).next, Some(c));
    stack.remove_delimiter(b);
    assert_eq!(stack.get(a).next, Some(c));
    assert_eq!(stack.get(c).prev, Some(a));
    stack.remove_delimiters(2);
    assert_eq!(stack.last_delimiter(), Some(a));
    assert_eq!(stack.get(a).next, None);
    stack.remove_delimiters(0);
    assert_eq!(stack.last_delimiter(), None);
}
