use comrak::arena_tree::Arena;
use comrak::nodes::{Ast, LineColumn, NodeValue, Sourcepos};
use comrak::parser::inlines::delims::handle_delim;
use comrak::parser::inlines::emphasis::DelimiterStack;
use comrak::parser::inlines::Scanner;
use comrak::parser::options::Options;

fn text_of(arena: &Arena<Ast>, id: comrak::arena_tree::Id) -> String {
    match &id.data(arena).value {
        NodeValue::Text(t) => t.clone(),
        _ => panic!("not text"),
    }
}

#[test]
fn delim_run_becomes_text_and_opener() {
    let mut arena = Arena::new();
    let mut stack = DelimiterStack::new();
    let mut scanner = Scanner::new();
    let options = Options::default();
    let inl = handle_delim(&mut scanner, &mut stack, &mut arena, "**foo", b'*', &options, 1, 0, 0);
    assert_eq!(scanner.pos, 2);
    assert_eq!(text_of(&arena, inl), "**");
    assert_eq!(
        inl.data(&arena).sourcepos,
        Sourcepos { start: LineColumn { line: 1, column: 1 }, end: LineColumn { line: 1, column: 2 } }
    );
    let top = stack.last_delimiter().expect("pushed");
    let d = stack.get(top);
    assert_eq!(d.inl, inl);
    assert_eq!(d.position, 2);
    assert_eq!(d.length, 2);
    assert!(d.can_open && !d.can_close);
}

#[test]
fn delim_column_offsets_move_the_span() {
    let mut arena = Arena::new();
    let mut stack = DelimiterStack::new();
    let mut scanner = Scanner::new();
    scanner.pos = 3;
    let options = Options::default();
    let inl = handle_delim(&mut scanner, &mut stack, &mut arena, "foo_ bar", b'_', &options, 4, 2, 5);
    assert_eq!(text_of(&arena, inl), "_");
    assert_eq!(
        inl.data(&arena).sourcepos,
        Sourcepos { start: LineColumn { line: 4, column: 11 }, end: LineColumn { line: 4, column: 11 } }
    );
    assert_eq!(scanner.pos, 4);
    let d = stack.get(stack.last_delimiter().expect("pushed"));
    assert_eq!(d.position, 4);
    assert!(!d.can_open && d.can_close);
}

#[test]
fn smart_quote_is_curly_and_pushed() {
    let mut arena = Arena::new();
    let mut stack = DelimiterStack::new();
    let mut scanner = Scanner::new();
    let mut options = Options::default();
    options.parse.smart = true;
    let inl = handle_delim(&mut scanner, &mut stack, &mut arena, "\"x", b'"', &options, 1, 0, 0);
    assert_eq!(text_of(&arena, inl), "\u{201c}");
    let d = stack.get(stack.last_delimiter().expect("pushed"));
    assert_eq!(d.length, 3);
    assert!(d.can_open);
}

#[test]
fn plain_quote_is_not_pushed() {
    let mut arena = Arena::new();
    let mut stack = DelimiterStack::new();
    let mut scanner = Scanner::new();
    let options = Options::default();
    let inl = handle_delim(&mut scanner, &mut stack, &mut arena, "'x", b'\'', &options, 1, 0, 0);
    assert_eq!(text_of(&arena, inl), "'");
    assert!(stack.last_delimiter().is_none());
}
