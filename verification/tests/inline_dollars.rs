use comrak::arena_tree::{Arena, Id};
use comrak::nodes::{Ast, LineColumn, NodeValue, Sourcepos};
use comrak::parser::inlines::dollars::handle_dollars;
use comrak::parser::inlines::Scanner;
use comrak::parser::options::Options;

fn span(l1: usize, c1: usize, l2: usize, c2: usize) -> Sourcepos {
    Sourcepos { start: LineColumn { line: l1, column: c1 }, end: LineColumn { line: l2, column: c2 } }
}

fn run(input: &str, options: &Options, plo: &Vec<usize>) -> (Arena<Ast>, Id, usize, usize, isize) {
    let mut arena = Arena::new();
    let mut scanner = Scanner::new();
    let mut line: usize = 1;
    let mut co: isize = 0;
    let r = handle_dollars(&mut scanner, &mut arena, input, options, &mut line, &mut co, 0, plo);
    (arena, r, scanner.pos, line, co)
}

fn math_opts() -> Options<'static> {
    let mut o = Options::default();
    o.extension.math_dollars = true;
    o.extension.math_code = true;
    o
}

#[test]
fn dollar_is_text_without_math() {
    let (arena, r, pos, _, _) = run("$x$", &Options::default(), &vec![0]);
    assert_eq!(pos, 1);
    assert!(matches!(&r.data(&arena).value, NodeValue::Text(t) if t == "$"));
    assert_eq!(r.data(&arena).sourcepos, span(1, 1, 1, 1));
}

#[test]
fn inline_math_span() {
    let (arena, r, pos, line, co) = run("$x+1$ y", &math_opts(), &vec![0]);
    assert_eq!(pos, 5);
    match &r.data(&arena).value {
        NodeValue::Math(m) => {
            assert!(m.dollar_math && !m.display_math);
            assert_eq!(m.literal, "x+1");
        }
        _ => panic!("not math"),
    }
    assert_eq!(r.data(&arena).sourcepos, span(1, 1, 1, 5));
    assert_eq!((line, co), (1, 0));
}

#[test]
fn display_math_keeps_literal() {
    let (arena, r, pos, _, _) = run("$$ a $$", &math_opts(), &vec![0]);
    assert_eq!(pos, 7);
    match &r.data(&arena).value {
        NodeValue::Math(m) => {
            assert!(m.dollar_math && m.display_math);
            assert_eq!(m.literal, " a ");
        }
        _ => panic!("not math"),
    }
}

#[test]
fn code_math() {
    let (arena, r, pos, _, _) = run("$`x`$", &math_opts(), &vec![0]);
    assert_eq!(pos, 5);
    match &r.data(&arena).value {
        NodeValue::Math(m) => {
            assert!(!m.dollar_math && !m.display_math);
            assert_eq!(m.literal, "x");
        }
        _ => panic!("not math"),
    }
}

#[test]
fn unclosed_dollars_stay_text() {
    let (arena, r, pos, _, _) = run("$$a", &math_opts(), &vec![0]);
    assert_eq!(pos, 2);
    assert!(matches!(&r.data(&arena).value, NodeValue::Text(t) if t == "$$"));
    assert_eq!(r.data(&arena).sourcepos, span(1, 1, 1, 2));
}

#[test]
fn digit_after_closing_dollar_is_no_math() {
    let (arena, r, pos, _, _) = run("$a$5", &math_opts(), &vec![0]);
    assert_eq!(pos, 1);
    assert!(matches!(&r.data(&arena).value, NodeValue::Text(t) if t == "$"));
}

#[test]
fn math_over_two_lines() {
    let (arena, r, pos, line, co) = run("$a\nb$", &math_opts(), &vec![0, 4]);
    assert_eq!(pos, 5);
    match &r.data(&arena).value {
        NodeValue::Math(m) => assert_eq!(m.literal, "a b"),
        _ => panic!("not math"),
    }
    assert_eq!(r.data(&arena).sourcepos, span(1, 1, 2, 6));
    assert_eq!((line, co), (2, -3));
}

#[test]
fn space_before_closing_dollar_is_no_math() {
    let (arena, r, pos, _, _) = run("$5 and $6", &math_opts(), &vec![0]);
    assert_eq!(pos, 1);
    assert!(matches!(&r.data(&arena).value, NodeValue::Text(t) if t == "$"));
}
