use comrak::nodes::NodeValue;
use comrak::parser::inlines::code_span::BacktickMemo;
use comrak::parser::inlines::Scanner;

fn span(input: &str, pos: usize) -> (NodeValue, usize, BacktickMemo) {
    let mut memo = BacktickMemo::new();
    let mut s = Scanner::new();
    s.pos = pos;
    let v = memo.handle_backticks(&mut s, input);
    (v, s.pos, memo)
}

fn code_of(v: &NodeValue) -> (usize, String) {
    match v {
        NodeValue::Code(c) => (c.num_backticks, c.literal.clone()),
        _ => panic!("not code"),
    }
}

#[test]
fn simple_code_span() {
    let (v, pos, _) = span("`code` x", 0);
    assert_eq!(code_of(&v), (1, "code".to_string()));
    assert_eq!(pos, 6);
}

#[test]
fn longer_fence_holds_backtick() {
    let (v, pos, _) = span("``a`b``", 0);
    assert_eq!(code_of(&v), (2, "a`b".to_string()));
    assert_eq!(pos, 7);
}

#[test]
fn one_space_stripped_each_side() {
    let (v, _, _) = span("` a `", 0);
    assert_eq!(code_of(&v), (1, "a".to_string()));
    let (v, _, _) = span("`  `", 0);
    assert_eq!(code_of(&v), (1, "  ".to_string()));
}

#[test]
fn unclosed_run_is_text() {
    let (v, pos, memo) = span("``a`", 0);
    assert_eq!(v, NodeValue::Text("``".to_string()));
    assert_eq!(pos, 2);
    assert!(memo.scanned_for_backticks);
    assert_eq!(memo.backticks[1], 3);
}

#[test]
fn memo_cuts_search_short() {
    let mut memo = BacktickMemo::new();
    let mut s = Scanner::new();
    s.pos = 1;
    // "`a``b": searching for one backtick from 1 meets a run of two at 2.
    assert_eq!(memo.scan_to_closing_backtick(&mut s, "`a``b", 1), None);
    assert!(memo.scanned_for_backticks);
    assert_eq!(memo.backticks[2], 2);
    // A run of two cannot start after 2, so the next search stops at once.
    let mut t = Scanner::new();
    t.pos = 4;
    assert_eq!(memo.scan_to_closing_backtick(&mut t, "`a``b", 2), None);
    assert_eq!(t.pos, 4);
}

#[test]
fn overlong_runs_are_not_searched() {
    let mut memo = BacktickMemo::new();
    let mut s = Scanner::new();
    assert_eq!(memo.scan_to_closing_backtick(&mut s, "```", 81), None);
    assert_eq!(s.pos, 0);
    assert!(!memo.scanned_for_backticks);
}

#[test]
fn take_while_counts_run() {
    let mut s = Scanner::new();
    assert_eq!(s.take_while("***a", b'*'), 3);
    assert_eq!(s.pos, 3);
    assert_eq!(s.take_while("***a", b'*'), 0);
}
