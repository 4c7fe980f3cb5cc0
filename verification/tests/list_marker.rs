use comrak::nodes::{ListDelimType, ListType};
use comrak::parser::list_marker::parse_list_marker;

#[test]
fn bullet_markers() {
    let (n, l) = parse_list_marker("* a\n", 0, false).unwrap();
    assert_eq!(n, 1);
    assert_eq!(l.list_type, ListType::Bullet);
    assert_eq!(l.bullet_char, b'*');
    assert_eq!(l.start, 1);
    let (n, l) = parse_list_marker("  + b\n", 2, false).unwrap();
    assert_eq!(n, 1);
    assert_eq!(l.bullet_char, b'+');
    assert!(parse_list_marker("*x\n", 0, false).is_none());
}

#[test]
fn empty_bullet_cannot_interrupt_paragraph() {
    assert!(parse_list_marker("-\n", 0, false).is_some());
    assert!(parse_list_marker("-\n", 0, true).is_none());
    assert!(parse_list_marker("-  \t\n", 0, true).is_none());
    assert!(parse_list_marker("- a\n", 0, true).is_some());
}

#[test]
fn ordered_markers() {
    let (n, l) = parse_list_marker("1. x\n", 0, false).unwrap();
    assert_eq!(n, 2);
    assert_eq!(l.list_type, ListType::Ordered);
    assert_eq!(l.start, 1);
    assert_eq!(l.delimiter, ListDelimType::Period);
    assert_eq!(l.bullet_char, 0);
    let (n, l) = parse_list_marker("12) x\n", 0, false).unwrap();
    assert_eq!(n, 3);
    assert_eq!(l.start, 12);
    assert_eq!(l.delimiter, ListDelimType::Paren);
    assert!(parse_list_marker("1.x\n", 0, false).is_none());
    assert!(parse_list_marker("1: x\n", 0, false).is_none());
}

#[test]
fn ordinals_have_at_most_nine_digits() {
    let (n, l) = parse_list_marker("123456789. a\n", 0, false).unwrap();
    assert_eq!(n, 10);
    assert_eq!(l.start, 123456789);
    assert!(parse_list_marker("1234567890. a\n", 0, false).is_none());
}

#[test]
fn interrupting_ordinal_must_be_one() {
    assert!(parse_list_marker("2. x\n", 0, true).is_none());
    assert!(parse_list_marker("1. x\n", 0, true).is_some());
    assert!(parse_list_marker("1.\n", 0, true).is_none());
    assert!(parse_list_marker("1.\n", 0, false).is_some());
}

#[test]
fn other_bytes_start_no_marker() {
    assert!(parse_list_marker("a\n", 0, false).is_none());
    assert!(parse_list_marker("\n", 0, false).is_none());
}
