use comrak::parser::inlines::delims::get_before_char;
use comrak::parser::inlines::Scanner;
use comrak::parser::options::Extension;

fn scan(input: &str, pos: usize, ext: &Extension) -> (usize, bool, bool, usize) {
    let mut s = Scanner::new();
    s.pos = pos;
    let d = input.as_bytes()[pos];
    let (n, open, close) = s.scan_delims(input, d, ext);
    (n, open, close, s.pos)
}

#[test]
fn star_opens_at_start_of_word() {
    let ext = Extension::default();
    assert_eq!(scan("*foo*", 0, &ext), (1, true, false, 1));
    assert_eq!(scan("*foo*", 4, &ext), (1, false, true, 5));
}

#[test]
fn double_star_run() {
    let ext = Extension::default();
    assert_eq!(scan("**bold** x", 0, &ext), (2, true, false, 2));
    assert_eq!(scan("**bold** x", 6, &ext), (2, false, true, 8));
}

#[test]
fn underscore_inside_word_neither_opens_nor_closes() {
    let ext = Extension::default();
    assert_eq!(scan("foo_bar_", 3, &ext), (1, false, false, 4));
    assert_eq!(scan("foo_bar_", 7, &ext), (1, false, true, 8));
}

#[test]
fn star_inside_word_both_ways() {
    let ext = Extension::default();
    assert_eq!(scan("foo*bar", 3, &ext), (1, true, true, 4));
}

#[test]
fn star_between_spaces_is_literal() {
    let ext = Extension::default();
    assert_eq!(scan("a * b", 2, &ext), (1, false, false, 3));
}

#[test]
fn punctuation_neighbours() {
    let ext = Extension::default();
    // A run after punctuation and before a letter only opens.
    assert_eq!(scan("a.*b", 2, &ext), (1, true, false, 3));
    // A run after a letter and before punctuation only closes.
    assert_eq!(scan("b*.", 1, &ext), (1, false, true, 2));
}

#[test]
fn quotes_count_one() {
    let ext = Extension::default();
    assert_eq!(scan("'hi'", 0, &ext), (1, true, false, 1));
    assert_eq!(scan("'hi'", 3, &ext), (1, false, true, 4));
    assert_eq!(scan("(\"x", 1, &ext), (1, true, false, 2));
}

#[test]
fn tildes_with_strikethrough() {
    let mut ext = Extension::default();
    ext.strikethrough = true;
    assert_eq!(scan("~~a~~", 0, &ext), (2, true, false, 2));
    assert_eq!(scan("~~a~~", 3, &ext), (2, false, true, 5));
}

#[test]
fn multibyte_neighbours() {
    let ext = Extension::default();
    // U+65E5 U+672C then '*' at byte 6, then U+8A9E.
    let s = "\u{65e5}\u{672c}*\u{8a9e}";
    assert_eq!(scan(s, 6, &ext), (1, true, true, 7));
}

#[test]
fn before_char_examples() {
    assert_eq!(get_before_char("ab", 0, false), ('\n', None));
    assert_eq!(get_before_char("ab", 2, false), ('b', Some(1)));
    assert_eq!(get_before_char("a\u{e9}", 3, false), ('\u{e9}', Some(1)));
    assert_eq!(get_before_char("a~~", 3, true), ('a', Some(0)));
    assert_eq!(get_before_char("~~", 2, true), ('\n', None));
    assert_eq!(get_before_char("a~~", 3, false), ('~', Some(2)));
}
