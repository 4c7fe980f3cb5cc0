use comrak::arena_tree::Id;
use comrak::parser::inlines::footnote::FootnoteDefs;
use comrak::parser::inlines::Scanner;

fn footnote(input: &str, pos: usize) -> Option<(String, usize)> {
    let mut s = Scanner::new();
    s.pos = pos;
    s.inline_footnote(input)
}

#[test]
fn inline_footnote_nested_brackets() {
    assert_eq!(footnote("^[a [b] c]x", 0), Some(("a [b] c".to_string(), 10)));
    assert_eq!(footnote("x ^[note] y", 2), Some(("note".to_string(), 9)));
}

#[test]
fn inline_footnote_escaped_bracket() {
    assert_eq!(footnote("^[a\\]b]", 0), Some(("a\\]b".to_string(), 7)));
}

#[test]
fn inline_footnote_unclosed_or_empty() {
    assert_eq!(footnote("^[]", 0), None);
    assert_eq!(footnote("^[abc", 0), None);
    assert_eq!(footnote("^[a [b]", 0), None);
}

#[test]
fn inline_footnote_names_count_up() {
    let mut defs = FootnoteDefs::new();
    let a = defs.next_name();
    let b = defs.next_name();
    assert_eq!(a, "__inline_1");
    assert_eq!(b, "__inline_2");
    assert_ne!(a, b);
    for _ in 0..8 {
        defs.next_name();
    }
    assert_eq!(defs.next_name(), "__inline_11");
    defs.add_definition(Id(3));
    defs.add_definition(Id(5));
    assert_eq!(defs.definitions(), &vec![Id(3), Id(5)]);
}
