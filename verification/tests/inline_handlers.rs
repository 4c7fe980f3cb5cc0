use comrak::nodes::NodeValue;
use comrak::parser::inlines::Scanner;

fn at(pos: usize) -> Scanner {
    let mut s = Scanner::new();
    s.pos = pos;
    s
}

fn text(v: &NodeValue) -> String {
    match v {
        NodeValue::Text(t) => t.clone(),
        _ => panic!("not text"),
    }
}

#[test]
fn hyphens_to_dashes() {
    let cases = [
        ("-", "-"),
        ("--", "\u{2013}"),
        ("---", "\u{2014}"),
        ("----", "\u{2013}\u{2013}"),
        ("-----", "\u{2014}\u{2013}"),
        ("------", "\u{2014}\u{2014}"),
        ("-------", "\u{2014}\u{2013}\u{2013}"),
    ];
    for (input, want) in cases.iter() {
        let mut s = at(0);
        let v = s.handle_hyphen(input, true);
        assert_eq!(text(&v), *want, "input {:?}", input);
        assert_eq!(s.pos, input.len());
    }
    let mut s = at(0);
    assert_eq!(text(&s.handle_hyphen("---", false)), "-");
    assert_eq!(s.pos, 1);
}

#[test]
fn periods_to_ellipsis() {
    let mut s = at(0);
    assert_eq!(text(&s.handle_period("...x", true)), "\u{2026}");
    assert_eq!(s.pos, 3);
    let mut s = at(0);
    assert_eq!(text(&s.handle_period("..x", true)), "..");
    assert_eq!(s.pos, 2);
    let mut s = at(0);
    assert_eq!(text(&s.handle_period("...", false)), ".");
    assert_eq!(s.pos, 1);
}

#[test]
fn line_breaks() {
    let mut s = at(3);
    assert_eq!(s.handle_newline("a  \n  b"), NodeValue::LineBreak);
    assert_eq!(s.pos, 6);
    let mut s = at(1);
    assert_eq!(s.handle_newline("a\r\nb"), NodeValue::SoftBreak);
    assert_eq!(s.pos, 3);
}

#[test]
fn backslash_escapes() {
    let mut s = at(0);
    let (v, inner) = s.handle_backslash("\\*x", false);
    assert_eq!(text(&v), "*");
    assert!(inner.is_none());
    assert_eq!(s.pos, 2);
    let mut s = at(0);
    let (v, inner) = s.handle_backslash("\\*x", true);
    assert_eq!(v, NodeValue::Escaped);
    assert_eq!(text(&inner.unwrap()), "*");
    let mut s = at(0);
    let (v, _) = s.handle_backslash("\\\n  x", false);
    assert_eq!(v, NodeValue::LineBreak);
    assert_eq!(s.pos, 4);
    let mut s = at(0);
    let (v, _) = s.handle_backslash("\\a", false);
    assert_eq!(text(&v), "\\");
    assert_eq!(s.pos, 1);
    let mut s = at(0);
    let (v, _) = s.handle_backslash("\\", false);
    assert_eq!(text(&v), "\\");
}

#[test]
fn entities() {
    let mut s = at(0);
    assert_eq!(text(&s.handle_entity("&amp; x")), "&");
    assert_eq!(s.pos, 5);
    let mut s = at(0);
    assert_eq!(text(&s.handle_entity("&#65;")), "A");
    assert_eq!(s.pos, 5);
    let mut s = at(0);
    assert_eq!(text(&s.handle_entity("&nope x")), "&");
    assert_eq!(s.pos, 1);
}
