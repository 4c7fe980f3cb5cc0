use comrak::parser::inlines::{manual_scan_link_url, RefMap, Scanner};
use comrak::parser::ResolvedReference;

#[test]
fn scanner_basics() {
    let mut s = Scanner::new();
    assert_eq!(s.pos, 0);
    assert_eq!(s.peek_byte("ab"), Some(b'a'));
    assert!(!s.skip_spaces("ab"));
    s.pos = 0;
    assert!(s.skip_spaces("  \tx"));
    assert_eq!(s.pos, 3);
    s.pos = 0;
    assert!(s.skip_line_end("\r\nx"));
    assert_eq!(s.pos, 2);
    s.pos = 1;
    assert!(s.skip_line_end("x"));
    assert!(!s.skip_line_end("xy"));
    s.pos = 0;
    s.spnl("  \n  x");
    assert_eq!(s.pos, 5);
    s.pos = 0;
    s.spnl("  x");
    assert_eq!(s.pos, 2);
    s.pos = 5;
    assert_eq!(s.peek_byte("ab"), None);
}

#[test]
fn scanner_link_label() {
    let mut s = Scanner::new();
    assert_eq!(s.link_label("[ foo ] rest"), Some("foo"));
    assert_eq!(s.pos, 7);
    s.pos = 0;
    assert_eq!(s.link_label("[a\\]b]"), Some("a\\]b"));
    assert_eq!(s.pos, 6);
    s.pos = 0;
    assert_eq!(s.link_label("[a[b]"), None);
    assert_eq!(s.pos, 0);
    assert_eq!(s.link_label("[open"), None);
    assert_eq!(s.link_label("x"), None);
    let long = format!("[{}]", "a".repeat(1001));
    assert_eq!(s.link_label(&long), None);
    assert_eq!(s.pos, 0);
    let ok = format!("[{}]", "a".repeat(1000));
    assert!(s.link_label(&ok).is_some());
}

#[test]
fn link_urls() {
    assert_eq!(manual_scan_link_url("<a b>)"), Some(("a b", 5)));
    assert_eq!(manual_scan_link_url("<a b>"), None);
    assert_eq!(manual_scan_link_url("<a\nb>)"), None);
    assert_eq!(manual_scan_link_url("foo(bar))"), Some(("foo(bar)", 8)));
    assert_eq!(manual_scan_link_url("foo bar"), Some(("foo", 3)));
    assert_eq!(manual_scan_link_url(" foo"), None);
    assert_eq!(manual_scan_link_url("foo"), None);
    assert_eq!(manual_scan_link_url("a\\)b)"), Some(("a\\)b", 4)));
}

#[test]
fn refmap_budget() {
    let mut m = RefMap::new();
    assert!(m.map.is_empty());
    m.max_ref_size = 10;
    let r = ResolvedReference { url: "abcd".to_string(), title: "ef".to_string() };
    assert!(m.charge(Some(&r)).is_some());
    assert!(m.charge(Some(&r)).is_none());
    assert!(m.charge(None).is_none());
    let small = ResolvedReference { url: "abcd".to_string(), title: String::new() };
    assert!(m.charge(Some(&small)).is_some());
    assert!(m.charge(Some(&small)).is_none());
}
