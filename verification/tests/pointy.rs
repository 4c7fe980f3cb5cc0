use comrak::nodes::NodeValue;
use comrak::parser::inlines::pointy::HtmlSkipFlags;
use comrak::parser::inlines::Scanner;

fn run(input: &str, flags: &mut HtmlSkipFlags) -> (NodeValue, Option<NodeValue>, usize) {
    let mut s = Scanner::new();
    let (v, inner) = s.handle_pointy_brace(input, flags);
    (v, inner, s.pos)
}

fn html(input: &str, flags: &mut HtmlSkipFlags) -> Option<(String, usize)> {
    match run(input, flags) {
        (NodeValue::HtmlInline(h), None, pos) => Some((h, pos)),
        (NodeValue::Text(t), None, pos) => {
            assert_eq!(t, "<");
            assert_eq!(pos, 1);
            None
        }
        _ => panic!("unexpected node for {:?}", input),
    }
}

fn link(input: &str) -> (String, String, usize) {
    let mut flags = HtmlSkipFlags::new();
    match run(input, &mut flags) {
        (NodeValue::Link(l), Some(NodeValue::Text(t)), pos) => {
            assert_eq!(l.title, "");
            (l.url, t, pos)
        }
        _ => panic!("not an autolink: {:?}", input),
    }
}

#[test]
fn pointy_uri_autolink() {
    let (url, text, pos) = link("<https://example.com/a?b=1&amp;c=2> rest");
    assert_eq!(url, "https://example.com/a?b=1&c=2");
    assert_eq!(text, "https://example.com/a?b=1&c=2");
    assert_eq!(pos, 35);
}

#[test]
fn pointy_email_autolink() {
    let (url, text, pos) = link("<foo.bar@example.com>");
    assert_eq!(url, "mailto:foo.bar@example.com");
    assert_eq!(text, "foo.bar@example.com");
    assert_eq!(pos, 21);
}

#[test]
fn pointy_raw_html() {
    let cases = [
        "<a href=\"x\">",
        "</em>",
        "<!-- a comment -->",
        "<!-->",
        "<!--->",
        "<?php echo 1; ?>",
        "<![CDATA[x < y]]>",
        "<!DOCTYPE html>",
    ];
    for case in cases.iter() {
        let mut flags = HtmlSkipFlags::new();
        let input = format!("{}tail", case);
        let (h, pos) = html(&input, &mut flags).expect("raw html");
        assert_eq!(h, *case);
        assert_eq!(pos, case.len());
        assert!(!flags.comment && !flags.cdata && !flags.declaration && !flags.pi);
    }
}

#[test]
fn pointy_plain_less_than() {
    let mut flags = HtmlSkipFlags::new();
    assert!(html("< b", &mut flags).is_none());
    assert!(html("<", &mut flags).is_none());
    assert!(html("<a", &mut flags).is_none());
    assert!(!flags.comment && !flags.cdata && !flags.declaration && !flags.pi);
}

#[test]
fn pointy_failed_scans_set_flags() {
    let mut flags = HtmlSkipFlags::new();
    assert!(html("<!-- never closed", &mut flags).is_none());
    assert!(flags.comment);
    let mut flags = HtmlSkipFlags::new();
    assert!(html("<![CDATA[ never closed", &mut flags).is_none());
    assert!(flags.cdata);
    let mut flags = HtmlSkipFlags::new();
    assert!(html("<!DOCTYPE never closed", &mut flags).is_none());
    assert!(flags.declaration);
    let mut flags = HtmlSkipFlags::new();
    assert!(html("<? never closed", &mut flags).is_none());
    assert!(flags.pi);
}

#[test]
fn pointy_set_flags_skip_scans() {
    let mut flags = HtmlSkipFlags::new();
    flags.pi = true;
    assert!(html("<?x?>", &mut flags).is_none());
    let mut flags = HtmlSkipFlags::new();
    flags.cdata = true;
    assert!(html("<![CDATA[x]]>", &mut flags).is_none());
    let mut flags = HtmlSkipFlags::new();
    flags.declaration = true;
    assert!(html("<!DOCTYPE html>", &mut flags).is_none());
    // With the comment flag set, `<!` is matched as any other tag.
    let mut flags = HtmlSkipFlags::new();
    flags.comment = true;
    assert_eq!(html("<!DOCTYPE html>", &mut flags), Some(("<!DOCTYPE html>".to_string(), 15)));
}
