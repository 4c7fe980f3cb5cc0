use comrak::parser::autolink::{
    autolink_delim, check_domain, email_match, find_email_autolink, url_match, www_match,
};

#[test]
fn autolink_url_match() {
    assert_eq!(
        url_match("see http://example.com/x. ok", 8, false),
        Some(("http://example.com/x".to_string(), 4, 20))
    );
    assert_eq!(url_match("ftp://a.b", 3, false), Some(("ftp://a.b".to_string(), 3, 9)));
    assert_eq!(url_match("foo://a.b", 3, false), None);
    assert_eq!(url_match("foo://a.b", 3, true), Some(("foo://a.b".to_string(), 3, 9)));
    assert_eq!(url_match("http:/a.b", 4, false), None);
    assert_eq!(url_match("http://localhost", 4, false), None);
}

#[test]
fn autolink_www_match() {
    assert_eq!(
        www_match("www.commonmark.org/he<lp", 0, false),
        Some(("http://www.commonmark.org/he".to_string(), 0, 21))
    );
    assert_eq!(www_match("xwww.a.b", 1, false), None);
    assert_eq!(www_match("(www.a.b)", 1, false), Some(("http://www.a.b".to_string(), 0, 7)));
    assert_eq!(www_match("www.", 0, false), None);
}

#[test]
fn autolink_email_match() {
    assert_eq!(
        email_match("foo@bar.com", 3, false),
        Some(("mailto:foo@bar.com".to_string(), 3, 11))
    );
    assert_eq!(
        email_match("mailto:foo@bar.com", 10, false),
        Some(("mailto:foo@bar.com".to_string(), 10, 18))
    );
    assert_eq!(email_match("a@b", 1, false), None);
    assert_eq!(email_match("@b.c", 0, false), None);
    assert_eq!(email_match("a@b@c.d", 1, false), None);
}

#[test]
fn autolink_find_email() {
    assert_eq!(
        find_email_autolink("Write to foo@bar.com now", false),
        Some(("mailto:foo@bar.com".to_string(), 9, 11))
    );
    assert_eq!(
        find_email_autolink("[foo@bar.com] x@y.z", false),
        Some(("mailto:x@y.z".to_string(), 14, 5))
    );
    assert_eq!(find_email_autolink("no address here", false), None);
}

#[test]
fn autolink_check_domain() {
    assert_eq!(check_domain("example.com", false), Some(11));
    assert_eq!(check_domain("example.com/path", false), Some(11));
    assert_eq!(check_domain("localhost", false), None);
    assert_eq!(check_domain("localhost", true), Some(9));
    assert_eq!(check_domain("a_b.c", false), None);
    assert_eq!(check_domain("ex ample.com", false), None);
}

#[test]
fn autolink_delim_trims() {
    assert_eq!(autolink_delim(b"abc);", 5, false), 3);
    assert_eq!(autolink_delim(b"a&amp;", 6, false), 1);
    assert_eq!(autolink_delim(b"a(b)", 4, false), 4);
    assert_eq!(autolink_delim(b"ab<cd", 5, false), 2);
    assert_eq!(autolink_delim(b"ab]", 3, false), 3);
    assert_eq!(autolink_delim(b"ab]", 3, true), 2);
    assert_eq!(autolink_delim("ab\u{2069}".as_bytes(), 5, false), 2);
}
