use comrak::cm::{escape_inline, escape_link_destination, longest_byte_sequence, shortest_unused_sequence};
use comrak::html::{dangerous_url, escape, escape_href, tagfilter_block, write_opening_tag};

#[test]
fn cm_escape_inline_punctuation_and_controls() {
    assert_eq!(escape_inline("a*b_c"), "a\\*b\\_c");
    assert_eq!(escape_inline("[x](y)"), "\\[x\\]\\(y\\)");
    assert_eq!(escape_inline("tab\there"), "tab&#9;here");
    assert_eq!(escape_inline("\u{1f}"), "&#31;");
    assert_eq!(escape_inline("plain text é"), "plain text é");
    assert_eq!(escape_inline(""), "");
}

#[test]
fn cm_escape_link_destination() {
    assert_eq!(escape_link_destination("a<b>c"), "<a\\<b\\>c>");
    assert_eq!(escape_link_destination("x\ny\rz"), "<x%0Ay%0Dz>");
    assert_eq!(escape_link_destination(""), "<>");
    assert_eq!(escape_link_destination("a\\"), "<a\\\\>");
    assert_eq!(escape_link_destination("\\*"), "<\\\\*>");
}

#[test]
fn html_escape_text() {
    assert_eq!(escape("<a href=\"x\">&</a>"), "&lt;a href=&quot;x&quot;&gt;&amp;&lt;/a&gt;");
    assert_eq!(escape("plain ü"), "plain ü");
}

#[test]
fn html_escape_href() {
    assert_eq!(escape_href("https://example.com/a b", false), "https://example.com/a%20b");
    assert_eq!(escape_href("a&b'c", false), "a&amp;b&#x27;c");
    assert_eq!(escape_href("ü", false), "%C3%BC");
    assert_eq!(escape_href("http://[::1]:80/[x]", false), "http://[::1]:80/%5Bx%5D");
    assert_eq!(escape_href("ftp://[::1]/", false), "ftp://%5B::1%5D/");
    assert_eq!(escape_href("ftp://[::1]/", true), "ftp://[::1]/");
    assert_eq!(escape_href("100%", false), "100%");
}

#[test]
fn html_write_opening_tag() {
    assert_eq!(write_opening_tag("p", &[]), "<p>");
    assert_eq!(
        write_opening_tag("a", &[("href", "x\"y"), ("title", "t")]),
        "<a href=\"x&quot;y\" title=\"t\">"
    );
}

#[test]
fn html_dangerous_url() {
    assert!(dangerous_url("javascript:alert(1)"));
    assert!(dangerous_url("DATA:text/html,x"));
    assert!(!dangerous_url("data:image/gif;base64,x"));
    assert!(!dangerous_url("http://example.com"));
}

#[test]
fn html_tagfilter_block() {
    assert_eq!(tagfilter_block("<title>x</title>"), "&lt;title>x&lt;/title>");
    assert_eq!(tagfilter_block("<strong>x</strong>"), "<strong>x</strong>");
    assert_eq!(tagfilter_block("<SCRIPT >a"), "&lt;SCRIPT >a");
    assert_eq!(tagfilter_block("<xmp/>"), "&lt;xmp/>");
    assert_eq!(tagfilter_block("<titles>"), "<titles>");
    assert_eq!(tagfilter_block("a < b"), "a < b");
}

#[test]
fn longest_runs() {
    assert_eq!(longest_byte_sequence(b"a``b```c", b'`'), 3);
    assert_eq!(longest_byte_sequence(b"abc", b'`'), 0);
    assert_eq!(longest_byte_sequence(b"``", b'`'), 2);
    assert_eq!(longest_byte_sequence(b"", b'`'), 0);
}

#[test]
fn shortest_unused_fence() {
    assert_eq!(shortest_unused_sequence(b"a``b```c", b'`'), 1);
    assert_eq!(shortest_unused_sequence(b"`a``", b'`'), 3);
    assert_eq!(shortest_unused_sequence(b"", b'`'), 1);
    assert_eq!(shortest_unused_sequence(b"``` ` ``", b'`'), 4);
    assert_eq!(shortest_unused_sequence(b"x`````", b'`'), 1);
}

#[test]
fn cm_escape_inline_round_trip() {
    for text in ["a*b_c", "[x](y) \\ `code` <tag> & -+=.!#\"", "plain é ✓", ""] {
        let mut r = escape_inline(text);
        comrak::strings::unescape(&mut r);
        assert_eq!(r, text);
    }
}
