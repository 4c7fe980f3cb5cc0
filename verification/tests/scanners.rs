use comrak::scanners::{
    atx_heading_start, autolink_email, autolink_uri, close_code_fence, dangerous_url,
    footnote_definition, html_block_end_1, html_block_end_2, html_block_end_3, html_block_end_4,
    html_block_end_5, html_block_start, html_block_start_7, html_tag, link_title,
    open_code_fence, scheme, setext_heading_line, spacechars, table_cell, table_cell_end,
    table_row_end, table_start, thematic_break, SetextChar,
};

#[test]
fn scanners_atx_heading_start() {
    assert_eq!(atx_heading_start(b"# Hi\n"), Some(2));
    assert_eq!(atx_heading_start(b"###   Hi\n"), Some(6));
    assert_eq!(atx_heading_start(b"#\n"), Some(2));
    assert_eq!(atx_heading_start(b"####### x\n"), None);
    assert_eq!(atx_heading_start(b"#x\n"), None);
    assert_eq!(atx_heading_start(b"x\n"), None);
}

#[test]
fn scanners_setext_heading_line() {
    assert_eq!(setext_heading_line(b"===\n"), Some(SetextChar::Equals));
    assert_eq!(setext_heading_line(b"--  \n"), Some(SetextChar::Hyphen));
    assert_eq!(setext_heading_line(b"-- -\n"), None);
    assert_eq!(setext_heading_line(b"==="), None);
    assert_eq!(setext_heading_line(b"x\n"), None);
}

#[test]
fn scanners_thematic_break() {
    assert_eq!(thematic_break(b"***\n"), Some(4));
    assert_eq!(thematic_break(b"* * *\r\n"), Some(6));
    assert_eq!(thematic_break(b"__\n"), None);
    assert_eq!(thematic_break(b"-_-\n"), None);
    assert_eq!(thematic_break(b"---"), None);
}

#[test]
fn scanners_code_fences() {
    assert_eq!(open_code_fence(b"```rust\n"), Some(3));
    assert_eq!(open_code_fence(b"````\n"), Some(4));
    assert_eq!(open_code_fence(b"``` a`b\n"), None);
    assert_eq!(open_code_fence(b"~~~ a`b\n"), Some(3));
    assert_eq!(open_code_fence(b"``\n"), None);
    assert_eq!(close_code_fence(b"```  \n"), Some(3));
    assert_eq!(close_code_fence(b"~~~~\n"), Some(4));
    assert_eq!(close_code_fence(b"``` x\n"), None);
}

#[test]
fn scanners_spacechars() {
    assert_eq!(spacechars(b" \t\n x"), Some(4));
    assert_eq!(spacechars(b"x"), None);
    assert_eq!(spacechars(b""), None);
}

#[test]
fn scanners_link_title() {
    assert_eq!(link_title(b"\"title\" rest"), Some(7));
    assert_eq!(link_title(b"'a\\'b'"), Some(6));
    assert_eq!(link_title(b"(a(b)"), None);
    assert_eq!(link_title(b"(a\\(b)"), Some(6));
    assert_eq!(link_title(b"\"open"), None);
    assert_eq!(link_title(b"x"), None);
}

#[test]
fn scanners_scheme_and_autolinks() {
    assert_eq!(scheme(b"http://x"), Some(5));
    assert_eq!(scheme(b"h:"), None);
    assert_eq!(autolink_uri(b"http://example.com> x"), Some(19));
    assert_eq!(autolink_uri(b"http://exa mple.com>"), None);
    assert_eq!(autolink_email(b"foo@bar.example.com>"), Some(20));
    assert_eq!(autolink_email(b"foo@-bar.com>"), None);
    assert_eq!(autolink_email(b"foo@bar.>"), None);
    assert_eq!(autolink_email(b"foo@bar"), None);
}

#[test]
fn scanners_footnote_definition() {
    assert_eq!(footnote_definition(b"[^note]:  text"), Some(10));
    assert_eq!(footnote_definition(b"[^]: x"), None);
    assert_eq!(footnote_definition(b"[^a b]: x"), None);
}

#[test]
fn scanners_table() {
    assert_eq!(table_start(b"| --- | :-: |\n"), Some(14));
    assert_eq!(table_start(b"---|---\r\n"), Some(9));
    assert_eq!(table_start(b"| a |\n"), None);
    assert_eq!(table_cell(b"abc | d"), Some(4));
    assert_eq!(table_cell(b"a\\|b|"), Some(4));
    assert_eq!(table_cell(b"|x"), None);
    assert_eq!(table_cell_end(b"|  x"), Some(3));
    assert_eq!(table_cell_end(b"x"), None);
    assert_eq!(table_row_end(b"  \n"), Some(3));
    assert_eq!(table_row_end(b"\r\n"), Some(2));
    assert_eq!(table_row_end(b" x\n"), None);
}

#[test]
fn scanners_dangerous_url() {
    assert_eq!(dangerous_url(b"javascript:alert(1)"), Some(11));
    assert_eq!(dangerous_url(b"JaVaScRiPt:x"), Some(11));
    assert_eq!(dangerous_url(b"vbscript:x"), Some(9));
    assert_eq!(dangerous_url(b"file:///etc"), Some(5));
    assert_eq!(dangerous_url(b"data:text/html"), Some(5));
    assert_eq!(dangerous_url(b"data:image/png;base64"), None);
    assert_eq!(dangerous_url(b"https://example.com"), None);
}

#[test]
fn scanners_html_block_ends() {
    assert!(html_block_end_1(b"x </script> y"));
    assert!(html_block_end_1(b"</pre>"));
    assert!(!html_block_end_1(b"</SCRIPT>"));
    assert!(html_block_end_2(b"a --> b"));
    assert!(!html_block_end_2(b"a -> b"));
    assert!(html_block_end_3(b"?>"));
    assert!(html_block_end_4(b"<!DOCTYPE html>"));
    assert!(!html_block_end_4(b"abc"));
    assert!(html_block_end_5(b"x]]>"));
    assert!(!html_block_end_5(b"x]>"));
}

#[test]
fn scanners_html_block_start() {
    assert_eq!(html_block_start(b"<script>\n"), Some(1));
    assert_eq!(html_block_start(b"<PRE \n"), Some(1));
    assert_eq!(html_block_start(b"<!-- c\n"), Some(2));
    assert_eq!(html_block_start(b"<?php\n"), Some(3));
    assert_eq!(html_block_start(b"<!DOCTYPE html>\n"), Some(4));
    assert_eq!(html_block_start(b"<![CDATA[x\n"), Some(5));
    assert_eq!(html_block_start(b"<div class=\"a\">\n"), Some(6));
    assert_eq!(html_block_start(b"</TABLE>\n"), Some(6));
    assert_eq!(html_block_start(b"<hr/>\n"), Some(6));
    assert_eq!(html_block_start(b"<colgroup>\n"), Some(6));
    assert_eq!(html_block_start(b"<span>\n"), None);
    assert_eq!(html_block_start(b"x\n"), None);
}

#[test]
fn scanners_html_block_start_7() {
    assert_eq!(html_block_start_7(b"<span class=\"x\">\n"), Some(7));
    assert_eq!(html_block_start_7(b"</a>  \r\n"), Some(7));
    assert_eq!(html_block_start_7(b"<a> x\n"), None);
    assert_eq!(html_block_start_7(b"<a"), None);
}

#[test]
fn scanners_html_tag() {
    assert_eq!(html_tag(b"a href=\"x\">rest"), Some(11));
    assert_eq!(html_tag(b"br/>"), Some(4));
    assert_eq!(html_tag(b"/em >"), Some(5));
    assert_eq!(html_tag(b"!-- c -->x"), Some(9));
    assert_eq!(html_tag(b"!-->"), Some(4));
    assert_eq!(html_tag(b"!--->"), Some(5));
    assert_eq!(html_tag(b"?pi?>"), Some(5));
    assert_eq!(html_tag(b"![CDATA[x]]>"), Some(12));
    assert_eq!(html_tag(b"!DOCTYPE x>"), Some(11));
    assert_eq!(html_tag(b"a b='c' d=e f>"), Some(14));
    assert_eq!(html_tag(b"a =b>"), None);
    assert_eq!(html_tag(b"1a>"), None);
}
