use std::borrow::Cow;
use comrak::strings::{
    chop_trailing_hashes, clean_autolink, clean_title, clean_url, count_newlines, is_blank,
    ltrim, ltrim_count, ltrim_slice, newlines_of, normalize_code, normalize_label,
    remove_trailing_blank_lines, remove_trailing_blank_lines_slice, rtrim, rtrim_slice, shift_buf_left,
    split_off_front_matter, trim, trim_slice, trim_start_match, unescape, Case,
};
use comrak::parser::AutolinkType;

#[test]
fn normalize_label_fold_test() {
    assert_eq!(normalize_label("Abc   \t\ndef", Case::Preserve), "Abc def");
    assert_eq!(normalize_label("Abc   \t\ndef", Case::Fold), "abc def");
    assert_eq!(normalize_label("Straẞe", Case::Preserve), "Straẞe");
    assert_eq!(normalize_label("Straẞe", Case::Fold), "strasse");
}

#[test]
fn normalize_code_handles_lone_newline() {
    assert_eq!(normalize_code("\n"), " ");
}

#[test]
fn normalize_code_handles_lone_space() {
    assert_eq!(normalize_code(" "), " ");
}

#[test]
fn front_matter() {
    assert_eq!(
        split_off_front_matter("---\nfoo: bar\n---\nHiiii", "---"),
        Some(("---\nfoo: bar\n---\n", "Hiiii"))
    );
    assert_eq!(
        split_off_front_matter(
            "\u{feff}!@#\r\n\r\nfoo: !@# \r\nquux\n!@#\r\n\n\nYes!\n",
            "!@#"
        ),
        Some(("!@#\r\n\r\nfoo: !@# \r\nquux\n!@#\r\n\n", "\nYes!\n"))
    );
    assert_eq!(
        split_off_front_matter(
            "\u{feff}!@#\r\n\r\nfoo: \n!@# \r\nquux\n!@#\r\n\n\nYes!\n",
            "!@#"
        ),
        Some(("!@#\r\n\r\nfoo: \n!@# \r\nquux\n!@#\r\n\n", "\nYes!\n"))
    );
}

#[test]
fn normalize_label_lowercase() {
    assert_eq!(normalize_label("  Foo\u{A0}BAR  ", Case::Fold), "foo bar");
    assert_eq!(normalize_label("  FooİBAR  ", Case::Fold), "fooi\u{307}bar");
}

#[test]
fn normalize_label_preserve() {
    assert_eq!(
        normalize_label("  Foo\u{A0}BAR  ", Case::Preserve),
        "Foo BAR"
    );
    assert_eq!(normalize_label("  FooİBAR  ", Case::Preserve), "FooİBAR");
}

#[test]
fn ltrim_ok() {
    let mut s: String;

    s = "okay".to_string();
    ltrim(&mut s);
    assert_eq!(s, "okay");

    s = "   okay".to_string();
    ltrim(&mut s);
    assert_eq!(s, "okay");
}

#[test]
fn count_newlines_ok() {
    assert_eq!((0, 7), count_newlines("abcdefg"));
    assert_eq!((2, 0), count_newlines("abc\ndefg\n"));
    assert_eq!((3, 2), count_newlines("abc\rde\nfg\nhi"));
}

#[test]
fn count_newlines_crlf_counts_once() {
    assert_eq!((2, 1), count_newlines("a\r\nb\r\nc"));
    assert_eq!((1, 0), count_newlines("\r"));
}

#[test]
fn trimming_slices() {
    assert_eq!(ltrim_slice(" \t\x0b\x0cx y \n"), "x y \n");
    assert_eq!(rtrim_slice(" x y \r\n\x0c"), " x y");
    assert_eq!(trim_slice("  é  "), "é");
    assert_eq!(trim_slice(" \n "), "");
    assert_eq!(ltrim_count("  \tab"), 3);
}

#[test]
fn trimming_strings() {
    let mut s = String::from("  abc \t ");
    assert_eq!(rtrim(&mut s), 3);
    assert_eq!(s, "  abc");
    let mut t = String::from("\n x \n");
    trim(&mut t);
    assert_eq!(t, "x");
    let mut u = String::from("\u{a0}x");
    assert_eq!(ltrim(&mut u), 0);
    assert_eq!(u, "\u{a0}x");
}

#[test]
fn blank_lines() {
    assert!(is_blank("  \t\nabc"));
    assert!(is_blank(""));
    assert!(!is_blank("  a"));
    assert_eq!(remove_trailing_blank_lines_slice("abc\n  \n\n"), "abc");
    assert_eq!(remove_trailing_blank_lines_slice("abc  "), "abc  ");
    assert_eq!(remove_trailing_blank_lines_slice(" \n \n"), "");
    let mut s = String::from("x\ny  \n \t\n");
    remove_trailing_blank_lines(&mut s);
    assert_eq!(s, "x\ny  ");
}

#[test]
fn line_endings() {
    assert_eq!(newlines_of("ab\r\n"), 2);
    assert_eq!(newlines_of("ab\r"), 1);
    assert_eq!(newlines_of("ab\n"), 1);
    assert_eq!(newlines_of("ab"), 0);
}

#[test]
fn hashes() {
    assert_eq!(chop_trailing_hashes("Foo ##  "), ("Foo", true));
    assert_eq!(chop_trailing_hashes("Foo#"), ("Foo#", false));
    assert_eq!(chop_trailing_hashes("###"), ("###", false));
    assert_eq!(chop_trailing_hashes("Foo"), ("Foo", false));
}

#[test]
fn start_match() {
    assert_eq!(trim_start_match("\u{feff}abc", "\u{feff}"), "abc");
    assert_eq!(trim_start_match("abc", "b"), "abc");
}

#[test]
fn backslash_unescape() {
    let mut s = String::from("a\\*b\\\\c\\d\\");
    unescape(&mut s);
    assert_eq!(s, "a*b\\c\\d\\");
}

#[test]
fn code_normalisation() {
    assert_eq!(normalize_code(" a "), "a");
    assert_eq!(normalize_code("  "), "  ");
    assert_eq!(normalize_code("a\nb"), "a b");
    assert_eq!(normalize_code(" a\nb "), "a b");
    assert_eq!(normalize_code("a\rb"), "a b");
    assert_eq!(normalize_code("a\r\nb"), "a b");
    assert_eq!(normalize_code("\r\n x \r\n"), " x ");
    assert_eq!(normalize_code("a\r\r\nb"), "a  b");
}

#[test]
fn cleaning() {
    assert_eq!(clean_url("  /url\\*&amp;x  "), "/url*&x");
    assert_eq!(clean_url("   "), "");
    assert_eq!(clean_title("\"a &quot;b\\\"\""), "a \"b\"");
    assert_eq!(clean_title("(t)"), "t");
    assert_eq!(clean_title("x"), "x");
    assert_eq!(clean_autolink(" a@b.c ", AutolinkType::Email), "mailto:a@b.c");
    assert_eq!(clean_autolink("http://x?a&amp;b", AutolinkType::Uri), "http://x?a&b");
}

#[test]
fn front_matter_rejections() {
    assert_eq!(split_off_front_matter("--- \nx\n---\n", "---"), None);
    assert_eq!(split_off_front_matter("---\nx\n", "---"), None);
    assert_eq!(split_off_front_matter("---\nx\n---", "---"), Some(("---\nx\n---", "")));
    assert_eq!(split_off_front_matter("---\nx\n---x", "---"), None);
}

#[test]
fn shift_buf_left_ok() {
    let mut b: Vec<u8>;

    b = vec![1, 2, 3, 4, 5, 6];
    shift_buf_left(&mut b, 1);
    assert_eq!(b, vec![2, 3, 4, 5, 6, 6]);

    shift_buf_left(&mut b, 2);
    assert_eq!(b, vec![4, 5, 6, 6, 6, 6]);
}

#[test]
fn trim_cow_keeps_borrowed() {
    let mut s: Cow<str> = Cow::Borrowed("  ab  ");
    comrak::strings::trim_cow(&mut s);
    assert!(matches!(s, Cow::Borrowed("ab")));
    let mut s: Cow<str> = Cow::Borrowed("ab  ");
    comrak::strings::rtrim_cow(&mut s);
    assert!(matches!(s, Cow::Borrowed("ab")));
    let mut s: Cow<str> = Cow::Owned(" x ".to_string());
    comrak::strings::trim_cow(&mut s);
    assert!(matches!(&s, Cow::Owned(t) if t == "x"));
}
