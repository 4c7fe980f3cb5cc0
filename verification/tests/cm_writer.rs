use comrak::cm::writer::{CommonMarkFormatter, Escaping};

fn render(width: usize, parts: &[(&str, bool, Escaping)]) -> String {
    let mut f = CommonMarkFormatter::new(width, false, false);
    for (s, wrap, esc) in parts {
        f.output(s, *wrap, *esc);
    }
    f.finish()
}

#[test]
fn escapes_markup_in_text() {
    assert_eq!(render(0, &[("a*b_c", false, Escaping::Normal)]), "a\\*b\\_c");
    assert_eq!(render(0, &[("\u{1}", false, Escaping::Normal)]), "&#1;");
    assert_eq!(render(0, &[("\u{0}", false, Escaping::Normal)]), "\u{fffd}");
    assert_eq!(render(0, &[("a&b &; !x ![", false, Escaping::Normal)]), "a\\&b &; \\!x \\!\\[");
}

#[test]
fn escapes_list_markers_at_line_start() {
    assert_eq!(render(0, &[("- a", false, Escaping::Normal)]), "\\- a");
    assert_eq!(render(0, &[("1. x", false, Escaping::Normal)]), "1\\. x");
    assert_eq!(render(0, &[("a - b", false, Escaping::Normal)]), "a - b");
}

#[test]
fn escapes_destinations_and_titles() {
    assert_eq!(render(0, &[("a b(c)", false, Escaping::Url)]), "a%20b\\(c\\)");
    assert_eq!(render(0, &[("a\tb", false, Escaping::Url)]), "a% 9b");
    assert_eq!(render(0, &[("say \"hi\"", false, Escaping::Title)]), "say \\\"hi\\\"");
}

#[test]
fn literal_text_is_unchanged() {
    assert_eq!(render(0, &[("a*\nb", false, Escaping::Literal)]), "a*\nb");
}

#[test]
fn owed_line_breaks_and_prefix() {
    let mut f = CommonMarkFormatter::new(0, false, false);
    f.output("x", false, Escaping::Literal);
    f.cr();
    f.output("y", false, Escaping::Literal);
    assert_eq!(f.finish(), "x\ny");

    let mut f = CommonMarkFormatter::new(0, false, false);
    f.prefix = "> ".to_string();
    f.output("a", false, Escaping::Normal);
    f.blankline();
    f.output("b", false, Escaping::Normal);
    assert_eq!(f.finish(), "> a\n> \n> b");
}

#[test]
fn nothing_owed_before_first_text() {
    let mut f = CommonMarkFormatter::new(0, false, false);
    f.blankline();
    f.output("a", false, Escaping::Normal);
    assert_eq!(f.finish(), "a");
}

#[test]
fn wraps_long_lines_at_spaces() {
    assert_eq!(render(10, &[("aaaa bbbb cccc", true, Escaping::Normal)]), "aaaa bbbb\ncccc");
    // Without wrapping asked for, the line stays long.
    assert_eq!(render(10, &[("aaaa bbbb cccc", false, Escaping::Normal)]), "aaaa bbbb cccc");
    // Runs of spaces collapse to one where lines may wrap.
    assert_eq!(render(80, &[("a   b", true, Escaping::Normal)]), "a b");
}

#[test]
fn no_break_before_a_digit() {
    // A break before "1." would start a list item.
    assert_eq!(render(5, &[("aaaa 1. b", true, Escaping::Literal)]), "aaaa 1.\nb");
}

#[test]
fn escapes_pipes_in_tables() {
    let mut f = CommonMarkFormatter::new(0, false, false);
    f.escape_pipes = true;
    f.output("a|b", false, Escaping::Literal);
    assert_eq!(f.finish(), "a\\|b");
}

#[test]
fn autolink_escapes_at_sign() {
    let mut f = CommonMarkFormatter::new(0, false, true);
    f.output("a@b", false, Escaping::Normal);
    assert_eq!(f.finish(), "a\\@b");
}
