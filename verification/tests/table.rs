use comrak::parser::table::{row, unescape_pipes};

#[test]
fn table_matches_rows() {
    assert!(comrak::parser::table::matches("| a | b |\n", false));
    assert!(comrak::parser::table::matches("abc", false));
    assert!(!comrak::parser::table::matches("", false));
    assert!(comrak::parser::table::matches("a | b\r\n", false));
    assert!(!comrak::parser::table::matches("", true));
}

#[test]
fn table_row_cells() {
    let r = row("| a | b |\n", false).unwrap();
    assert_eq!(r.paragraph_offset, 0);
    assert_eq!(r.cells.len(), 2);
    assert_eq!(r.cells[0].content, "a");
    assert_eq!(r.cells[1].content, "b");
    assert_eq!(
        (r.cells[0].start_offset, r.cells[0].end_offset, r.cells[0].internal_offset),
        (1, 3, 1)
    );

    let r = row("a | b\nc | d\n", false).unwrap();
    assert_eq!(r.paragraph_offset, 6);
    assert_eq!(r.cells.len(), 2);
    assert_eq!(r.cells[0].content, "c");
    assert_eq!(
        (r.cells[1].start_offset, r.cells[1].end_offset, r.cells[1].internal_offset),
        (9, 10, 1)
    );
    assert_eq!(r.cells[1].content, "d");

    let r = row("| x \\| y |\n", false).unwrap();
    assert_eq!(r.cells.len(), 1);
    assert_eq!(r.cells[0].content, "x | y");
}

#[test]
fn table_unescape_pipes() {
    assert_eq!(unescape_pipes("a\\|b"), "a|b");
    assert_eq!(unescape_pipes("a\\\\|b"), "a\\\\|b");
    assert_eq!(unescape_pipes("abc"), "abc");
    assert_eq!(unescape_pipes("\\|\\|"), "||");
}
