use comrak::nodes::{Ast, LineColumn, NodeCodeBlock, NodeDescriptionItem, NodeList, NodeValue};
use comrak::parser::blocks::Parser;
use comrak::parser::options::Options;

fn at_line_start(line: &str) -> Parser {
    let mut p = Parser::new();
    p.find_first_nonspace(line);
    p
}

#[test]
fn first_nonspace_with_spaces() {
    let p = at_line_start("  > a\n");
    assert_eq!(p.first_nonspace, 2);
    assert_eq!(p.first_nonspace_column, 2);
    assert_eq!(p.indent, 2);
    assert!(!p.blank);
}

#[test]
fn first_nonspace_with_tabs() {
    let p = at_line_start("  \tfoo\n");
    assert_eq!(p.first_nonspace, 3);
    assert_eq!(p.first_nonspace_column, 4);
    assert_eq!(p.indent, 4);
    let p = at_line_start(" \t \tx\n");
    assert_eq!(p.first_nonspace_column, 8);
    let p = at_line_start("   \n");
    assert!(p.blank);
    assert_eq!(p.first_nonspace, 3);
}

#[test]
fn block_quote_marker() {
    let options = Options::default();
    let line = "  > a\n";
    let mut p = at_line_start(line);
    assert!(p.parse_block_quote_prefix(line, &options));
    assert_eq!(p.offset, 4);
    assert_eq!(p.column, 4);
    // Four columns of indentation make code, not a quote.
    let line = "\t> a\n";
    let mut p = at_line_start(line);
    assert!(!p.parse_block_quote_prefix(line, &options));
    assert_eq!(p.offset, 0);
}

#[test]
fn block_quote_marker_followed_by_tab() {
    let options = Options::default();
    let line = ">\tfoo\n";
    let mut p = at_line_start(line);
    assert!(p.parse_block_quote_prefix(line, &options));
    // The tab spans columns 1 to 4; one column of it is consumed.
    assert_eq!(p.offset, 1);
    assert_eq!(p.column, 2);
    assert!(p.partially_consumed_tab);
}

#[test]
fn greentext_needs_space() {
    let mut options = Options::default();
    options.extension.greentext = true;
    let line = ">implying\n";
    let mut p = at_line_start(line);
    assert!(!p.parse_block_quote_prefix(line, &options));
    let line = "> quote\n";
    let mut p = at_line_start(line);
    assert!(p.parse_block_quote_prefix(line, &options));
}

#[test]
fn advance_over_partial_tab() {
    let line = " \tfoo\n";
    let mut p = at_line_start(line);
    p.advance_offset(line, 2, true);
    assert_eq!(p.offset, 1);
    assert_eq!(p.column, 2);
    assert!(p.partially_consumed_tab);
    p.advance_offset(line, 2, true);
    assert_eq!(p.offset, 2);
    assert_eq!(p.column, 4);
    assert!(!p.partially_consumed_tab);
    let mut q = at_line_start(line);
    q.advance_offset(line, 2, false);
    assert_eq!(q.offset, 2);
    assert_eq!(q.column, 4);
}

#[test]
fn add_line_pads_partial_tab() {
    let line = " \tfoo\n";
    let mut p = at_line_start(line);
    p.advance_offset(line, 2, true);
    let mut ast = Ast::new(NodeValue::Paragraph, LineColumn { line: 1, column: 1 });
    p.add_line(&mut ast, line);
    assert_eq!(ast.content, "  foo\n");
    assert_eq!(ast.line_offsets, vec![2]);
}

#[test]
fn list_item_indentation() {
    let nl = NodeList { marker_offset: 0, padding: 2, ..NodeList::default() };
    let line = "  bar\n";
    let mut p = at_line_start(line);
    assert!(p.parse_node_item_prefix(line, false, &nl));
    assert_eq!(p.offset, 2);
    let line = " bar\n";
    let mut p = at_line_start(line);
    assert!(!p.parse_node_item_prefix(line, true, &nl));
    let line = "\n";
    let mut p = at_line_start(line);
    assert!(p.parse_node_item_prefix(line, true, &nl));
    assert!(!at_line_start(line).parse_node_item_prefix(line, false, &nl));
    let di = NodeDescriptionItem { marker_offset: 1, padding: 2, tight: false };
    let line = "   x\n";
    let mut p = at_line_start(line);
    assert!(p.parse_description_item_prefix(line, false, &di));
    assert_eq!(p.offset, 3);
}

#[test]
fn code_block_prefixes() {
    let indented = NodeCodeBlock::default();
    let line = "      code\n";
    let mut p = at_line_start(line);
    assert_eq!(p.parse_code_block_prefix(line, &indented), Some(true));
    assert_eq!(p.offset, 4);
    let line = "  x\n";
    let mut p = at_line_start(line);
    assert_eq!(p.parse_code_block_prefix(line, &indented), Some(false));

    let fenced = NodeCodeBlock {
        fenced: true,
        fence_char: b'`',
        fence_length: 3,
        fence_offset: 2,
        ..NodeCodeBlock::default()
    };
    let line = "```\n";
    let mut p = at_line_start(line);
    assert_eq!(p.parse_code_block_prefix(line, &fenced), None);
    assert_eq!(p.offset, 3);
    let line = "    body\n";
    let mut p = at_line_start(line);
    assert_eq!(p.parse_code_block_prefix(line, &fenced), Some(true));
    assert_eq!(p.offset, 2);
    let line = "``\n";
    let mut p = at_line_start(line);
    assert_eq!(p.parse_code_block_prefix(line, &fenced), Some(true));
    assert_eq!(p.offset, 0);
}

#[test]
fn thematic_breaks() {
    let p = at_line_start("***\n");
    assert_eq!(p.scan_thematic_break_inner("***\n"), (4, true));
    let p = at_line_start(" - - -\n");
    assert_eq!(p.scan_thematic_break_inner(" - - -\n"), (6, true));
    let p = at_line_start("**\n");
    assert_eq!(p.scan_thematic_break_inner("**\n"), (2, false));
    let p = at_line_start("*-*\n");
    assert_eq!(p.scan_thematic_break_inner("*-*\n"), (1, false));
}

#[test]
fn thematic_break_detection_remembers_failure() {
    let line = "--x\n";
    let mut p = at_line_start(line);
    assert_eq!(p.detect_thematic_break(&NodeValue::Document, line, true), None);
    assert_eq!(p.thematic_break_kill_pos, 2);
    let line = "___\n";
    let mut p = at_line_start(line);
    assert_eq!(p.detect_thematic_break(&NodeValue::Document, line, true), Some(4));
    // A line that may continue an unmatched paragraph is not scanned.
    let mut p = at_line_start(line);
    assert_eq!(p.detect_thematic_break(&NodeValue::Paragraph, line, false), None);
}
