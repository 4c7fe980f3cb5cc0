use comrak::node::{make_block, NodeHeading as OldHeading, NodeVal};
use comrak::nodes::{
    can_contain_type, Ast, LineColumn, ListDelimType, NodeCode, NodeHeading, NodeList,
    NodeValue, Sourcepos, TableAlignment,
};
use comrak::parser::alert::AlertType;
use comrak::parser::shortcodes::NodeShortCode;

#[test]
fn nodes_block_and_inline() {
    assert!(NodeValue::Document.block());
    assert!(NodeValue::Paragraph.block());
    assert!(NodeValue::TaskItem(None).block());
    assert!(!NodeValue::Text("x".to_string()).block());
    assert!(!NodeValue::Emph.block());
    assert!(NodeValue::TableCell.contains_inlines());
    assert!(!NodeValue::BlockQuote.contains_inlines());
    assert!(NodeValue::Heading(NodeHeading { level: 1, setext: false }).accepts_lines());
    assert!(!NodeValue::TableCell.accepts_lines());
}

#[test]
fn nodes_text_accessors() {
    let mut v = NodeValue::Text("abc".to_string());
    assert_eq!(v.text(), Some(&"abc".to_string()));
    if let Some(t) = v.text_mut() {
        t.push('d');
    }
    assert_eq!(v, NodeValue::Text("abcd".to_string()));
    let mut p = NodeValue::Paragraph;
    assert_eq!(p.text(), None);
    assert!(p.text_mut().is_none());
}

#[test]
fn nodes_xml_names() {
    assert_eq!(NodeValue::BlockQuote.xml_node_name(), "block_quote");
    assert_eq!(NodeValue::SpoileredText.xml_node_name(), "spoiler");
    assert_eq!(
        NodeValue::Code(NodeCode { num_backticks: 1, literal: String::new() }).xml_node_name(),
        "code"
    );
    assert_eq!(TableAlignment::Center.xml_name(), Some("center"));
    assert_eq!(TableAlignment::Unaligned.xml_name(), None);
    assert_eq!(ListDelimType::Paren.xml_name(), "paren");
}

#[test]
fn nodes_can_contain_type() {
    let item = NodeValue::Item(NodeList::default());
    assert!(can_contain_type(&NodeValue::Document, &NodeValue::Paragraph));
    assert!(!can_contain_type(&NodeValue::Document, &NodeValue::Document));
    assert!(can_contain_type(&NodeValue::Document, &NodeValue::FrontMatter("x".into())));
    assert!(!can_contain_type(&NodeValue::Paragraph, &NodeValue::FrontMatter("x".into())));
    assert!(!can_contain_type(&NodeValue::Document, &item));
    assert!(can_contain_type(&NodeValue::List(NodeList::default()), &item));
    assert!(can_contain_type(&NodeValue::Paragraph, &NodeValue::Emph));
    assert!(!can_contain_type(&NodeValue::Paragraph, &NodeValue::Paragraph));
    assert!(can_contain_type(&NodeValue::TableCell, &NodeValue::Text("x".into())));
    assert!(!can_contain_type(&NodeValue::TableCell, &NodeValue::SoftBreak));
    assert!(!can_contain_type(&NodeValue::ThematicBreak, &NodeValue::Text("x".into())));
}

#[test]
fn nodes_positions() {
    let lc = LineColumn { line: 3, column: 5 };
    assert_eq!(lc.column_add(-2), LineColumn { line: 3, column: 3 });
    assert_eq!(lc.column_add(4), LineColumn { line: 3, column: 9 });
    let sp: Sourcepos = (1, 2, 3, 4).into();
    assert_eq!(sp.start, LineColumn { line: 1, column: 2 });
    assert_eq!(sp.end, LineColumn { line: 3, column: 4 });
    let lc2: LineColumn = (7, 8).into();
    assert_eq!(lc2, LineColumn { line: 7, column: 8 });
    let ast = Ast::new(NodeValue::Paragraph, lc);
    assert_eq!(ast.sourcepos, (3, 5, 3, 0).into());
    assert!(ast.open);
    assert!(ast.content.is_empty());
}

#[test]
fn node_block_parser_values() {
    assert!(NodeVal::Paragraph.block());
    assert!(!NodeVal::Emph.block());
    assert!(NodeVal::CodeBlock(Default::default()).accepts_lines());
    assert!(NodeVal::Heading(OldHeading { level: 2, setext: true }).contains_inlines());
    assert!(NodeVal::Document.can_contain_type(&NodeVal::Paragraph));
    assert!(!NodeVal::Document.can_contain_type(&NodeVal::Item));
    assert!(NodeVal::List.can_contain_type(&NodeVal::Item));
    assert!(NodeVal::CustomBlock.can_contain_type(&NodeVal::Text(vec![])));
    assert!(!NodeVal::Paragraph.can_contain_type(&NodeVal::Paragraph));
    let mut t = NodeVal::Text(b"ab".to_vec());
    if let Some(v) = t.text() {
        v.push(b'c');
    }
    assert!(matches!(t, NodeVal::Text(ref v) if v == b"abc"));
    let b = make_block(NodeVal::Paragraph, 4, 2);
    assert_eq!(b.start_line, 4);
    assert_eq!(b.end_line, 4);
    assert_eq!(b.end_column, 0);
    assert!(b.open && !b.last_line_blank && b.content.is_empty());
}

#[test]
fn alert_titles_and_classes() {
    assert_eq!(AlertType::Warning.default_title(), "Warning");
    assert_eq!(AlertType::Tip.css_class(), "alert-tip");
    assert_eq!(AlertType::default(), AlertType::Note);
}

#[test]
fn shortcode_resolution() {
    let r = NodeShortCode::resolve("rabbit").unwrap();
    assert_eq!(r.code, "rabbit");
    assert_eq!(r.emoji, "🐰");
    assert!(NodeShortCode::resolve("not_an_emoji_name").is_none());
}
