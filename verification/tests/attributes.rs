use comrak::parser::attributes::parse_attributes;

#[test]
fn trivial() {
    assert!(parse_attributes("").is_none());
}

#[test]
fn attribute_block_not_recognised() {
    assert!(parse_attributes("{#id .class}").is_none());
}
