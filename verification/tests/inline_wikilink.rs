use comrak::parser::inlines::Scanner;
use comrak::parser::options::Options;

fn opts(url_first: bool) -> Options<'static> {
    let mut o = Options::default();
    if url_first {
        o.extension.wikilinks_title_after_pipe = true;
    } else {
        o.extension.wikilinks_title_before_pipe = true;
    }
    o
}

#[test]
fn wikilink_url_first() {
    let mut s = Scanner::new();
    s.pos = 1;
    let c = s.wikilink_url_link_label("[[url|label]] x", &opts(true)).expect("wikilink");
    assert_eq!(s.pos, 13);
    assert_eq!(c.url, "url");
    assert_eq!(c.link_label, Some(("label".to_string(), 6, 10)));
}

#[test]
fn wikilink_title_first() {
    let mut s = Scanner::new();
    s.pos = 1;
    let c = s.wikilink_url_link_label("[[url|label]] x", &opts(false)).expect("wikilink");
    assert_eq!(c.url, "label");
    assert_eq!(c.link_label, Some(("url".to_string(), 2, 4)));
}

#[test]
fn wikilink_without_label_is_trimmed() {
    let mut s = Scanner::new();
    s.pos = 1;
    let c = s.wikilink_url_link_label("[[ a b ]]", &opts(true)).expect("wikilink");
    assert_eq!(s.pos, 9);
    assert_eq!(c.url, "a b");
    assert!(c.link_label.is_none());
}

#[test]
fn unclosed_wikilink_leaves_scanner() {
    let mut s = Scanner::new();
    s.pos = 1;
    assert!(s.wikilink_url_link_label("[[a|b]", &opts(true)).is_none());
    assert_eq!(s.pos, 1);
}

#[test]
fn wikilink_component_stops_at_bracket() {
    let mut s = Scanner::new();
    s.pos = 1;
    assert!(s.wikilink_component("[[a\\]b]]"));
    assert_eq!(s.pos, 6);
}
