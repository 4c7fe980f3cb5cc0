use comrak::html::anchorizer::Anchorizer;
use comrak::html::context::Context;
use comrak::parser::inlines::cjk::{
    is_cjk, is_cjk_ambiguous_punctuation_candidate, is_cjk_or_ideographic_vs,
    is_cmark_punctuation, is_ideographic_vs, is_non_emoji_general_purpose_vs,
};
use comrak::parser::options::{Extension, ListStyleType, Options, Plugins, WikiLinksMode};

#[test]
fn anchorizer_suffixes_repeats() {
    let mut anchorizer = Anchorizer::new();
    assert_eq!("stuff", anchorizer.anchorize("Stuff"));
    assert_eq!("stuff-1", anchorizer.anchorize("Stuff"));
    assert_eq!("stuff-2", anchorizer.anchorize("stuff"));
    assert_eq!("stuff-1-1", anchorizer.anchorize("stuff-1"));
}

#[test]
fn anchorizer_drops_problem_characters() {
    let mut anchorizer = Anchorizer::new();
    assert_eq!("ticks-arent-in", anchorizer.anchorize("Ticks aren't in"));
    assert_eq!("hello_world-42", anchorizer.anchorize("Hello_World 42!"));
    assert_eq!("", anchorizer.anchorize("???"));
    assert_eq!("-1", anchorizer.anchorize("!!!"));
    assert_eq!("émoji-", anchorizer.anchorize("Émoji 🎉"));
}

#[test]
fn context_line_handling() {
    let options = Options::default();
    let plugins = Plugins::default();
    let mut ctx = Context::new(&options, &plugins, 7u32);
    ctx.cr();
    ctx.write_str("<p>");
    ctx.escape("a<b");
    ctx.write_str("</p>");
    ctx.cr();
    ctx.cr();
    ctx.lf();
    ctx.escape_href("a b");
    let (out, user) = ctx.finish();
    assert_eq!(out, "<p>a&lt;b</p>\n\na%20b");
    assert_eq!(user, 7);
}

#[test]
fn context_compact_html() {
    let mut options = Options::default();
    options.render.compact_html = true;
    let plugins = Plugins::default();
    let mut ctx = Context::new(&options, &plugins, ());
    ctx.write_str("x");
    ctx.cr();
    ctx.lf();
    let (out, _) = ctx.finish();
    assert_eq!(out, "x");
}

#[test]
fn options_wikilinks_and_list_style() {
    let mut ext = Extension::default();
    assert_eq!(ext.wikilinks(), None);
    ext.wikilinks_title_before_pipe = true;
    assert_eq!(ext.wikilinks(), Some(WikiLinksMode::TitleFirst));
    ext.wikilinks_title_after_pipe = true;
    assert_eq!(ext.wikilinks(), Some(WikiLinksMode::UrlFirst));
    assert_eq!(ListStyleType::default().as_byte(), b'-');
    assert_eq!(ListStyleType::Star.as_byte(), b'*');
}

#[test]
fn cjk_classes() {
    assert!(is_cjk('漢'));
    assert!(is_cjk('あ'));
    assert!(!is_cjk('a'));
    assert!(is_non_emoji_general_purpose_vs('\u{fe01}'));
    assert!(!is_non_emoji_general_purpose_vs('\u{fe0f}'));
    assert!(is_ideographic_vs('\u{e0100}'));
    assert!(is_cjk_or_ideographic_vs('\u{e0100}'));
    assert!(is_cjk_ambiguous_punctuation_candidate('\u{201c}'));
    assert!(is_cmark_punctuation('!'));
    assert!(is_cmark_punctuation('$'));
    assert!(!is_cmark_punctuation('a'));
}
