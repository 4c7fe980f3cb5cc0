//! Adapter traits for plugins.
//!
//! Each plugin has to implement one of the traits available in this module.

use vstd::prelude::*;

use crate::nodes::Sourcepos;

verus! {

/// Implement this adapter for creating a plugin for custom syntax highlighting of codefence blocks.
pub trait SyntaxHighlighterAdapter {
    /// The syntax highlighted HTML of `code` in the language `lang` (the
    /// info string of the code block after the opening fence).
    fn write_highlighted(&self, lang: Option<&str>, code: &str) -> String;

    /// The opening `<pre>` tag, given the attributes comrak provides.
    fn write_pre_tag(&self, attributes: Vec<(String, String)>) -> String;

    /// The opening `<code>` tag, given the attributes comrak provides.
    fn write_code_tag(&self, attributes: Vec<(String, String)>) -> String;
}

/// The struct passed to the [`HeadingAdapter`] for custom heading implementations.
#[derive(Clone, Debug)]
pub struct HeadingMeta {
    /// The level of the heading; from 1 to 6 for ATX headings, 1 or 2 for setext headings.
    pub level: u8,
    /// The content of the heading, flattened to text.
    pub content: String,
}

/// Implement this adapter for creating a plugin for custom headings (`h1`,
/// `h2`, etc.).
pub trait HeadingAdapter {
    /// The opening tag of a heading.
    fn enter(&self, heading: &HeadingMeta, sourcepos: Option<Sourcepos>) -> String;

    /// The closing tag of a heading.
    fn exit(&self, heading: &HeadingMeta) -> String;
}

} // verus!
