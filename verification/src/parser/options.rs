//! Configuration for the parser and renderer.  Extensions affect both.

use std::sync::Arc;
use vstd::prelude::*;

use crate::adapters::{HeadingAdapter, SyntaxHighlighterAdapter};
use crate::parser::ResolvedReference;

verus! {

/// Umbrella options struct.
#[derive(Default, Clone)]
pub struct Options<'c> {
    /// Enable CommonMark extensions.
    pub extension: Extension<'c>,
    /// Configure parse-time options.
    pub parse: Parse<'c>,
    /// Configure render-time options.
    pub render: Render,
}

/// Options to select extensions.
#[derive(Default, Clone)]
pub struct Extension<'c> {
    /// Enables the strikethrough extension from the GFM spec.
    pub strikethrough: bool,
    /// Enables the tagfilter extension from the GFM spec.
    pub tagfilter: bool,
    /// Enables the table extension from the GFM spec.
    pub table: bool,
    /// Enables the autolink extension from the GFM spec.
    pub autolink: bool,
    /// Enables the task list items extension from the GFM spec.
    pub tasklist: bool,
    /// Enables the superscript Comrak extension.
    pub superscript: bool,
    /// Enables the header IDs Comrak extension; the prefix of the IDs.
    pub header_ids: Option<String>,
    /// Enables the footnotes extension per `cmark-gfm`.
    pub footnotes: bool,
    /// Enables the inline footnotes extension.
    pub inline_footnotes: bool,
    /// Enables the description lists extension.
    pub description_lists: bool,
    /// Enables the front matter extension; the delimiter of the front matter.
    pub front_matter_delimiter: Option<String>,
    /// Enables the multiline block quote extension.
    pub multiline_block_quotes: bool,
    /// Enables GitHub style alerts.
    pub alerts: bool,
    /// Enables math using dollar syntax.
    pub math_dollars: bool,
    /// Enables math using code syntax.
    pub math_code: bool,
    /// Phrases wrapped inside of ':' blocks will be replaced with emojis.
    pub shortcodes: bool,
    /// Enables wikilinks using title after pipe syntax.
    pub wikilinks_title_after_pipe: bool,
    /// Enables wikilinks using title before pipe syntax.
    pub wikilinks_title_before_pipe: bool,
    /// Enables underlines using double underscores.
    pub underline: bool,
    /// Enables subscript text using single tildes.
    pub subscript: bool,
    /// Enables spoilers using double vertical bars.
    pub spoiler: bool,
    /// Requires at least one space after a `>` character to generate a blockquote.
    pub greentext: bool,
    /// Wraps embedded image URLs using a function or custom trait object.
    pub image_url_rewriter: Option<Arc<dyn URLRewriter + 'c>>,
    /// Wraps link URLs using a function or custom trait object.
    pub link_url_rewriter: Option<Arc<dyn URLRewriter + 'c>>,
    /// Recognizes emphasis that appears in CJK contexts but is not recognized by plain CommonMark.
    pub cjk_friendly_emphasis: bool,
    /// Enables block scoped subscript that acts similar to a header.
    pub subtext: bool,
}

/// Selects between wikilinks with the title first or the URL first.
#[derive(Debug, Clone, PartialEq, Eq, Structural, Copy)]
pub enum WikiLinksMode {
    /// The URL precedes the title, as in `[[http://example.com|link title]]`.
    UrlFirst,
    /// The title precedes the URL, as in `[[link title|http://example.com]]`.
    TitleFirst,
}

impl<'c> Extension<'c> {
    /// Which wikilink syntax is enabled, if any; with both, the URL comes
    /// first.
    pub fn wikilinks(&self) -> (r: Option<WikiLinksMode>)
        ensures
            !self.wikilinks_title_before_pipe && !self.wikilinks_title_after_pipe ==> r is None,
            self.wikilinks_title_before_pipe && !self.wikilinks_title_after_pipe ==> r == Some(
                WikiLinksMode::TitleFirst,
            ),
            self.wikilinks_title_after_pipe ==> r == Some(WikiLinksMode::UrlFirst),
    {
        match (self.wikilinks_title_before_pipe, self.wikilinks_title_after_pipe) {
            (false, false) => None,
            (true, false) => Some(WikiLinksMode::TitleFirst),
            (_, _) => Some(WikiLinksMode::UrlFirst),
        }
    }
}

/// Trait for link and image URL rewrite extensions.
pub trait URLRewriter {
    /// Converts the given URL from Markdown to its representation when output as HTML.
    fn to_html(&self, url: &str) -> String;
}

/// Options for parser functions.
#[derive(Default, Clone)]
pub struct Parse<'c> {
    /// Punctuation (quotes, full-stops and hyphens) are converted into 'smart' punctuation.
    pub smart: bool,
    /// The default info string for fenced code blocks.
    pub default_info_string: Option<String>,
    /// Whether any symbol, not only `x` or `X`, checks a task list item.
    pub relaxed_tasklist_matching: bool,
    /// Whether tasklist items can be parsed in table cells.
    pub tasklist_in_table: bool,
    /// Relax parsing of autolinks: allow links to be detected inside brackets, and any URL scheme.
    pub relaxed_autolinks: bool,
    /// Ignore setext headings in input.
    pub ignore_setext: bool,
    /// A callback that may resolve a link reference that has no definition.
    pub broken_link_callback: Option<Arc<dyn BrokenLinkCallback + 'c>>,
    /// Leave footnote definitions in place in the document tree.
    pub leave_footnote_definitions: bool,
    /// Leave escaped characters in an `Escaped` node in the document tree.
    pub escaped_char_spans: bool,
}

/// The type of the callback used when a reference link is encountered with no
/// matching reference.
pub trait BrokenLinkCallback {
    /// Potentially resolve a single broken link reference.
    fn resolve(&self, broken_link_reference: BrokenLinkReference) -> Option<ResolvedReference>;
}

/// The details of a link reference that found no match.
#[derive(Debug)]
pub struct BrokenLinkReference<'l> {
    /// The normalized reference link label.
    pub normalized: &'l str,
    /// The original text in the link label.
    pub original: &'l str,
}

/// Options for formatter functions.
#[derive(Default, Debug, Clone, Copy)]
pub struct Render {
    /// Soft line breaks in the input translate into hard line breaks in the output.
    pub hardbreaks: bool,
    /// GitHub-style `<pre lang="xyz">` is used for fenced code blocks with info tags.
    pub github_pre_lang: bool,
    /// Enable full info strings for code blocks.
    pub full_info_string: bool,
    /// The wrap column when outputting CommonMark.
    pub width: usize,
    /// Render raw HTML and dangerous URLs as they are; otherwise raw HTML
    /// is replaced by a comment and dangerous URLs are dropped.
    pub unsafe_: bool,
    /// Escape raw HTML instead of clobbering it.
    pub escape: bool,
    /// The bullet list marker to use in CommonMark output.
    pub list_style: ListStyleType,
    /// Include source position attributes in HTML and XML output.
    pub sourcepos: bool,
    /// Wrap escaped characters in a `<span>`.
    pub escaped_char_spans: bool,
    /// Ignore empty links in input.
    pub ignore_empty_links: bool,
    /// Enables GFM quirks in HTML output which break CommonMark compatibility.
    pub gfm_quirks: bool,
    /// Prefer fenced code blocks when outputting CommonMark.
    pub prefer_fenced: bool,
    /// Render the image as a figure element with the title as its caption.
    pub figure_with_caption: bool,
    /// Add classes to the output of the tasklist extension.
    pub tasklist_classes: bool,
    /// Render ordered list with a minimum marker width.
    pub ol_width: usize,
    /// Minimise escapes used in CommonMark output.
    pub experimental_minimize_commonmark: bool,
    /// Leave out the line feeds that HTML output puts between blocks.
    pub compact_html: bool,
}

/// The bullet list marker of CommonMark output.
#[derive(Debug, Clone, Copy, PartialEq, Eq, Structural)]
pub enum ListStyleType {
    /// The `-` character
    Dash,
    /// The `+` character
    Plus,
    /// The `*` character
    Star,
}

impl Default for ListStyleType {
    fn default() -> (r: ListStyleType)
        ensures
            r == ListStyleType::Dash,
    {
        ListStyleType::Dash
    }
}

impl ListStyleType {
    /// The marker character, as a byte.
    pub fn as_byte(&self) -> (r: u8)
        ensures
            *self == ListStyleType::Dash ==> r == 45,
            *self == ListStyleType::Plus ==> r == 43,
            *self == ListStyleType::Star ==> r == 42,
    {
        match *self {
            ListStyleType::Dash => 45,
            ListStyleType::Plus => 43,
            ListStyleType::Star => 42,
        }
    }
}

/// Umbrella plugins struct.
#[derive(Default, Clone)]
pub struct Plugins<'p> {
    /// Configure render-time plugins.
    pub render: RenderPlugins<'p>,
}

/// Plugins for alternative rendering.
#[derive(Default, Clone)]
pub struct RenderPlugins<'p> {
    /// A syntax highlighter for code blocks.
    pub codefence_syntax_highlighter: Option<&'p dyn SyntaxHighlighterAdapter>,
    /// A renderer for headings.
    pub heading_adapter: Option<&'p dyn HeadingAdapter>,
}

} // verus!
