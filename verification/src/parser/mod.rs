//! Parser-side types: autolink kinds, resolved references, options, the
//! inline scanner and table-row recognition.

pub mod alert;
pub mod attributes;
pub mod autolink;
pub mod blocks;
pub mod inlines;
pub mod list_marker;
pub mod math;
pub mod multiline_block_quote;
pub mod options;
pub mod phoenix_heex;
pub mod shortcodes;
pub mod table;

use vstd::prelude::*;

verus! {

/// The kind of an autolink.
#[derive(Debug, Clone, Copy, PartialEq, Eq, Structural)]
pub enum AutolinkType {
    /// A URI autolink, `<https://example.com>`.
    Uri,
    /// An email autolink, `<someone@example.com>`.
    Email,
}

/// A reference link's resolved details.
#[derive(Clone, Debug)]
pub struct ResolvedReference {
    /// The destination URL of the reference link.
    pub url: String,
    /// The text of the link.
    pub title: String,
}

} // verus!
