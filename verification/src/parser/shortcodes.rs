//! Emoji shortcodes such as `:rabbit:`.

use vstd::prelude::*;

verus! {

/// The emoji that the gemoji shortcode `code` names, in the table of the
/// `emojis` crate.
pub uninterp spec fn shortcode_emoji(code: Seq<char>) -> Option<Seq<char>>;

/// `emojis::get_by_shortcode`, the emoji written out as a string: a lookup
/// in the crate's fixed table of shortcodes.
#[verifier::external_body]
fn emoji_by_shortcode(code: &str) -> (r: Option<String>)
    ensures
        r matches Some(e) ==> shortcode_emoji(code@) == Some(e@),
        r is None ==> shortcode_emoji(code@) is None,
{
    emojis::get_by_shortcode(code).map(|e| e.as_str().to_owned())
}

/// The details of an inline "shortcode" emoji/gemoji.
#[derive(Debug, Clone, PartialEq, Eq)]
pub struct NodeShortCode {
    /// The shortcode that was resolved, e.g. "rabbit".
    pub code: String,
    /// The emoji `code` resolved to, e.g. "🐰".
    pub emoji: String,
}

impl NodeShortCode {
    /// Checks whether the input is a valid short code.
    pub fn resolve(code: &str) -> (r: Option<Self>)
        ensures
            shortcode_emoji(code@) is None ==> r is None,
            shortcode_emoji(code@) matches Some(e) ==> r matches Some(n) && n.code@ == code@
                && n.emoji@ == e,
    {
        let emoji = emoji_by_shortcode(code);
        match emoji {
            Some(e) => Some(NodeShortCode { code: code.to_owned(), emoji: e }),
            None => None,
        }
    }
}

} // verus!
