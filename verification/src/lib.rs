//! A CommonMark and GitHub Flavored Markdown toolkit: character classes,
//! string normalisation, line scanners, entity decoding and output escaping.

pub mod ctype;

pub mod text;
pub mod strings;
pub mod entity;
pub mod parser;
pub mod html;
pub mod remstack;
pub mod scanners;
pub mod cm;
pub mod nodes;
pub mod node;
pub mod adapters;
pub mod arena_tree;

use vstd::prelude::*;

verus! {

/// The version of the crate.
pub fn version() -> (r: &'static str)
    ensures
        r@ == "0.1.0"@,
{
    "0.1.0"
}

} // verus!
