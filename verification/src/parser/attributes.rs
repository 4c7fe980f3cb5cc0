//! Inline attribute blocks (`{#id .class key=value}`).
//!
//! Recognition of attribute blocks is not enabled: no input is accepted yet,
//! so every call reports that no attribute block starts the input.

use vstd::prelude::*;

verus! {

/// The attributes carried by an attribute block, as key/value pairs in the
/// order they were written.
pub type Attributes = Vec<(String, String)>;

/// Parses an attribute block at the start of `input`, giving the attributes
/// and the number of bytes consumed.  No attribute syntax is recognised, so
/// the result is always `None`.
pub fn parse_attributes(input: &str) -> (r: Option<(Attributes, usize)>)
    ensures
        r is None,
{
    None
}

} // verus!
