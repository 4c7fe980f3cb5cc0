//! GitHub-style alerts.

use vstd::prelude::*;

verus! {

/// The metadata of an Alert node.
#[derive(Debug, Clone, PartialEq, Eq)]
pub struct NodeAlert {
    /// Type of alert
    pub alert_type: AlertType,
    /// Overridden title. If None, then use the default title.
    pub title: Option<String>,
    /// Originated from a multiline blockquote.
    pub multiline: bool,
}

/// The type of alert.
#[derive(Debug, Clone, Copy, PartialEq, Eq, Structural)]
pub enum AlertType {
    /// Useful information that users should know, even when skimming content
    Note,
    /// Helpful advice for doing things better or more easily
    Tip,
    /// Key information users need to know to achieve their goal
    Important,
    /// Urgent info that needs immediate user attention to avoid problems
    Warning,
    /// Advises about risks or negative outcomes of certain actions
    Caution,
}

impl Default for AlertType {
    fn default() -> (r: AlertType)
        ensures
            r == AlertType::Note,
    {
        AlertType::Note
    }
}

/// The title an alert of each type shows when none is given.
pub open spec fn default_title_spec(t: AlertType) -> Seq<char> {
    match t {
        AlertType::Note => "Note"@,
        AlertType::Tip => "Tip"@,
        AlertType::Important => "Important"@,
        AlertType::Warning => "Warning"@,
        AlertType::Caution => "Caution"@,
    }
}

/// The CSS class of an alert of each type.
pub open spec fn css_class_spec(t: AlertType) -> Seq<char> {
    match t {
        AlertType::Note => "alert-note"@,
        AlertType::Tip => "alert-tip"@,
        AlertType::Important => "alert-important"@,
        AlertType::Warning => "alert-warning"@,
        AlertType::Caution => "alert-caution"@,
    }
}

impl AlertType {
    /// Returns the default title for an alert type
    pub fn default_title(&self) -> (r: String)
        ensures
            r@ == default_title_spec(*self),
    {
        match *self {
            AlertType::Note => "Note".to_owned(),
            AlertType::Tip => "Tip".to_owned(),
            AlertType::Important => "Important".to_owned(),
            AlertType::Warning => "Warning".to_owned(),
            AlertType::Caution => "Caution".to_owned(),
        }
    }

    /// Returns the CSS class to use for an alert type
    pub fn css_class(&self) -> (r: String)
        ensures
            r@ == css_class_spec(*self),
    {
        match *self {
            AlertType::Note => "alert-note".to_owned(),
            AlertType::Tip => "alert-tip".to_owned(),
            AlertType::Important => "alert-important".to_owned(),
            AlertType::Warning => "alert-warning".to_owned(),
            AlertType::Caution => "alert-caution".to_owned(),
        }
    }
}

} // verus!
