//! The events that are broadcast to live sessions.

use vstd::prelude::*;

verus! {

/// A cell that was written, as the other sessions see it: the resolved
/// value, never the formula text.
#[derive(Debug, PartialEq, Eq)]
pub struct CellUpdate {
    pub sheet: String,
    pub row: i32,
    pub col: i32,
    pub value: String,
    pub font_weight: Option<String>,
    pub font_style: Option<String>,
    pub background_color: Option<String>,
    pub user_id: String,
}

/// A session joined.
#[derive(Debug, PartialEq, Eq)]
pub struct UserJoined {
    pub user_id: String,
}

/// A session left.
#[derive(Debug, PartialEq, Eq)]
pub struct UserLeft {
    pub user_id: String,
}

} // verus!
