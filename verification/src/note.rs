//! A note as the app reads it: an id, a page name, a Markdown body and where
//! it came from.
use vstd::prelude::*;

verus! {

/// One note (page). `body` is the source of truth for its tasks and links.
#[derive(Debug, Clone)]
pub struct Note {
    pub id: i64,
    pub name: String,
    pub is_daily: bool,
    pub body: String,
    pub created_at_ms: i64,
    pub updated_at_ms: i64,
    pub source_app_id: Option<i64>,
    pub source_entry_id: Option<i64>,
}

} // verus!
