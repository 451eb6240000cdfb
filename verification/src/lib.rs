//! Magpie's app-side logic: task lines inside notes, dates and times, wiki
//! links and tags, backlinks, reminders, board columns and the small view
//! helpers of the launcher.
use vstd::prelude::*;

pub mod text;
pub mod num;
pub mod format_time;
pub mod note;
pub mod tasks;
pub mod board;
pub mod notes_view;
pub mod wiki_complete;
pub mod themes;
pub mod merge_view;
pub mod reminders;
pub mod diagnostics;
pub mod external_editor;
pub mod paths;
pub mod favicon;
pub mod config;
pub mod clip;
pub mod stats_view;
pub mod badges;
pub mod backlinks;
pub mod mask_view;
pub mod cli;
pub mod image_cache;
pub mod link_meta;
pub mod bookmark_import;
pub mod task_actions;
pub mod unified_search;
pub mod task_laws;
pub mod order_laws;
pub mod graph;
pub mod color_view;
pub mod rows;

verus! {

} // verus!
