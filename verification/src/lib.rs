use vstd::prelude::*;

pub mod agent_preset;
pub mod attribution;
pub mod config;
pub mod copilot_session;
pub mod cursor_composer;
pub mod authorship_log;
pub mod authorship_log_cache;
pub mod authorship_log_v3;
pub mod blame_log;
pub mod blame;
pub mod checkpoint;
pub mod ci;
pub mod commit_author;
pub mod commit_range;
pub mod git_sync;
pub mod ide_hooks;
pub mod json;
pub mod line_diff;
pub mod line_range;
pub mod log_laws;
pub mod log_text_laws;
pub mod notes_check;
pub mod post_commit;
pub mod rebase;
pub mod reflog;
pub mod stats;
pub mod str_map;
pub mod text;
pub mod upgrade;
pub mod working_log;

verus! {

} // verus!
