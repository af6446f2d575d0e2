//! Line-level authorship tracking for AI-assisted edits.

pub mod apply;
pub mod authorship_log;
pub mod blame_args;
pub mod char_merge;
pub mod checkpoint_command;
pub mod blame_output;
pub mod blame_porcelain;
pub mod blame_summary;
pub mod config;
pub mod finalize;
pub mod foreign_prompts;
pub mod hooks;
pub mod internal_db;
pub mod line_range;
pub mod line_stats;
pub mod log_format;
pub mod merge;
pub mod post_commit;
pub mod prompt_links;
pub mod share_args;
pub mod share_config;
pub mod queries;
pub mod repo_storage;
pub mod rewrite_args;
pub mod round_trip;
pub mod squash;
pub mod stash;
pub mod stats_delta;
pub mod status;
pub mod str_map;
pub mod text;
pub mod transcript;
pub mod virtual_attribution;
pub mod working_log;
