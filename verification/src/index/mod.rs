//! Indexing a git repository: which files are sent, what a diff and a log say, and what each
//! request is.

pub use client::build_by_key_url;
pub use commits::{parse_git_log, CommitRecord, GIT_LOG_FORMAT};
pub use diff::{parse_diff_line, DiffEntry};
pub use walk::should_index;

pub mod client;
pub mod commits;
pub mod diff;
pub mod hook;
pub mod run;
pub mod walk;
