//! The tools of the code-knowledge server: JSON-RPC messages in, JSON-RPC messages out.

pub use format::{format_commits, format_digests, format_hits, format_trace};
pub use rpc::{dispatch, handle_message};
pub use types::{CodeHit, CodeSearch, CommitHit, Digest, TraceHop};

pub mod format;
pub mod request;
pub mod rpc;
pub mod types;
