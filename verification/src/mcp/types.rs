//! What the tools work on, and the backend that they ask.

use vstd::prelude::*;

verus! {

/// A chunk of code that answers a search.
#[derive(Debug, Clone)]
pub struct CodeHit {
    pub path: String,
    pub line_start: Option<i64>,
    pub line_end: Option<i64>,
    pub snippet: String,
    /// In hundredths.
    pub score: i64,
}

/// A digest of the architecture or of a module.
#[derive(Debug, Clone)]
pub struct Digest {
    pub tree_key: String,
    pub label: Option<String>,
    pub body: String,
    /// In hundredths.
    pub score: i64,
}

/// A commit that answers a search of the history.
#[derive(Debug, Clone)]
pub struct CommitHit {
    pub key: String,
    pub title: String,
    pub author: String,
    /// In hundredths.
    pub score: i64,
}

/// One hop of a walk over the call graph.
#[derive(Debug, Clone)]
pub struct TraceHop {
    pub path: String,
    pub document_id: String,
    pub sym: String,
    pub edge_kind: String,
    /// In hundredths.
    pub confidence: i64,
    pub depth: usize,
}

/// What the tools ask. An error is shown as the tool's text.
pub trait CodeSearch {
    /// The chunks of code that answer a query.
    fn search(&self, query: &str, limit: usize) -> Result<Vec<CodeHit>, String>;

    /// The digest of the whole.
    fn get_architecture(&self, query: &str, limit: usize) -> Result<Vec<Digest>, String>;

    /// The digest of one directory.
    fn get_module(&self, path: &str, query: &str, limit: usize) -> Result<Vec<Digest>, String>;

    /// The commits that explain a change.
    fn why(&self, query: &str, limit: usize) -> Result<Vec<CommitHit>, String>;

    /// The coding conventions.
    fn get_conventions(&self) -> Result<String, String>;

    /// The hops from a symbol to its callers, or from a file to what it calls.
    fn trace_symbol(
        &self,
        sym: Option<&str>,
        path: Option<&str>,
        direction: &str,
        depth: usize,
        limit: usize,
    ) -> Result<Vec<TraceHop>, String>;
}

} // verus!
