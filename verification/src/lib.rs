//! Memory and retrieval for code repositories and notes: chunking, entity extraction, a
//! document store with its post-acquire jobs, hierarchical summary trees, a code graph, and the
//! rules that rank and present what is recalled. Every function here is verified by Verus
//! against its contract, but for those marked `external_body`: they only call into an outside crate
//! or std, and their contracts, like those of the `assume_specification` items, are trusted.

pub mod api;
pub mod chunking;
pub mod config;
pub mod conventions;
pub mod embed;
pub mod graph;
pub mod graph_query;
pub mod index;
pub mod ingest;
pub mod jobs;
pub mod json;
pub mod llm;
pub mod mcp;
pub mod model;
pub mod pattern;
pub mod retrieve;
pub mod store;
pub mod syntax;
pub mod table;
pub mod text;
pub mod tree;
pub mod treesit;
pub mod vault;
