//! The store: documents, their embedded chunks and mentioned entities, post-acquire jobs,
//! summary-tree nodes and code-graph edges, as tables with unique keys. Namespaces keep their
//! rows apart. Every change is all or nothing.

use crate::model::{Doc, EdgeKind, MemoryDoc};
use crate::table::{distinct_by, rows, Row};
use crate::text::{copy_opt, opt_text};
use vstd::prelude::*;

pub mod bytes;
pub mod chunks;
pub mod docs;
pub mod edges;
pub mod entities;
pub mod ingest;
pub mod jobs;
pub mod tables;
pub mod trees;

verus! {

// ---------------------------------------------------------------------------------------------
// Rows.
// ---------------------------------------------------------------------------------------------

/// One embedded chunk of a document. An embedding is a list of 32-bit float patterns.
#[derive(Debug)]
pub struct StoredChunk {
    pub namespace: String,
    pub document_id: String,
    pub chunk_id: String,
    pub text: String,
    pub embedding: Vec<u32>,
    pub signature: String,
    pub created_at: u64,
    pub line_start: Option<u64>,
    pub line_end: Option<u64>,
}

/// What a stored chunk holds.
#[verifier::ext_equal]
pub struct Chunk {
    pub namespace: Seq<char>,
    pub document_id: Seq<char>,
    pub chunk_id: Seq<char>,
    pub text: Seq<char>,
    pub embedding: Seq<u32>,
    pub signature: Seq<char>,
    pub created_at: u64,
    pub line_start: Option<u64>,
    pub line_end: Option<u64>,
}

impl View for StoredChunk {
    type V = Chunk;

    open spec fn view(&self) -> Chunk {
        Chunk {
            namespace: self.namespace@,
            document_id: self.document_id@,
            chunk_id: self.chunk_id@,
            text: self.text@,
            embedding: self.embedding@,
            signature: self.signature@,
            created_at: self.created_at,
            line_start: self.line_start,
            line_end: self.line_end,
        }
    }
}

/// A copy of an embedding.
pub fn copy_embedding(v: &Vec<u32>) -> (r: Vec<u32>)
    ensures
        r@ == v@,
{
    let mut out: Vec<u32> = Vec::new();
    for i in 0..v.len()
        invariant
            out@ == v@.take(i as int),
    {
        out.push(v[i]);
        assert(v@.take(i + 1) =~= v@.take(i as int).push(v@[i as int]));
    }
    assert(v@.take(v@.len() as int) =~= v@);
    out
}

impl Row for StoredChunk {
    fn copy(&self) -> (r: Self) {
        StoredChunk {
            namespace: self.namespace.clone(),
            document_id: self.document_id.clone(),
            chunk_id: self.chunk_id.clone(),
            text: self.text.clone(),
            embedding: copy_embedding(&self.embedding),
            signature: self.signature.clone(),
            created_at: self.created_at,
            line_start: self.line_start,
            line_end: self.line_end,
        }
    }
}

/// One entity mentioned in one chunk.
#[derive(Debug)]
pub struct StoredMention {
    pub namespace: String,
    pub chunk_id: String,
    pub document_id: String,
    pub entity_id: String,
}

/// What a stored mention holds.
#[verifier::ext_equal]
pub struct Mention {
    pub namespace: Seq<char>,
    pub chunk_id: Seq<char>,
    pub document_id: Seq<char>,
    pub entity_id: Seq<char>,
}

impl View for StoredMention {
    type V = Mention;

    open spec fn view(&self) -> Mention {
        Mention {
            namespace: self.namespace@,
            chunk_id: self.chunk_id@,
            document_id: self.document_id@,
            entity_id: self.entity_id@,
        }
    }
}

impl Row for StoredMention {
    fn copy(&self) -> (r: Self) {
        StoredMention {
            namespace: self.namespace.clone(),
            chunk_id: self.chunk_id.clone(),
            document_id: self.document_id.clone(),
            entity_id: self.entity_id.clone(),
        }
    }
}

/// Where a job stands.
#[derive(Debug, Clone, Copy, PartialEq, Eq, Structural)]
pub enum JobStatus {
    Pending,
    Running,
    Done,
    Failed,
}

/// One post-acquire job.
#[derive(Debug)]
pub struct StoredJob {
    pub job_id: String,
    pub namespace: String,
    pub document_id: String,
    pub status: JobStatus,
    pub attempts: i64,
    pub last_error: Option<String>,
    pub created_at: u64,
    pub updated_at: u64,
}

/// What a stored job holds.
#[verifier::ext_equal]
pub struct JobRow {
    pub job_id: Seq<char>,
    pub namespace: Seq<char>,
    pub document_id: Seq<char>,
    pub status: JobStatus,
    pub attempts: i64,
    pub last_error: Option<Seq<char>>,
    pub created_at: u64,
    pub updated_at: u64,
}

impl View for StoredJob {
    type V = JobRow;

    open spec fn view(&self) -> JobRow {
        JobRow {
            job_id: self.job_id@,
            namespace: self.namespace@,
            document_id: self.document_id@,
            status: self.status,
            attempts: self.attempts,
            last_error: opt_text(self.last_error),
            created_at: self.created_at,
            updated_at: self.updated_at,
        }
    }
}

impl Row for StoredJob {
    fn copy(&self) -> (r: Self) {
        StoredJob {
            job_id: self.job_id.clone(),
            namespace: self.namespace.clone(),
            document_id: self.document_id.clone(),
            status: self.status,
            attempts: self.attempts,
            last_error: copy_opt(&self.last_error),
            created_at: self.created_at,
            updated_at: self.updated_at,
        }
    }
}

/// One node of a summary tree: a leaf at level 0, a summary above.
#[derive(Debug)]
pub struct TreeNode {
    pub node_id: String,
    pub namespace: String,
    pub tree_kind: String,
    pub tree_key: String,
    pub level: i64,
    pub seq: u64,
    pub sealed: bool,
    pub label: Option<String>,
    pub body: String,
    pub doc_id: Option<String>,
    pub token_count: u64,
    pub embedding: Vec<u32>,
    pub signature: String,
    pub created_at: u64,
    pub sealed_at: Option<u64>,
}

/// What a tree node holds.
#[verifier::ext_equal]
pub struct Node {
    pub node_id: Seq<char>,
    pub namespace: Seq<char>,
    pub tree_kind: Seq<char>,
    pub tree_key: Seq<char>,
    pub level: i64,
    pub seq: u64,
    pub sealed: bool,
    pub label: Option<Seq<char>>,
    pub body: Seq<char>,
    pub doc_id: Option<Seq<char>>,
    pub token_count: u64,
    pub embedding: Seq<u32>,
    pub signature: Seq<char>,
    pub created_at: u64,
    pub sealed_at: Option<u64>,
}

impl View for TreeNode {
    type V = Node;

    open spec fn view(&self) -> Node {
        Node {
            node_id: self.node_id@,
            namespace: self.namespace@,
            tree_kind: self.tree_kind@,
            tree_key: self.tree_key@,
            level: self.level,
            seq: self.seq,
            sealed: self.sealed,
            label: opt_text(self.label),
            body: self.body@,
            doc_id: opt_text(self.doc_id),
            token_count: self.token_count,
            embedding: self.embedding@,
            signature: self.signature@,
            created_at: self.created_at,
            sealed_at: self.sealed_at,
        }
    }
}

impl Row for TreeNode {
    fn copy(&self) -> (r: Self) {
        TreeNode {
            node_id: self.node_id.clone(),
            namespace: self.namespace.clone(),
            tree_kind: self.tree_kind.clone(),
            tree_key: self.tree_key.clone(),
            level: self.level,
            seq: self.seq,
            sealed: self.sealed,
            label: copy_opt(&self.label),
            body: self.body.clone(),
            doc_id: copy_opt(&self.doc_id),
            token_count: self.token_count,
            embedding: copy_embedding(&self.embedding),
            signature: self.signature.clone(),
            created_at: self.created_at,
            sealed_at: self.sealed_at,
        }
    }
}

/// A summary node and one of the nodes it summarises.
#[derive(Debug)]
pub struct StoredLink {
    pub parent_id: String,
    pub child_id: String,
}

/// What a stored link holds.
#[verifier::ext_equal]
pub struct Link {
    pub parent_id: Seq<char>,
    pub child_id: Seq<char>,
}

impl View for StoredLink {
    type V = Link;

    open spec fn view(&self) -> Link {
        Link { parent_id: self.parent_id@, child_id: self.child_id@ }
    }
}

impl Row for StoredLink {
    fn copy(&self) -> (r: Self) {
        StoredLink { parent_id: self.parent_id.clone(), child_id: self.child_id.clone() }
    }
}

/// A code-graph edge together with the document that it starts from.
#[derive(Debug)]
pub struct StoredEdge {
    pub namespace: String,
    pub src_doc_id: String,
    pub dst_sym: String,
    pub dst_doc_id: Option<String>,
    pub edge_kind: EdgeKind,
    pub src_line: Option<u64>,
    pub confidence: u32,
}

/// What a stored edge holds.
#[verifier::ext_equal]
pub struct CodeEdge {
    pub namespace: Seq<char>,
    pub src_doc_id: Seq<char>,
    pub dst_sym: Seq<char>,
    pub dst_doc_id: Option<Seq<char>>,
    pub edge_kind: EdgeKind,
    pub src_line: Option<u64>,
    pub confidence: u32,
}

impl View for StoredEdge {
    type V = CodeEdge;

    open spec fn view(&self) -> CodeEdge {
        CodeEdge {
            namespace: self.namespace@,
            src_doc_id: self.src_doc_id@,
            dst_sym: self.dst_sym@,
            dst_doc_id: opt_text(self.dst_doc_id),
            edge_kind: self.edge_kind,
            src_line: self.src_line,
            confidence: self.confidence,
        }
    }
}

impl Row for StoredEdge {
    fn copy(&self) -> (r: Self) {
        StoredEdge {
            namespace: self.namespace.clone(),
            src_doc_id: self.src_doc_id.clone(),
            dst_sym: self.dst_sym.clone(),
            dst_doc_id: copy_opt(&self.dst_doc_id),
            edge_kind: self.edge_kind,
            src_line: self.src_line,
            confidence: self.confidence,
        }
    }
}

// ---------------------------------------------------------------------------------------------
// The store.
// ---------------------------------------------------------------------------------------------

/// All that the store holds, table by table, in the order in which the rows came.
#[verifier::ext_equal]
pub struct State {
    pub docs: Seq<Doc>,
    pub chunks: Seq<Chunk>,
    pub mentions: Seq<Mention>,
    pub jobs: Seq<JobRow>,
    pub nodes: Seq<Node>,
    pub links: Seq<Link>,
    pub edges: Seq<CodeEdge>,
}

/// The tables.
#[derive(Debug)]
pub struct Store {
    docs: Vec<MemoryDoc>,
    chunks: Vec<StoredChunk>,
    mentions: Vec<StoredMention>,
    jobs: Vec<StoredJob>,
    nodes: Vec<TreeNode>,
    links: Vec<StoredLink>,
    edges: Vec<StoredEdge>,
}

impl View for Store {
    type V = State;

    closed spec fn view(&self) -> State {
        State {
            docs: rows(self.docs@),
            chunks: rows(self.chunks@),
            mentions: rows(self.mentions@),
            jobs: rows(self.jobs@),
            nodes: rows(self.nodes@),
            links: rows(self.links@),
            edges: rows(self.edges@),
        }
    }
}

pub open spec fn doc_key() -> spec_fn(Doc) -> (Seq<char>, Seq<char>) {
    |d: Doc| (d.namespace, d.key)
}

pub open spec fn doc_id_key() -> spec_fn(Doc) -> Seq<char> {
    |d: Doc| d.document_id
}

pub open spec fn chunk_key() -> spec_fn(Chunk) -> (Seq<char>, Seq<char>) {
    |c: Chunk| (c.namespace, c.chunk_id)
}

pub open spec fn mention_key() -> spec_fn(Mention) -> (Seq<char>, Seq<char>, Seq<char>) {
    |m: Mention| (m.namespace, m.chunk_id, m.entity_id)
}

pub open spec fn job_key() -> spec_fn(JobRow) -> Seq<char> {
    |j: JobRow| j.job_id
}

pub open spec fn node_key() -> spec_fn(Node) -> Seq<char> {
    |n: Node| n.node_id
}

/// The place of a node: its tree, its level and its number there.
pub open spec fn node_place() -> spec_fn(Node) -> (Seq<char>, Seq<char>, Seq<char>, i64, u64) {
    |n: Node| (n.namespace, n.tree_kind, n.tree_key, n.level, n.seq)
}

pub open spec fn link_key() -> spec_fn(Link) -> (Seq<char>, Seq<char>) {
    |l: Link| (l.parent_id, l.child_id)
}

pub open spec fn edge_key() -> spec_fn(CodeEdge) -> (Seq<char>, Seq<char>, Seq<char>, EdgeKind) {
    |e: CodeEdge| (e.namespace, e.src_doc_id, e.dst_sym, e.edge_kind)
}

impl State {
    /// Every table's keys are unique: a document by its id and by namespace and key, a chunk by
    /// namespace and chunk id, a mention by namespace, chunk and entity, a job and a node by id,
    /// a node by its place in its tree, a link by its ends, an edge by its ends and kind.
    pub open spec fn wf(self) -> bool {
        &&& distinct_by(self.docs, doc_key())
        &&& distinct_by(self.docs, doc_id_key())
        &&& distinct_by(self.chunks, chunk_key())
        &&& distinct_by(self.mentions, mention_key())
        &&& distinct_by(self.jobs, job_key())
        &&& distinct_by(self.nodes, node_key())
        &&& distinct_by(self.nodes, node_place())
        &&& distinct_by(self.links, link_key())
        &&& distinct_by(self.edges, edge_key())
    }

    /// A store without any row.
    pub open spec fn empty() -> State {
        State {
            docs: Seq::empty(),
            chunks: Seq::empty(),
            mentions: Seq::empty(),
            jobs: Seq::empty(),
            nodes: Seq::empty(),
            links: Seq::empty(),
            edges: Seq::empty(),
        }
    }
}

/// A fresh random id: `uuid::Uuid::new_v4`, written with hyphens. Nothing is promised of the
/// result; not even that it is new.
#[verifier::external_body]
pub(crate) fn random_id() -> String {
    uuid::Uuid::new_v4().to_string()
}

impl Store {
    /// An empty store.
    pub fn new() -> (s: Store)
        ensures
            s@ == State::empty(),
            s@.wf(),
    {
        let s = Store {
            docs: Vec::new(),
            chunks: Vec::new(),
            mentions: Vec::new(),
            jobs: Vec::new(),
            nodes: Vec::new(),
            links: Vec::new(),
            edges: Vec::new(),
        };
        assert(s@ =~= State::empty());
        s
    }
}

} // verus!
