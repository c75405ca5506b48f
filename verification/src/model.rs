//! The data that the library keeps: documents, code-graph edges, and the errors it answers with.

use crate::table::Row;
use crate::text::{cat2, copy_opt, has_prefix, has_suffix, opt_text, same};
use vstd::prelude::*;

verus! {

/// What can go wrong.
#[derive(Debug, Clone)]
pub enum Error {
    /// The embedding service failed.
    Embed(String),
    /// The language model failed.
    Llm(String),
    /// A file could not be read or written.
    Io(String),
    /// There is no such document.
    NotFound,
    /// An id is already taken.
    Conflict,
    /// A counter has run out of numbers.
    Limit,
}

/// The message of an error.
pub open spec fn error_text(e: Error) -> Seq<char> {
    match e {
        Error::Embed(m) => "embed error: "@ + m@,
        Error::Llm(m) => "llm error: "@ + m@,
        Error::Io(m) => "io error: "@ + m@,
        Error::NotFound => "not found"@,
        Error::Conflict => "id already taken"@,
        Error::Limit => "out of numbers"@,
    }
}

impl Error {
    /// The message of the error.
    pub fn message(&self) -> (r: String)
        ensures
            r@ == error_text(*self),
    {
        match self {
            Error::Embed(m) => cat2("embed error: ", m.as_str()),
            Error::Llm(m) => cat2("llm error: ", m.as_str()),
            Error::Io(m) => cat2("io error: ", m.as_str()),
            Error::NotFound => "not found".to_owned(),
            Error::Conflict => "id already taken".to_owned(),
            Error::Limit => "out of numbers".to_owned(),
        }
    }
}

// ---------------------------------------------------------------------------------------------
// Documents.
// ---------------------------------------------------------------------------------------------

/// Where a document came from.
#[derive(Debug, Clone, Copy, PartialEq, Eq, Structural)]
pub enum Taint {
    Internal,
    ExternalSync,
}

impl Default for Taint {
    fn default() -> (t: Self)
        ensures
            t == Taint::Internal,
    {
        Taint::Internal
    }
}

/// The name under which a taint is stored.
pub open spec fn taint_text(t: Taint) -> Seq<char> {
    match t {
        Taint::Internal => "internal"@,
        Taint::ExternalSync => "external_sync"@,
    }
}

/// The taint with a stored name; any unknown name is internal.
pub open spec fn taint_of(s: Seq<char>) -> Taint {
    if s == "external_sync"@ {
        Taint::ExternalSync
    } else {
        Taint::Internal
    }
}

/// The name under which a taint is stored.
pub fn taint_str(t: Taint) -> (r: &'static str)
    ensures
        r@ == taint_text(t),
{
    match t {
        Taint::Internal => "internal",
        Taint::ExternalSync => "external_sync",
    }
}

/// The taint with a stored name; any unknown name is internal.
pub fn taint_from(s: &str) -> (r: Taint)
    ensures
        r == taint_of(s@),
{
    if same(s, "external_sync") {
        Taint::ExternalSync
    } else {
        Taint::Internal
    }
}

/// Law: a taint that is stored and read back is the same taint.
pub proof fn law_taint_round_trip(t: Taint)
    ensures
        taint_of(taint_text(t)) == t,
{
    reveal_strlit("internal");
    reveal_strlit("external_sync");
    assert("internal"@.len() != "external_sync"@.len());
}

/// A stored document. Times are microseconds since the Unix epoch; `meta` is JSON text.
#[derive(Debug, Clone)]
pub struct MemoryDoc {
    pub document_id: String,
    pub namespace: String,
    pub key: String,
    pub title: String,
    pub content: String,
    pub author: String,
    pub taint: Taint,
    pub meta: Option<String>,
    pub created_at: u64,
    pub updated_at: u64,
}

/// What a stored document holds.
#[verifier::ext_equal]
pub struct Doc {
    pub document_id: Seq<char>,
    pub namespace: Seq<char>,
    pub key: Seq<char>,
    pub title: Seq<char>,
    pub content: Seq<char>,
    pub author: Seq<char>,
    pub taint: Taint,
    pub meta: Option<Seq<char>>,
    pub created_at: u64,
    pub updated_at: u64,
}

impl View for MemoryDoc {
    type V = Doc;

    open spec fn view(&self) -> Doc {
        Doc {
            document_id: self.document_id@,
            namespace: self.namespace@,
            key: self.key@,
            title: self.title@,
            content: self.content@,
            author: self.author@,
            taint: self.taint,
            meta: opt_text(self.meta),
            created_at: self.created_at,
            updated_at: self.updated_at,
        }
    }
}

impl Row for MemoryDoc {
    fn copy(&self) -> (r: Self) {
        MemoryDoc {
            document_id: self.document_id.clone(),
            namespace: self.namespace.clone(),
            key: self.key.clone(),
            title: self.title.clone(),
            content: self.content.clone(),
            author: self.author.clone(),
            taint: self.taint,
            meta: copy_opt(&self.meta),
            created_at: self.created_at,
            updated_at: self.updated_at,
        }
    }
}

/// A document to be stored; `meta` is JSON text.
#[derive(Debug, Clone)]
pub struct NewDoc {
    pub key: String,
    pub title: String,
    pub content: String,
    pub author: String,
    pub taint: Taint,
    pub meta: Option<String>,
}

// ---------------------------------------------------------------------------------------------
// Code-graph edges.
// ---------------------------------------------------------------------------------------------

/// The semantic relationship that a directed code-graph edge carries.
#[derive(Debug, Clone, Copy, PartialEq, Eq, Structural)]
pub enum EdgeKind {
    Calls,
    UsesType,
    Imports,
}

/// The canonical upper-case name of an edge kind.
pub open spec fn edge_kind_text(k: EdgeKind) -> Seq<char> {
    match k {
        EdgeKind::Calls => "CALLS"@,
        EdgeKind::UsesType => "USES_TYPE"@,
        EdgeKind::Imports => "IMPORTS"@,
    }
}

/// The edge kind with a canonical name.
pub open spec fn edge_kind_of(s: Seq<char>) -> Option<EdgeKind> {
    if s == "CALLS"@ {
        Some(EdgeKind::Calls)
    } else if s == "USES_TYPE"@ {
        Some(EdgeKind::UsesType)
    } else if s == "IMPORTS"@ {
        Some(EdgeKind::Imports)
    } else {
        None
    }
}

impl EdgeKind {
    /// The canonical upper-case name, as stored and as shown.
    pub fn as_str(&self) -> (r: &'static str)
        ensures
            r@ == edge_kind_text(*self),
    {
        match self {
            EdgeKind::Calls => "CALLS",
            EdgeKind::UsesType => "USES_TYPE",
            EdgeKind::Imports => "IMPORTS",
        }
    }

    /// Parses a canonical name (case-sensitive).
    pub fn parse(s: &str) -> (r: Option<EdgeKind>)
        ensures
            r == edge_kind_of(s@),
    {
        if same(s, "CALLS") {
            Some(EdgeKind::Calls)
        } else if same(s, "USES_TYPE") {
            Some(EdgeKind::UsesType)
        } else if same(s, "IMPORTS") {
            Some(EdgeKind::Imports)
        } else {
            None
        }
    }
}

/// Law: parsing the canonical name of an edge kind gives the kind back, and nothing else
/// parses.
pub proof fn law_edge_kind_round_trip(k: EdgeKind, s: Seq<char>)
    ensures
        edge_kind_of(edge_kind_text(k)) == Some(k),
        edge_kind_of(s) == Some(k) ==> s == edge_kind_text(k),
{
    reveal_strlit("CALLS");
    reveal_strlit("USES_TYPE");
    reveal_strlit("IMPORTS");
    assert("CALLS"@.len() == 5);
    assert("USES_TYPE"@.len() == 9);
    assert("IMPORTS"@.len() == 7);
}

/// One directed edge read out of source text. The document that it starts from is known only
/// once the document is stored. Confidence is in hundredths.
#[derive(Debug, Clone)]
pub struct RawEdge {
    /// The target symbol as an entity id, such as `sym:FooBar`.
    pub dst_sym: String,
    pub edge_kind: EdgeKind,
    /// The line in the source file, counted from 1, if known.
    pub src_line: Option<u64>,
    /// How sure the extraction is, in hundredths (0 to 100).
    pub confidence: u32,
}

/// What an extracted edge holds.
#[verifier::ext_equal]
pub struct Edge {
    pub dst_sym: Seq<char>,
    pub edge_kind: EdgeKind,
    pub src_line: Option<u64>,
    pub confidence: u32,
}

impl View for RawEdge {
    type V = Edge;

    open spec fn view(&self) -> Edge {
        Edge {
            dst_sym: self.dst_sym@,
            edge_kind: self.edge_kind,
            src_line: self.src_line,
            confidence: self.confidence,
        }
    }
}

impl Row for RawEdge {
    fn copy(&self) -> (r: Self) {
        RawEdge {
            dst_sym: self.dst_sym.clone(),
            edge_kind: self.edge_kind,
            src_line: self.src_line,
            confidence: self.confidence,
        }
    }
}

/// Whether no two edges have the same target and kind.
pub open spec fn distinct_edges(edges: Seq<Edge>) -> bool {
    forall|i: int, j: int|
        0 <= i < j < edges.len() ==> (#[trigger] edges[i]).dst_sym != (#[trigger] edges[j]).dst_sym
            || edges[i].edge_kind != edges[j].edge_kind
}

/// Law: a taint is named `internal` or `external_sync`, and whatever is not named `external_sync` is internal.
pub proof fn law_taint_names(name: Seq<char>)
    ensures
        taint_text(Taint::Internal) == "internal"@,
        taint_text(Taint::ExternalSync) == "external_sync"@,
        taint_of(name) == Taint::ExternalSync <==> name == "external_sync"@,
{
}

/// Law: the text of an error holds the message that it carries.
pub proof fn law_error_text(m: String)
    ensures
        has_suffix(error_text(Error::Embed(m)), m@),
        has_suffix(error_text(Error::Llm(m)), m@),
        has_suffix(error_text(Error::Io(m)), m@),
        has_prefix(error_text(Error::Embed(m)), "embed error: "@),
        has_prefix(error_text(Error::Llm(m)), "llm error: "@),
        has_prefix(error_text(Error::Io(m)), "io error: "@),
{
    lemma_ends("embed error: "@, m@);
    lemma_ends("llm error: "@, m@);
    lemma_ends("io error: "@, m@);
}

proof fn lemma_ends(a: Seq<char>, b: Seq<char>)
    ensures
        has_prefix(a + b, a),
        has_suffix(a + b, b),
{
    let s = a + b;
    assert(s.subrange(0, a.len() as int) =~= a);
    assert(s.subrange(s.len() - b.len(), s.len() as int) =~= b);
}

} // verus!
