//! A store from the rows of its tables, and the rows of a store.

use super::{
    chunk_key, doc_id_key, doc_key, edge_key, job_key, link_key, mention_key, node_key, node_place, State,
    Store, StoredChunk, StoredEdge, StoredJob, StoredLink, StoredMention, TreeNode,
};
use crate::model::{EdgeKind, MemoryDoc};
use crate::table::{copy_rows, distinct_by, rows};
use crate::text::same;
use vstd::prelude::*;

verus! {

/// The rows of every table.
#[derive(Debug)]
pub struct Tables {
    pub docs: Vec<MemoryDoc>,
    pub chunks: Vec<StoredChunk>,
    pub mentions: Vec<StoredMention>,
    pub jobs: Vec<StoredJob>,
    pub nodes: Vec<TreeNode>,
    pub links: Vec<StoredLink>,
    pub edges: Vec<StoredEdge>,
}

impl View for Tables {
    type V = State;

    open spec fn view(&self) -> State {
        State {
            docs: rows(self.docs@),
            chunks: rows(self.chunks@),
            mentions: rows(self.mentions@),
            jobs: rows(self.jobs@),
            nodes: rows(self.nodes@),
            links: rows(self.links@),
            edges: rows(self.edges@),
        }
    }
}

/// Whether no two rows have the same key; `f` tells whether the keys of two rows are the same.
fn all_distinct<T: View, K, F: Fn(&T, &T) -> bool>(
    v: &Vec<T>,
    f: F,
    Ghost(key): Ghost<spec_fn(T::V) -> K>,
) -> (r: bool)
    requires
        forall|x: &T, y: &T| #[trigger] f.requires((x, y)),
        forall|x: &T, y: &T, b: bool| #[trigger] f.ensures((x, y), b) ==> b == (key(x@) == key(y@)),
    ensures
        r == distinct_by(rows(v@), key),
{
    let ghost all = rows(v@);
    for j in 0..v.len()
        invariant
            all == rows(v@),
            forall|x: &T, y: &T| #[trigger] f.requires((x, y)),
            forall|x: &T, y: &T, b: bool| #[trigger]
                f.ensures((x, y), b) ==> b == (key(x@) == key(y@)),
            forall|a: int, b: int|
                0 <= a < b < j ==> key(#[trigger] all[a]) != key(#[trigger] all[b]),
    {
        for i in 0..j
            invariant
                j < v@.len(),
                all == rows(v@),
                forall|x: &T, y: &T| #[trigger] f.requires((x, y)),
                forall|x: &T, y: &T, b: bool| #[trigger]
                    f.ensures((x, y), b) ==> b == (key(x@) == key(y@)),
                forall|a: int| 0 <= a < i ==> key(#[trigger] all[a]) != key(all[j as int]),
        {
            assert(all[i as int] == v@[i as int]@);
            assert(all[j as int] == v@[j as int]@);
            if f(&v[i], &v[j]) {
                return false;
            }
        }
    }
    true
}

impl Tables {
    /// Whether the keys of every table are unique.
    pub fn check(&self) -> (r: bool)
        ensures
            r == self@.wf(),
    {
        all_distinct::<MemoryDoc, (Seq<char>, Seq<char>), _>(
            &self.docs,
            |a: &MemoryDoc, b: &MemoryDoc| -> (r: bool)
                ensures
                    r == (a@.namespace == b@.namespace && a@.key == b@.key)
            { same(a.namespace.as_str(), b.namespace.as_str()) && same(a.key.as_str(), b.key.as_str()) },
            Ghost(doc_key()),
        ) && all_distinct::<MemoryDoc, Seq<char>, _>(
            &self.docs,
            |a: &MemoryDoc, b: &MemoryDoc| -> (r: bool)
                ensures
                    r == (a@.document_id == b@.document_id)
            { same(a.document_id.as_str(), b.document_id.as_str()) },
            Ghost(doc_id_key()),
        ) && all_distinct::<StoredChunk, (Seq<char>, Seq<char>), _>(
            &self.chunks,
            |a: &StoredChunk, b: &StoredChunk| -> (r: bool)
                ensures
                    r == (a@.namespace == b@.namespace && a@.chunk_id == b@.chunk_id)
            {
                same(a.namespace.as_str(), b.namespace.as_str()) && same(
                    a.chunk_id.as_str(),
                    b.chunk_id.as_str(),
                )
            },
            Ghost(chunk_key()),
        ) && all_distinct::<StoredMention, (Seq<char>, Seq<char>, Seq<char>), _>(
            &self.mentions,
            |a: &StoredMention, b: &StoredMention| -> (r: bool)
                ensures
                    r == (a@.namespace == b@.namespace && a@.chunk_id == b@.chunk_id && a@.entity_id
                        == b@.entity_id)
            {
                same(a.namespace.as_str(), b.namespace.as_str()) && same(
                    a.chunk_id.as_str(),
                    b.chunk_id.as_str(),
                ) && same(a.entity_id.as_str(), b.entity_id.as_str())
            },
            Ghost(mention_key()),
        ) && all_distinct::<StoredJob, Seq<char>, _>(
            &self.jobs,
            |a: &StoredJob, b: &StoredJob| -> (r: bool)
                ensures
                    r == (a@.job_id == b@.job_id)
            { same(a.job_id.as_str(), b.job_id.as_str()) },
            Ghost(job_key()),
        ) && all_distinct::<TreeNode, Seq<char>, _>(
            &self.nodes,
            |a: &TreeNode, b: &TreeNode| -> (r: bool)
                ensures
                    r == (a@.node_id == b@.node_id)
            { same(a.node_id.as_str(), b.node_id.as_str()) },
            Ghost(node_key()),
        ) && all_distinct::<TreeNode, (Seq<char>, Seq<char>, Seq<char>, i64, u64), _>(
            &self.nodes,
            |a: &TreeNode, b: &TreeNode| -> (r: bool)
                ensures
                    r == (a@.namespace == b@.namespace && a@.tree_kind == b@.tree_kind && a@.tree_key
                        == b@.tree_key && a@.level == b@.level && a@.seq == b@.seq)
            {
                a.level == b.level && a.seq == b.seq && same(
                    a.namespace.as_str(),
                    b.namespace.as_str(),
                ) && same(a.tree_kind.as_str(), b.tree_kind.as_str()) && same(
                    a.tree_key.as_str(),
                    b.tree_key.as_str(),
                )
            },
            Ghost(node_place()),
        ) && all_distinct::<StoredLink, (Seq<char>, Seq<char>), _>(
            &self.links,
            |a: &StoredLink, b: &StoredLink| -> (r: bool)
                ensures
                    r == (a@.parent_id == b@.parent_id && a@.child_id == b@.child_id)
            {
                same(a.parent_id.as_str(), b.parent_id.as_str()) && same(
                    a.child_id.as_str(),
                    b.child_id.as_str(),
                )
            },
            Ghost(link_key()),
        ) && all_distinct::<StoredEdge, (Seq<char>, Seq<char>, Seq<char>, EdgeKind), _>(
            &self.edges,
            |a: &StoredEdge, b: &StoredEdge| -> (r: bool)
                ensures
                    r == (a@.namespace == b@.namespace && a@.src_doc_id == b@.src_doc_id && a@.dst_sym
                        == b@.dst_sym && a@.edge_kind == b@.edge_kind)
            {
                a.edge_kind == b.edge_kind && same(a.namespace.as_str(), b.namespace.as_str()) && same(
                    a.src_doc_id.as_str(),
                    b.src_doc_id.as_str(),
                ) && same(a.dst_sym.as_str(), b.dst_sym.as_str())
            },
            Ghost(edge_key()),
        )
    }
}

impl Store {
    /// Opens a store on the rows of its tables, unless the keys of a table are not unique.
    pub fn open(tables: Tables) -> (r: Option<Store>)
        ensures
            match r {
                Some(s) => tables@.wf() && s@ == tables@,
                None => !tables@.wf(),
            },
    {
        if !tables.check() {
            return None;
        }
        let ghost t = tables@;
        let s = Store {
            docs: tables.docs,
            chunks: tables.chunks,
            mentions: tables.mentions,
            jobs: tables.jobs,
            nodes: tables.nodes,
            links: tables.links,
            edges: tables.edges,
        };
        assert(s@ =~= t);
        Some(s)
    }

    /// A copy of the store, for work that is to be tried before it is done.
    pub fn copy(&self) -> (r: Store)
        ensures
            r@ == self@,
    {
        let r = Store {
            docs: copy_rows(&self.docs),
            chunks: copy_rows(&self.chunks),
            mentions: copy_rows(&self.mentions),
            jobs: copy_rows(&self.jobs),
            nodes: copy_rows(&self.nodes),
            links: copy_rows(&self.links),
            edges: copy_rows(&self.edges),
        };
        assert(r@ =~= self@);
        r
    }

    /// The rows of the store's tables.
    pub fn into_tables(self) -> (r: Tables)
        ensures
            r@ == self@,
    {
        let r = Tables {
            docs: self.docs,
            chunks: self.chunks,
            mentions: self.mentions,
            jobs: self.jobs,
            nodes: self.nodes,
            links: self.links,
            edges: self.edges,
        };
        assert(r@ =~= self@);
        r
    }

    /// The documents, in the order in which they were first stored.
    pub fn docs(&self) -> (r: &Vec<MemoryDoc>)
        ensures
            rows(r@) == self@.docs,
    {
        &self.docs
    }

    /// The chunks.
    pub fn chunks(&self) -> (r: &Vec<StoredChunk>)
        ensures
            rows(r@) == self@.chunks,
    {
        &self.chunks
    }

    /// The mentions.
    pub fn mentions(&self) -> (r: &Vec<StoredMention>)
        ensures
            rows(r@) == self@.mentions,
    {
        &self.mentions
    }

    /// The jobs.
    pub fn jobs(&self) -> (r: &Vec<StoredJob>)
        ensures
            rows(r@) == self@.jobs,
    {
        &self.jobs
    }

    /// The nodes of the summary trees.
    pub fn nodes(&self) -> (r: &Vec<TreeNode>)
        ensures
            rows(r@) == self@.nodes,
    {
        &self.nodes
    }

    /// The links between summaries and what they were made of.
    pub fn links(&self) -> (r: &Vec<StoredLink>)
        ensures
            rows(r@) == self@.links,
    {
        &self.links
    }

    /// The edges of the code graph.
    pub fn edges(&self) -> (r: &Vec<StoredEdge>)
        ensures
            rows(r@) == self@.edges,
    {
        &self.edges
    }
}

} // verus!
