//! Documents: storing, finding, listing and forgetting them.

use super::{
    chunk_key, doc_id_key, doc_key, edge_key, job_key, mention_key, node_key, node_place, random_id, Chunk,
    CodeEdge, JobRow, Mention, Node, State, Store, StoredChunk, StoredEdge, StoredJob, StoredMention,
    TreeNode,
};
use crate::model::{Doc, Error, MemoryDoc, NewDoc};
use crate::table::{
    any_row, distinct_by, except, find, first_row, first_rows, is_order, law_sorted_rows, lemma_distinct_push,
    lemma_distinct_rewritten, lemma_distinct_where, lemma_first_row, lemma_first_row_unique, lemma_rows_push,
    lemma_rows_where_contains, limit, remove_where, rewritten, rows, rows_where, select, sort, sorted_rows,
    Row,
};
use crate::text::{copy_opt, opt_text, same};
use vstd::prelude::*;

verus! {

/// The document with this key.
pub open spec fn doc_is(ns: Seq<char>, key: Seq<char>) -> spec_fn(Doc) -> bool {
    |d: Doc| d.namespace == ns && d.key == key
}

/// The document with this id.
pub open spec fn doc_has_id(ns: Seq<char>, id: Seq<char>) -> spec_fn(Doc) -> bool {
    |d: Doc| d.namespace == ns && d.document_id == id
}

/// Any document with this id, in whatever namespace.
pub open spec fn id_taken(id: Seq<char>) -> spec_fn(Doc) -> bool {
    |d: Doc| d.document_id == id
}

/// The documents of a namespace.
pub open spec fn doc_in(ns: Seq<char>) -> spec_fn(Doc) -> bool {
    |d: Doc| d.namespace == ns
}

/// A document with new contents: it keeps its id, its key and its creation time.
pub open spec fn doc_updated(new: NewDoc, now: u64) -> spec_fn(Doc) -> Doc {
    |d: Doc|
        Doc {
            document_id: d.document_id,
            namespace: d.namespace,
            key: d.key,
            title: new.title@,
            content: new.content@,
            author: new.author@,
            taint: new.taint,
            meta: opt_text(new.meta),
            created_at: d.created_at,
            updated_at: now,
        }
}

/// A document that was not stored before.
pub open spec fn doc_created(ns: Seq<char>, new: NewDoc, id: Seq<char>, now: u64) -> Doc {
    Doc {
        document_id: id,
        namespace: ns,
        key: new.key@,
        title: new.title@,
        content: new.content@,
        author: new.author@,
        taint: new.taint,
        meta: opt_text(new.meta),
        created_at: now,
        updated_at: now,
    }
}

/// The documents after one was stored: the one with its key is updated, else it is added.
pub open spec fn docs_upserted(
    docs: Seq<Doc>,
    ns: Seq<char>,
    new: NewDoc,
    id: Seq<char>,
    now: u64,
) -> Seq<Doc> {
    if any_row(docs, doc_is(ns, new.key@)) {
        rewritten(docs, doc_is(ns, new.key@), doc_updated(new, now))
    } else {
        docs.push(doc_created(ns, new, id, now))
    }
}

/// Whether storing is refused: the document would be added under an id that is taken.
pub open spec fn upsert_refused(docs: Seq<Doc>, ns: Seq<char>, key: Seq<char>, id: Seq<char>) -> bool {
    !any_row(docs, doc_is(ns, key)) && any_row(docs, id_taken(id))
}

/// The document under a key after it was stored.
pub open spec fn doc_upserted(
    docs: Seq<Doc>,
    ns: Seq<char>,
    new: NewDoc,
    id: Seq<char>,
    now: u64,
) -> Doc {
    match first_row(docs, doc_is(ns, new.key@)) {
        Some(d) => doc_updated(new, now)(d),
        None => doc_created(ns, new, id, now),
    }
}

/// The document that was created or last changed most recently comes first.
pub open spec fn newer() -> spec_fn(Doc, Doc) -> bool {
    |a: Doc, b: Doc| a.updated_at > b.updated_at
}

/// The chunks of a document.
pub open spec fn chunk_of(ns: Seq<char>, id: Seq<char>) -> spec_fn(Chunk) -> bool {
    |c: Chunk| c.namespace == ns && c.document_id == id
}

/// The mentions in a document's chunks.
pub open spec fn mention_of(ns: Seq<char>, id: Seq<char>) -> spec_fn(Mention) -> bool {
    |m: Mention| m.namespace == ns && m.document_id == id
}

/// The edges that start from a document.
pub open spec fn edge_from(ns: Seq<char>, id: Seq<char>) -> spec_fn(CodeEdge) -> bool {
    |e: CodeEdge| e.namespace == ns && e.src_doc_id == id
}

/// The edges that start from a document or are resolved to it.
pub open spec fn edge_touches(ns: Seq<char>, id: Seq<char>) -> spec_fn(CodeEdge) -> bool {
    |e: CodeEdge| e.namespace == ns && (e.src_doc_id == id || e.dst_doc_id == Some(id))
}

/// The leaves of a document that no summary has absorbed yet.
pub open spec fn loose_leaf_of(ns: Seq<char>, id: Seq<char>) -> spec_fn(Node) -> bool {
    |n: Node| n.namespace == ns && n.doc_id == Some(id) && n.level == 0 && !n.sealed
}

/// The jobs of a document.
pub open spec fn job_of(ns: Seq<char>, id: Seq<char>) -> spec_fn(JobRow) -> bool {
    |j: JobRow| j.namespace == ns && j.document_id == id
}

/// The store after a document was forgotten: its row, chunks, mentions, edges, loose leaves and
/// jobs are gone. Sealed summaries that absorbed it stay.
pub open spec fn forgotten(s: State, ns: Seq<char>, id: Seq<char>) -> State {
    State {
        docs: rows_where(s.docs, except(doc_has_id(ns, id))),
        chunks: rows_where(s.chunks, except(chunk_of(ns, id))),
        mentions: rows_where(s.mentions, except(mention_of(ns, id))),
        jobs: rows_where(s.jobs, except(job_of(ns, id))),
        nodes: rows_where(s.nodes, except(loose_leaf_of(ns, id))),
        links: s.links,
        edges: rows_where(s.edges, except(edge_touches(ns, id))),
    }
}

/// Storing a document keeps every key unique and leaves the stored document to be found.
pub proof fn lemma_docs_upserted(docs: Seq<Doc>, ns: Seq<char>, new: NewDoc, id: Seq<char>, now: u64)
    requires
        distinct_by(docs, doc_key()),
        distinct_by(docs, doc_id_key()),
        !upsert_refused(docs, ns, new.key@, id),
    ensures
        distinct_by(docs_upserted(docs, ns, new, id, now), doc_key()),
        distinct_by(docs_upserted(docs, ns, new, id, now), doc_id_key()),
        first_row(docs_upserted(docs, ns, new, id, now), doc_is(ns, new.key@)) == Some(
            doc_upserted(docs, ns, new, id, now),
        ),
{
    let q = doc_is(ns, new.key@);
    let f = doc_updated(new, now);
    let after = docs_upserted(docs, ns, new, id, now);
    lemma_first_row(docs, q);
    if any_row(docs, q) {
        lemma_distinct_rewritten(docs, q, f, doc_key());
        lemma_distinct_rewritten(docs, q, f, doc_id_key());
        let d = first_row(docs, q)->0;
        let i = choose|i: int|
            0 <= i < docs.len() && #[trigger] docs[i] == d && q(d) && (forall|j: int|
                0 <= j < i ==> !q(#[trigger] docs[j]));
        assert(after[i] == f(d));
        assert forall|j: int| 0 <= j < after.len() && q(#[trigger] after[j]) implies j == i by {
            assert(q(docs[j]));
            if j < i {
                assert(doc_key()(docs[j]) != doc_key()(docs[i]));
            } else if j > i {
                assert(doc_key()(docs[i]) != doc_key()(docs[j]));
            }
        }
        lemma_first_row_unique(after, q, i);
    } else {
        let x = doc_created(ns, new, id, now);
        assert forall|i: int| 0 <= i < docs.len() implies doc_key()(#[trigger] docs[i]) != doc_key()(
            x,
        ) by {
            assert(!q(docs[i]));
        }
        assert forall|i: int| 0 <= i < docs.len() implies doc_id_key()(#[trigger] docs[i])
            != doc_id_key()(x) by {
            assert(!id_taken(id)(docs[i]));
        }
        lemma_distinct_push(docs, x, doc_key());
        lemma_distinct_push(docs, x, doc_id_key());
        assert(after.drop_last() =~= docs);
    }
}

pub proof fn lemma_forgotten_wf(s: State, ns: Seq<char>, id: Seq<char>)
    requires
        s.wf(),
    ensures
        forgotten(s, ns, id).wf(),
{
    lemma_distinct_where(s.docs, except(doc_has_id(ns, id)), doc_key());
    lemma_distinct_where(s.docs, except(doc_has_id(ns, id)), doc_id_key());
    lemma_distinct_where(s.chunks, except(chunk_of(ns, id)), chunk_key());
    lemma_distinct_where(s.mentions, except(mention_of(ns, id)), mention_key());
    lemma_distinct_where(s.jobs, except(job_of(ns, id)), job_key());
    lemma_distinct_where(s.nodes, except(loose_leaf_of(ns, id)), node_key());
    lemma_distinct_where(s.nodes, except(loose_leaf_of(ns, id)), node_place());
    lemma_distinct_where(s.edges, except(edge_touches(ns, id)), edge_key());
}

/// Law: forgetting a document removes its row and everything derived from it, keeps every row
/// of other documents and namespaces (but for edges that lead to it), and keeps every sealed node.
pub proof fn law_forget(s: State, ns: Seq<char>, id: Seq<char>)
    requires
        s.wf(),
    ensures
        !any_row(forgotten(s, ns, id).docs, doc_has_id(ns, id)),
        !any_row(forgotten(s, ns, id).chunks, chunk_of(ns, id)),
        !any_row(forgotten(s, ns, id).mentions, mention_of(ns, id)),
        !any_row(forgotten(s, ns, id).edges, edge_from(ns, id)),
        !any_row(forgotten(s, ns, id).jobs, job_of(ns, id)),
        forall|d: Doc|
            d.namespace != ns || d.document_id != id ==> (#[trigger] s.docs.contains(d)
                <==> forgotten(s, ns, id).docs.contains(d)),
        forall|c: Chunk|
            c.namespace != ns || c.document_id != id ==> (#[trigger] s.chunks.contains(c)
                <==> forgotten(s, ns, id).chunks.contains(c)),
        forall|m: Mention|
            m.namespace != ns || m.document_id != id ==> (#[trigger] s.mentions.contains(m)
                <==> forgotten(s, ns, id).mentions.contains(m)),
        forall|j: JobRow|
            j.namespace != ns || j.document_id != id ==> (#[trigger] s.jobs.contains(j)
                <==> forgotten(s, ns, id).jobs.contains(j)),
        forall|e: CodeEdge|
            e.namespace != ns || (e.src_doc_id != id && e.dst_doc_id != Some(id)) ==> (
            #[trigger] s.edges.contains(e) <==> forgotten(s, ns, id).edges.contains(e)),
        forall|n: Node|
            n.sealed || n.namespace != ns || n.doc_id != Some(id) ==> (#[trigger] s.nodes.contains(n)
                <==> forgotten(s, ns, id).nodes.contains(n)),
        forgotten(s, ns, id).links == s.links,
{
    let t = forgotten(s, ns, id);
    lemma_rows_where_contains(s.docs, except(doc_has_id(ns, id)));
    lemma_rows_where_contains(s.chunks, except(chunk_of(ns, id)));
    lemma_rows_where_contains(s.mentions, except(mention_of(ns, id)));
    lemma_rows_where_contains(s.jobs, except(job_of(ns, id)));
    lemma_rows_where_contains(s.nodes, except(loose_leaf_of(ns, id)));
    lemma_rows_where_contains(s.edges, except(edge_touches(ns, id)));
    assert forall|i: int| 0 <= i < t.edges.len() implies !edge_from(ns, id)(#[trigger] t.edges[i]) by {
        assert(except(edge_touches(ns, id))(t.edges[i]));
    }
}

/// Law: a document that was stored is what its key gives back, under the id that the key had
/// before if there was one; no other key is affected.
pub proof fn law_read_after_store(
    s: State,
    ns: Seq<char>,
    new: NewDoc,
    id: Seq<char>,
    now: u64,
    other_ns: Seq<char>,
    other_key: Seq<char>,
)
    requires
        s.wf(),
        !upsert_refused(s.docs, ns, new.key@, id),
    ensures
        ({
            let after = docs_upserted(s.docs, ns, new, id, now);
            let before = first_row(s.docs, doc_is(ns, new.key@));
            match first_row(after, doc_is(ns, new.key@)) {
                Some(d) => {
                    &&& d.title == new.title@
                    &&& d.content == new.content@
                    &&& d.author == new.author@
                    &&& d.taint == new.taint
                    &&& d.meta == opt_text(new.meta)
                    &&& d.updated_at == now
                    &&& match before {
                        Some(b) => d.document_id == b.document_id && d.created_at == b.created_at,
                        None => d.document_id == id && d.created_at == now,
                    }
                },
                None => false,
            }
        }),
        other_ns != ns || other_key != new.key@ ==> first_row(
            docs_upserted(s.docs, ns, new, id, now),
            doc_is(other_ns, other_key),
        ) == first_row(s.docs, doc_is(other_ns, other_key)),
{
    lemma_docs_upserted(s.docs, ns, new, id, now);
    if other_ns != ns || other_key != new.key@ {
        let p = doc_is(other_ns, other_key);
        let q = doc_is(ns, new.key@);
        if any_row(s.docs, q) {
            lemma_first_row_of_rewritten(s.docs, q, doc_updated(new, now), p);
        } else {
            let after = docs_upserted(s.docs, ns, new, id, now);
            assert(after.drop_last() =~= s.docs);
        }
    }
}

proof fn lemma_first_row_of_rewritten(
    s: Seq<Doc>,
    q: spec_fn(Doc) -> bool,
    f: spec_fn(Doc) -> Doc,
    p: spec_fn(Doc) -> bool,
)
    requires
        forall|d: Doc| #[trigger] q(d) ==> !p(d) && !p(f(d)),
    ensures
        first_row(rewritten(s, q, f), p) == first_row(s, p),
    decreases s.len(),
{
    if s.len() > 0 {
        let t = s.drop_last();
        lemma_first_row_of_rewritten(t, q, f, p);
        assert(rewritten(s, q, f).drop_last() =~= rewritten(t, q, f));
        assert(q(s.last()) ==> !p(s.last()));
    }
}

impl Store {
    /// Stores a document under a fresh random id, or updates the one with its key.
    pub fn insert_doc(&mut self, namespace: &str, new: &NewDoc, now: u64) -> (r: Result<MemoryDoc, Error>)
        requires
            old(self)@.wf(),
        ensures
            final(self)@.wf(),
            r is Ok ==> exists|id: Seq<char>| #[trigger]
                docs_upserted(old(self)@.docs, namespace@, *new, id, now) == final(self)@.docs
                    && r->Ok_0@ == doc_upserted(old(self)@.docs, namespace@, *new, id, now)
                    && final(self)@ == (State { docs: final(self)@.docs, ..old(self)@ }),
            r is Err ==> r->Err_0 is Conflict && final(self)@ == old(self)@ && !any_row(
                old(self)@.docs,
                doc_is(namespace@, new.key@),
            ),
            r is Err ==> exists|id: Seq<char>| #[trigger]
                upsert_refused(old(self)@.docs, namespace@, new.key@, id),
    {
        let id = random_id();
        self.insert_doc_as(namespace, new, id, now)
    }

    /// Stores a document under the given id, or updates the one with its key, which keeps its
    /// own id. Refused where the id belongs to another document.
    pub fn insert_doc_as(
        &mut self,
        namespace: &str,
        new: &NewDoc,
        id: String,
        now: u64,
    ) -> (r: Result<MemoryDoc, Error>)
        requires
            old(self)@.wf(),
        ensures
            final(self)@.wf(),
            match r {
                Ok(d) => {
                    &&& !upsert_refused(old(self)@.docs, namespace@, new.key@, id@)
                    &&& d@ == doc_upserted(old(self)@.docs, namespace@, *new, id@, now)
                    &&& final(self)@ == (State {
                        docs: docs_upserted(old(self)@.docs, namespace@, *new, id@, now),
                        ..old(self)@
                    })
                },
                Err(e) => {
                    &&& e is Conflict
                    &&& upsert_refused(old(self)@.docs, namespace@, new.key@, id@)
                    &&& final(self)@ == old(self)@
                },
            },
    {
        let ghost before = self@;
        let ghost q = doc_is(namespace@, new.key@);
        let at = self.find_doc(namespace, new.key.as_str());
        match at {
            Some(i) => {
                let doc = MemoryDoc {
                    document_id: self.docs[i].document_id.clone(),
                    namespace: self.docs[i].namespace.clone(),
                    key: self.docs[i].key.clone(),
                    title: new.title.clone(),
                    content: new.content.clone(),
                    author: new.author.clone(),
                    taint: new.taint,
                    meta: copy_opt(&new.meta),
                    created_at: self.docs[i].created_at,
                    updated_at: now,
                };
                let out = doc.copy();
                let ghost v0 = self.docs@;
                self.docs.set(i, doc);
                proof {
                    assert(any_row(before.docs, q)) by {
                        assert(q(before.docs[i as int]));
                    }
                    let after = docs_upserted(before.docs, namespace@, *new, id@, now);
                    assert forall|j: int| 0 <= j < before.docs.len() && j != i implies !q(
                        #[trigger] before.docs[j],
                    ) by {
                        if j < i {
                            assert(doc_key()(before.docs[j]) != doc_key()(before.docs[i as int]));
                        } else {
                            assert(doc_key()(before.docs[i as int]) != doc_key()(before.docs[j]));
                        }
                    }
                    assert(rows(self.docs@) =~= after);
                    lemma_docs_upserted(before.docs, namespace@, *new, id@, now);
                }
                Ok(out)
            },
            None => {
                let taken = find(
                    &self.docs,
                    |d: &MemoryDoc| -> (b: bool)
                        ensures
                            b == (d@.document_id == id@)
                        { same(d.document_id.as_str(), id.as_str()) },
                    Ghost(id_taken(id@)),
                );
                if taken.is_some() {
                    assert(any_row(before.docs, id_taken(id@))) by {
                        assert(id_taken(id@)(before.docs[taken->0 as int]));
                    }
                    return Err(Error::Conflict);
                }
                let doc = MemoryDoc {
                    document_id: id,
                    namespace: namespace.to_owned(),
                    key: new.key.clone(),
                    title: new.title.clone(),
                    content: new.content.clone(),
                    author: new.author.clone(),
                    taint: new.taint,
                    meta: copy_opt(&new.meta),
                    created_at: now,
                    updated_at: now,
                };
                let out = doc.copy();
                let ghost v0 = self.docs@;
                self.docs.push(doc);
                proof {
                    lemma_rows_push(v0, doc);
                    lemma_docs_upserted(before.docs, namespace@, *new, id@, now);
                }
                Ok(out)
            },
        }
    }

    /// The index of the document with this key.
    fn find_doc(&self, namespace: &str, key: &str) -> (r: Option<usize>)
        ensures
            match r {
                Some(i) => i < self@.docs.len() && doc_is(namespace@, key@)(self@.docs[i as int])
                    && first_row(self@.docs, doc_is(namespace@, key@)) == Some(
                    self@.docs[i as int],
                ) && self.docs@[i as int]@ == self@.docs[i as int] && i < self.docs@.len(),
                None => first_row(self@.docs, doc_is(namespace@, key@)) is None && !any_row(
                    self@.docs,
                    doc_is(namespace@, key@),
                ),
            },
    {
        find(
            &self.docs,
            |d: &MemoryDoc| -> (b: bool)
                ensures
                    b == (d@.namespace == namespace@ && d@.key == key@)
                { same(d.namespace.as_str(), namespace) && same(d.key.as_str(), key) },
            Ghost(doc_is(namespace@, key@)),
        )
    }

    /// The document with this id, if the namespace has it.
    pub fn get_doc(&self, namespace: &str, document_id: &str) -> (r: Option<MemoryDoc>)
        ensures
            match r {
                Some(d) => first_row(self@.docs, doc_has_id(namespace@, document_id@)) == Some(d@),
                None => first_row(self@.docs, doc_has_id(namespace@, document_id@)) is None,
            },
    {
        let at = find(
            &self.docs,
            |d: &MemoryDoc| -> (b: bool)
                ensures
                    b == (d@.namespace == namespace@ && d@.document_id == document_id@)
                {
                    same(d.namespace.as_str(), namespace) && same(
                        d.document_id.as_str(),
                        document_id,
                    )
                },
            Ghost(doc_has_id(namespace@, document_id@)),
        );
        match at {
            Some(i) => Some(self.docs[i].copy()),
            None => None,
        }
    }

    /// The document with this key, if the namespace has it.
    pub fn get_by_key(&self, namespace: &str, key: &str) -> (r: Option<MemoryDoc>)
        ensures
            match r {
                Some(d) => first_row(self@.docs, doc_is(namespace@, key@)) == Some(d@),
                None => first_row(self@.docs, doc_is(namespace@, key@)) is None,
            },
    {
        match self.find_doc(namespace, key) {
            Some(i) => Some(self.docs[i].copy()),
            None => None,
        }
    }

    /// The documents of a namespace, the most recently changed first, at most `limit` of them;
    /// a negative limit is no limit.
    pub fn list_namespace(&self, namespace: &str, max: i64) -> (r: Vec<MemoryDoc>)
        ensures
            ({
                let all = sorted_rows(rows_where(self@.docs, doc_in(namespace@)), newer());
                rows(r@) == if max < 0 {
                    all
                } else {
                    first_rows(all, max as int)
                }
            }),
    {
        let mut out = select(
            &self.docs,
            |d: &MemoryDoc| -> (b: bool)
                ensures
                    b == (d@.namespace == namespace@)
                { same(d.namespace.as_str(), namespace) },
            Ghost(doc_in(namespace@)),
        );
        sort(
            &mut out,
            |a: &MemoryDoc, b: &MemoryDoc| -> (r: bool)
                ensures
                    r == (a@.updated_at > b@.updated_at)
                { a.updated_at > b.updated_at },
            Ghost(newer()),
        );
        if max >= 0 {
            let n: usize = if max as u64 > usize::MAX as u64 {
                usize::MAX
            } else {
                max as usize
            };
            let ghost all = rows(out@);
            let total: usize = out.len();
            assert(all.len() == total);
            limit(&mut out, n);
            assert(rows(out@) == first_rows(all, max as int));
        }
        out
    }

    /// Forgets the document with this key: its row, chunks, mentions, edges, jobs and the
    /// leaves that no summary has absorbed. Returns false if there is no such document.
    pub fn delete_doc_by_key(&mut self, namespace: &str, key: &str) -> (r: bool)
        requires
            old(self)@.wf(),
        ensures
            final(self)@.wf(),
            match first_row(old(self)@.docs, doc_is(namespace@, key@)) {
                Some(d) => r && final(self)@ == forgotten(old(self)@, namespace@, d.document_id),
                None => !r && final(self)@ == old(self)@,
            },
    {
        let ghost before = self@;
        let id = match self.find_doc(namespace, key) {
            Some(i) => self.docs[i].document_id.clone(),
            None => {
                return false;
            },
        };
        remove_where(
            &mut self.chunks,
            |c: &StoredChunk| -> (b: bool)
                ensures
                    b == (c@.namespace == namespace@ && c@.document_id == id@)
                { same(c.namespace.as_str(), namespace) && same(c.document_id.as_str(), id.as_str()) },
            Ghost(chunk_of(namespace@, id@)),
        );
        remove_where(
            &mut self.mentions,
            |m: &StoredMention| -> (b: bool)
                ensures
                    b == (m@.namespace == namespace@ && m@.document_id == id@)
                { same(m.namespace.as_str(), namespace) && same(m.document_id.as_str(), id.as_str()) },
            Ghost(mention_of(namespace@, id@)),
        );
        remove_where(
            &mut self.edges,
            |e: &StoredEdge| -> (b: bool)
                ensures
                    b == (e@.namespace == namespace@ && (e@.src_doc_id == id@ || e@.dst_doc_id
                        == Some(id@)))
                {
                    same(e.namespace.as_str(), namespace) && (same(
                        e.src_doc_id.as_str(),
                        id.as_str(),
                    ) || match &e.dst_doc_id {
                        Some(d) => same(d.as_str(), id.as_str()),
                        None => false,
                    })
                },
            Ghost(edge_touches(namespace@, id@)),
        );
        remove_where(
            &mut self.nodes,
            |n: &TreeNode| -> (b: bool)
                ensures
                    b == (n@.namespace == namespace@ && n@.doc_id == Some(id@) && n@.level == 0
                        && !n@.sealed)
                {
                    same(n.namespace.as_str(), namespace) && match &n.doc_id {
                        Some(d) => same(d.as_str(), id.as_str()),
                        None => false,
                    } && n.level == 0 && !n.sealed
                },
            Ghost(loose_leaf_of(namespace@, id@)),
        );
        remove_where(
            &mut self.jobs,
            |j: &StoredJob| -> (b: bool)
                ensures
                    b == (j@.namespace == namespace@ && j@.document_id == id@)
                { same(j.namespace.as_str(), namespace) && same(j.document_id.as_str(), id.as_str()) },
            Ghost(job_of(namespace@, id@)),
        );
        remove_where(
            &mut self.docs,
            |d: &MemoryDoc| -> (b: bool)
                ensures
                    b == (d@.namespace == namespace@ && d@.document_id == id@)
                { same(d.namespace.as_str(), namespace) && same(d.document_id.as_str(), id.as_str()) },
            Ghost(doc_has_id(namespace@, id@)),
        );
        proof {
            assert(self@ =~= forgotten(before, namespace@, id@));
            lemma_forgotten_wf(before, namespace@, id@);
        }
        true
    }
}

/// Law: nothing that is left in the store after a document was forgotten belongs to it: no row of it, no chunk,
/// mention or job, no edge from or to it, and no leaf that no summary holds.
pub proof fn law_forgotten_leaves_nothing(s: State, ns: Seq<char>, id: Seq<char>)
    ensures
        ({
            let t = forgotten(s, ns, id);
            &&& forall|i: int|
                0 <= i < t.docs.len() ==> (#[trigger] t.docs[i]).namespace != ns || t.docs[i].document_id != id
            &&& forall|i: int|
                0 <= i < t.chunks.len() ==> (#[trigger] t.chunks[i]).namespace != ns || t.chunks[i].document_id
                    != id
            &&& forall|i: int|
                0 <= i < t.mentions.len() ==> (#[trigger] t.mentions[i]).namespace != ns
                    || t.mentions[i].document_id != id
            &&& forall|i: int|
                0 <= i < t.jobs.len() ==> (#[trigger] t.jobs[i]).namespace != ns || t.jobs[i].document_id != id
            &&& forall|i: int|
                0 <= i < t.edges.len() ==> (#[trigger] t.edges[i]).namespace != ns || (t.edges[i].src_doc_id != id
                    && t.edges[i].dst_doc_id != Some(id))
            &&& forall|i: int|
                0 <= i < t.nodes.len() ==> (#[trigger] t.nodes[i]).namespace != ns || t.nodes[i].doc_id != Some(id)
                    || t.nodes[i].level != 0 || t.nodes[i].sealed
        }),
{
    lemma_rows_where_contains(s.docs, except(doc_has_id(ns, id)));
    lemma_rows_where_contains(s.chunks, except(chunk_of(ns, id)));
    lemma_rows_where_contains(s.mentions, except(mention_of(ns, id)));
    lemma_rows_where_contains(s.jobs, except(job_of(ns, id)));
    lemma_rows_where_contains(s.edges, except(edge_touches(ns, id)));
    lemma_rows_where_contains(s.nodes, except(loose_leaf_of(ns, id)));
    let t = forgotten(s, ns, id);
    assert forall|i: int| 0 <= i < t.docs.len() implies (#[trigger] t.docs[i]).namespace != ns
        || t.docs[i].document_id != id by {
        assert(except(doc_has_id(ns, id))(t.docs[i]));
    }
    assert forall|i: int| 0 <= i < t.chunks.len() implies (#[trigger] t.chunks[i]).namespace != ns
        || t.chunks[i].document_id != id by {
        assert(except(chunk_of(ns, id))(t.chunks[i]));
    }
    assert forall|i: int| 0 <= i < t.mentions.len() implies (#[trigger] t.mentions[i]).namespace != ns
        || t.mentions[i].document_id != id by {
        assert(except(mention_of(ns, id))(t.mentions[i]));
    }
    assert forall|i: int| 0 <= i < t.jobs.len() implies (#[trigger] t.jobs[i]).namespace != ns
        || t.jobs[i].document_id != id by {
        assert(except(job_of(ns, id))(t.jobs[i]));
    }
    assert forall|i: int| 0 <= i < t.edges.len() implies (#[trigger] t.edges[i]).namespace != ns || (
    t.edges[i].src_doc_id != id && t.edges[i].dst_doc_id != Some(id)) by {
        assert(except(edge_touches(ns, id))(t.edges[i]));
    }
    assert forall|i: int| 0 <= i < t.nodes.len() implies (#[trigger] t.nodes[i]).namespace != ns
        || t.nodes[i].doc_id != Some(id) || t.nodes[i].level != 0 || t.nodes[i].sealed by {
        assert(except(loose_leaf_of(ns, id))(t.nodes[i]));
    }
}

/// Whether a list of documents is full and a document is no newer than any in it.
pub open spec fn crowded_out(listed: Seq<Doc>, d: Doc, max: int) -> bool {
    listed.len() == max && forall|i: int|
        0 <= i < listed.len() ==> (#[trigger] listed[i]).updated_at >= d.updated_at
}

/// Law: a list of the documents of a namespace names those alone, the newest first; one that it leaves out
/// finds the list full of documents that are no older.
pub proof fn law_listed(s: State, ns: Seq<char>, max: int, d: Doc)
    requires
        0 <= max,
    ensures
        ({
            let listed = first_rows(sorted_rows(rows_where(s.docs, doc_in(ns)), newer()), max);
            &&& listed.len() <= max
            &&& listed.contains(d) ==> s.docs.contains(d) && d.namespace == ns
            &&& s.docs.contains(d) && d.namespace == ns ==> listed.contains(d) || crowded_out(listed, d, max)
            &&& forall|i: int, j: int|
                0 <= i < j < listed.len() ==> (#[trigger] listed[i]).updated_at >= (
                #[trigger] listed[j]).updated_at
        }),
{
    broadcast use vstd::seq_lib::group_to_multiset_ensures;

    let sel = rows_where(s.docs, doc_in(ns));
    let sorted = sorted_rows(sel, newer());
    let listed = first_rows(sorted, max);
    lemma_rows_where_contains(s.docs, doc_in(ns));
    assert(is_order(newer()));
    law_sorted_rows(sel, newer());
    assert(sorted.to_multiset().count(d) > 0 <==> sorted.contains(d));
    assert(sel.to_multiset().count(d) > 0 <==> sel.contains(d));
    assert forall|i: int, j: int| 0 <= i < j < sorted.len() implies (#[trigger] sorted[i]).updated_at >= (
    #[trigger] sorted[j]).updated_at by {
        assert(!newer()(sorted[j], sorted[i]));
    }
    assert(forall|i: int| 0 <= i < listed.len() ==> listed[i] == sorted[i]);
    if listed.contains(d) {
        let i = choose|i: int| 0 <= i < listed.len() && listed[i] == d;
        assert(sorted.contains(sorted[i]));
    }
    if sel.contains(d) {
        assert(sorted.contains(d));
        let k = choose|k: int| 0 <= k < sorted.len() && sorted[k] == d;
        if k < listed.len() {
            assert(listed[k] == d);
        }
    }
}

/// Law: a document that is stored says what it was given to say under the key it was given; a document with
/// that key before it keeps its id and the time it was made.
pub proof fn law_stored_doc(docs: Seq<Doc>, ns: Seq<char>, new: NewDoc, id: Seq<char>, now: u64)
    ensures
        ({
            let d = doc_upserted(docs, ns, new, id, now);
            &&& d.title == new.title@
            &&& d.content == new.content@
            &&& d.author == new.author@
            &&& d.taint == new.taint
            &&& d.meta == opt_text(new.meta)
            &&& d.updated_at == now
            &&& d.namespace == ns
            &&& d.key == new.key@
            &&& match first_row(docs, doc_is(ns, new.key@)) {
                Some(before) => d.document_id == before.document_id && d.created_at == before.created_at,
                None => d.document_id == id && d.created_at == now,
            }
        }),
{
    lemma_first_row(docs, doc_is(ns, new.key@));
}

} // verus!
