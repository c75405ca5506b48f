//! Committing an ingested document: the document, its chunks, mentions and edges, and its
//! post-acquire job change together or not at all.

use super::chunks::{chunk_signed, code_chunk_rows, is_code_chunk, CodeChunkDetail};
use super::docs::{
    chunk_of, doc_created, doc_has_id, doc_in, doc_is, doc_updated, doc_upserted, docs_upserted, edge_from,
    lemma_docs_upserted, mention_of, upsert_refused,
};
use super::edges::{edge_is, edges_from_doc, edges_put, edges_replaced, raw_edge, replace_edges, stored_edge};
use super::entities::{add_mentions, mention_is, mentions_recorded};
use super::jobs::{enqueued, job_id_of, job_is, job_reset, law_enqueue};
use super::{
    chunk_key, copy_embedding, doc_id_key, doc_key, mention_key, random_id, Chunk, CodeEdge, JobStatus,
    Mention, State, Store, StoredChunk,
};
use crate::model::{distinct_edges, Doc, Edge, Error, MemoryDoc, NewDoc, RawEdge};
use crate::table::{
    any_row, distinct_by, except, find, first_row, lemma_distinct_push, lemma_distinct_where, lemma_first_row,
    lemma_first_row_unique, lemma_removed_apart, lemma_rewritten_apart, lemma_rows_push, lemma_rows_where_add,
    lemma_rows_where_all, lemma_rows_where_contains, lemma_rows_where_none, lemma_rows_where_swap, rows,
    rows_where,
};
use crate::text::{cat2, decimal, decimal_of, law_decimal_round_trip, same, texts};
use vstd::prelude::*;

verus! {

/// What is stored of a document besides its row: chunk by chunk the text, the embedding, the
/// mentioned entities and the line range, and the edges of the whole document.
#[verifier::ext_equal]
pub struct Parts {
    pub texts: Seq<Seq<char>>,
    pub embeddings: Seq<Seq<u32>>,
    pub entities: Seq<Seq<Seq<char>>>,
    pub ranges: Seq<Option<(u64, u64)>>,
    pub edges: Seq<Edge>,
    pub signature: Seq<char>,
}

/// The texts in a list of lists of strings.
pub open spec fn text_lists(v: Seq<Vec<String>>) -> Seq<Seq<Seq<char>>> {
    Seq::new(v.len(), |i: int| texts(v[i]@))
}

/// The patterns in a list of embeddings.
pub open spec fn embeddings_of(v: Seq<Vec<u32>>) -> Seq<Seq<u32>> {
    Seq::new(v.len(), |i: int| v[i]@)
}

/// The id of the chunk with number `i` of a document.
pub open spec fn chunk_id_of(id: Seq<char>, i: int) -> Seq<char> {
    id + "#"@ + decimal(i as nat)
}

pub open spec fn range_start(r: Option<(u64, u64)>) -> Option<u64> {
    match r {
        Some(p) => Some(p.0),
        None => None,
    }
}

pub open spec fn range_end(r: Option<(u64, u64)>) -> Option<u64> {
    match r {
        Some(p) => Some(p.1),
        None => None,
    }
}

/// The first `n` chunks of a document as they are stored.
pub open spec fn chunks_stored(ns: Seq<char>, id: Seq<char>, p: Parts, n: int, now: u64) -> Seq<Chunk> {
    Seq::new(
        n as nat,
        |i: int|
            Chunk {
                namespace: ns,
                document_id: id,
                chunk_id: chunk_id_of(id, i),
                text: p.texts[i],
                embedding: p.embeddings[i],
                signature: p.signature,
                created_at: now,
                line_start: range_start(p.ranges[i]),
                line_end: range_end(p.ranges[i]),
            },
    )
}

/// The mentions after those of the first `n` chunks of a document were recorded.
pub open spec fn mentions_stored(
    s: Seq<Mention>,
    ns: Seq<char>,
    id: Seq<char>,
    entities: Seq<Seq<Seq<char>>>,
    n: int,
) -> Seq<Mention>
    decreases n,
{
    if n <= 0 {
        s
    } else {
        mentions_recorded(
            mentions_stored(s, ns, id, entities, n - 1),
            ns,
            chunk_id_of(id, n - 1),
            id,
            entities[n - 1],
        )
    }
}

/// Whether another document of the namespace already has a chunk under one of the ids.
pub open spec fn chunk_clash(chunks: Seq<Chunk>, ns: Seq<char>, id: Seq<char>, n: int) -> bool {
    exists|i: int, k: int|
        #![trigger chunks[i], chunk_id_of(id, k)]
        0 <= i < chunks.len() && 0 <= k < n && chunks[i].namespace == ns && chunks[i].document_id
            != id && chunks[i].chunk_id == chunk_id_of(id, k)
}

/// Whether a commit is refused.
pub open spec fn commit_refused(s: State, ns: Seq<char>, new: NewDoc, p: Parts, id: Seq<char>, now: u64) -> bool {
    upsert_refused(s.docs, ns, new.key@, id) || chunk_clash(
        s.chunks,
        ns,
        doc_upserted(s.docs, ns, new, id, now).document_id,
        p.texts.len() as int,
    )
}

/// The store after a commit: the document is stored or updated, its chunks, mentions and edges
/// are replaced, and its job is enqueued.
pub open spec fn committed(s: State, ns: Seq<char>, new: NewDoc, p: Parts, id: Seq<char>, now: u64) -> State {
    let doc = doc_upserted(s.docs, ns, new, id, now).document_id;
    State {
        docs: docs_upserted(s.docs, ns, new, id, now),
        chunks: rows_where(s.chunks, except(chunk_of(ns, doc))) + chunks_stored(
            ns,
            doc,
            p,
            p.texts.len() as int,
            now,
        ),
        mentions: mentions_stored(
            rows_where(s.mentions, except(mention_of(ns, doc))),
            ns,
            doc,
            p.entities,
            p.texts.len() as int,
        ),
        edges: edges_replaced(s.edges, ns, doc, p.edges),
        jobs: enqueued(s.jobs, ns, doc, now),
        ..s
    }
}

proof fn lemma_chunk_id_injective(id: Seq<char>, i: int, j: int)
    requires
        0 <= i,
        0 <= j,
        chunk_id_of(id, i) == chunk_id_of(id, j),
    ensures
        i == j,
{
    let a = chunk_id_of(id, i);
    let b = chunk_id_of(id, j);
    let n = (id + "#"@).len() as int;
    assert(a.subrange(n, a.len() as int) =~= decimal(i as nat));
    assert(b.subrange(n, b.len() as int) =~= decimal(j as nat));
    law_decimal_round_trip(i as nat);
    law_decimal_round_trip(j as nat);
}

proof fn lemma_chunks_committed(
    chunks: Seq<Chunk>,
    ns: Seq<char>,
    id: Seq<char>,
    p: Parts,
    n: int,
    now: u64,
)
    requires
        0 <= n,
        distinct_by(chunks, chunk_key()),
        !chunk_clash(chunks, ns, id, n),
    ensures
        distinct_by(
            rows_where(chunks, except(chunk_of(ns, id))) + chunks_stored(ns, id, p, n, now),
            chunk_key(),
        ),
    decreases n,
{
    let kept = rows_where(chunks, except(chunk_of(ns, id)));
    let q = except(chunk_of(ns, id));
    if n == 0 {
        lemma_distinct_where(chunks, q, chunk_key());
        assert(kept + chunks_stored(ns, id, p, n, now) =~= kept);
    } else {
        assert(!chunk_clash(chunks, ns, id, n - 1)) by {
            if chunk_clash(chunks, ns, id, n - 1) {
                let (i, k) = choose|i: int, k: int|
                    #![trigger chunks[i], chunk_id_of(id, k)]
                    0 <= i < chunks.len() && 0 <= k < n - 1 && chunks[i].namespace == ns
                        && chunks[i].document_id != id && chunks[i].chunk_id == chunk_id_of(id, k);
                assert(chunks[i].chunk_id == chunk_id_of(id, k));
            }
        }
        lemma_chunks_committed(chunks, ns, id, p, n - 1, now);
        let fewer = chunks_stored(ns, id, p, n - 1, now);
        let all = chunks_stored(ns, id, p, n, now);
        let x = all.last();
        assert(all =~= fewer.push(x));
        assert((kept + fewer).push(x) =~= kept + all);
        lemma_rows_where_contains(chunks, q);
        assert forall|i: int| 0 <= i < (kept + fewer).len() implies chunk_key()(
            #[trigger] (kept + fewer)[i],
        ) != chunk_key()(x) by {
            let y = (kept + fewer)[i];
            if i < kept.len() {
                assert(y == kept[i]);
                assert(kept.contains(y));
                assert(chunks.contains(y) && q(y));
                let m = choose|m: int| 0 <= m < chunks.len() && chunks[m] == y;
                if chunk_key()(y) == chunk_key()(x) {
                    assert(chunks[m].chunk_id == chunk_id_of(id, n - 1));
                    assert(chunk_clash(chunks, ns, id, n));
                }
            } else {
                let k = i - kept.len();
                assert(y == fewer[k]);
                if chunk_key()(y) == chunk_key()(x) {
                    lemma_chunk_id_injective(id, k, n - 1);
                }
            }
        }
        lemma_distinct_push(kept + fewer, x, chunk_key());
    }
}

impl Store {
    /// Commits an ingested document under a fresh random id, or under the id that its key
    /// already has: the document is stored, its chunks, mentions and edges are replaced, and its
    /// post-acquire job is enqueued. Refused where the random id belongs to another document, or
    /// another document of the namespace has a chunk under one of the chunk ids, and only there;
    /// where the key already has an id, the random one decides nothing.
    pub fn commit_ingest(
        &mut self,
        namespace: &str,
        new: &NewDoc,
        chunk_texts: &Vec<String>,
        embeddings: &Vec<Vec<u32>>,
        entities: &Vec<Vec<String>>,
        line_ranges: &Vec<Option<(u64, u64)>>,
        raw_edges: &Vec<RawEdge>,
        signature: &str,
        now: u64,
    ) -> (r: Result<MemoryDoc, Error>)
        requires
            old(self)@.wf(),
            chunk_texts@.len() <= embeddings@.len(),
            chunk_texts@.len() <= entities@.len(),
            chunk_texts@.len() <= line_ranges@.len(),
        ensures
            final(self)@.wf(),
            ({
                let p = Parts {
                    texts: texts(chunk_texts@),
                    embeddings: embeddings_of(embeddings@),
                    entities: text_lists(entities@),
                    ranges: line_ranges@,
                    edges: rows(raw_edges@),
                    signature: signature@,
                };
                match r {
                    Ok(d) => exists|id: Seq<char>|
                        !commit_refused(old(self)@, namespace@, *new, p, id, now)
                            && #[trigger] doc_upserted(
                            old(self)@.docs,
                            namespace@,
                            *new,
                            id,
                            now,
                        ) == d@ && final(self)@ == committed(
                            old(self)@,
                            namespace@,
                            *new,
                            p,
                            id,
                            now,
                        ),
                    Err(e) => e is Conflict && final(self)@ == old(self)@ && exists|id: Seq<char>|
                        #[trigger]
                        commit_refused(old(self)@, namespace@, *new, p, id, now),
                }
            }),
            ({
                let p = Parts {
                    texts: texts(chunk_texts@),
                    embeddings: embeddings_of(embeddings@),
                    entities: text_lists(entities@),
                    ranges: line_ranges@,
                    edges: rows(raw_edges@),
                    signature: signature@,
                };
                any_row(old(self)@.docs, doc_is(namespace@, new.key@)) ==> forall|id: Seq<char>|
                    r is Err <==> #[trigger] commit_refused(old(self)@, namespace@, *new, p, id, now)
            }),
    {
        proof {
            lemma_first_row(self@.docs, doc_is(namespace@, new.key@));
        }
        let id = random_id();
        self.commit_ingest_as(
            namespace,
            new,
            chunk_texts,
            embeddings,
            entities,
            line_ranges,
            raw_edges,
            signature,
            id.as_str(),
            now,
        )
    }

    /// Whether another document of the namespace already has a chunk under one of the first `n`
    /// chunk ids of a document.
    fn has_chunk_clash(&self, namespace: &str, id: &str, n: usize) -> (r: bool)
        ensures
            r == chunk_clash(self@.chunks, namespace@, id@, n as int),
    {
        let prefix = cat2(id, "#");
        for k in 0..n
            invariant
                prefix@ == id@ + "#"@,
                forall|i: int, j: int|
                    #![trigger self@.chunks[i], chunk_id_of(id@, j)]
                    0 <= i < self@.chunks.len() && 0 <= j < k ==> !(self@.chunks[i].namespace
                        == namespace@ && self@.chunks[i].document_id != id@
                        && self@.chunks[i].chunk_id == chunk_id_of(id@, j)),
        {
            let chunk_id = cat2(prefix.as_str(), decimal_of(k as u64).as_str());
            let ghost q = |c: Chunk|
                c.namespace == namespace@ && c.document_id != id@ && c.chunk_id == chunk_id@;
            assert(chunk_id@ == chunk_id_of(id@, k as int));
            let at = find(
                &self.chunks,
                |c: &StoredChunk| -> (b: bool)
                    ensures
                        b == (c@.namespace == namespace@ && c@.document_id != id@ && c@.chunk_id
                            == chunk_id@)
                {
                    same(c.namespace.as_str(), namespace) && !same(c.document_id.as_str(), id)
                        && same(c.chunk_id.as_str(), chunk_id.as_str())
                },
                Ghost(q),
            );
            if at.is_some() {
                assert(self@.chunks[at->0 as int].chunk_id == chunk_id_of(id@, k as int));
                return true;
            }
            assert forall|i: int, j: int|
                #![trigger self@.chunks[i], chunk_id_of(id@, j)]
                0 <= i < self@.chunks.len() && 0 <= j < k + 1 implies !(self@.chunks[i].namespace
                == namespace@ && self@.chunks[i].document_id != id@ && self@.chunks[i].chunk_id
                == chunk_id_of(id@, j)) by {
                if j == k {
                    assert(!q(rows(self.chunks@)[i]));
                }
            }
        }
        false
    }

    /// As [`Store::commit_ingest`], under the given id if the key has none yet. Refused where
    /// that id belongs to another document, or another document of the namespace has a chunk
    /// under one of the chunk ids.
    pub fn commit_ingest_as(
        &mut self,
        namespace: &str,
        new: &NewDoc,
        chunk_texts: &Vec<String>,
        embeddings: &Vec<Vec<u32>>,
        entities: &Vec<Vec<String>>,
        line_ranges: &Vec<Option<(u64, u64)>>,
        raw_edges: &Vec<RawEdge>,
        signature: &str,
        id: &str,
        now: u64,
    ) -> (r: Result<MemoryDoc, Error>)
        requires
            old(self)@.wf(),
            chunk_texts@.len() <= embeddings@.len(),
            chunk_texts@.len() <= entities@.len(),
            chunk_texts@.len() <= line_ranges@.len(),
        ensures
            final(self)@.wf(),
            ({
                let p = Parts {
                    texts: texts(chunk_texts@),
                    embeddings: embeddings_of(embeddings@),
                    entities: text_lists(entities@),
                    ranges: line_ranges@,
                    edges: rows(raw_edges@),
                    signature: signature@,
                };
                match r {
                    Ok(d) => !commit_refused(old(self)@, namespace@, *new, p, id@, now) && d@
                        == doc_upserted(old(self)@.docs, namespace@, *new, id@, now)
                        && final(self)@ == committed(old(self)@, namespace@, *new, p, id@, now),
                    Err(e) => e is Conflict && commit_refused(
                        old(self)@,
                        namespace@,
                        *new,
                        p,
                        id@,
                        now,
                    ) && final(self)@ == old(self)@,
                }
            }),
    {
        let ghost before = self@;
        let ghost p = Parts {
            texts: texts(chunk_texts@),
            embeddings: embeddings_of(embeddings@),
            entities: text_lists(entities@),
            ranges: line_ranges@,
            edges: rows(raw_edges@),
            signature: signature@,
        };
        let ghost doc = doc_upserted(before.docs, namespace@, *new, id@, now).document_id;
        let n: usize = chunk_texts.len();
        let known = self.get_by_key(namespace, new.key.as_str());
        let doc_id: String = match &known {
            Some(d) => d.document_id.clone(),
            None => id.to_owned(),
        };
        proof {
            lemma_first_row(before.docs, doc_is(namespace@, new.key@));
            assert(doc_id@ == doc);
        }
        if self.has_chunk_clash(namespace, doc_id.as_str(), n) {
            return Err(Error::Conflict);
        }
        let stored = match self.insert_doc_as(namespace, new, id.to_owned(), now) {
            Ok(d) => d,
            Err(e) => {
                return Err(e);
            },
        };
        self.delete_chunks_for_doc(namespace, doc_id.as_str());
        let ghost mid = self@;
        let ghost kept_chunks = rows_where(before.chunks, except(chunk_of(namespace@, doc)));
        let ghost kept_mentions = rows_where(before.mentions, except(mention_of(namespace@, doc)));
        let prefix = cat2(doc_id.as_str(), "#");
        assert(kept_chunks + chunks_stored(namespace@, doc, p, 0, now) =~= kept_chunks);
        for i in 0..n
            invariant
                n == chunk_texts@.len(),
                n <= embeddings@.len(),
                n <= entities@.len(),
                n <= line_ranges@.len(),
                p.texts == texts(chunk_texts@),
                p.embeddings == embeddings_of(embeddings@),
                p.entities == text_lists(entities@),
                p.ranges == line_ranges@,
                p.signature == signature@,
                doc_id@ == doc,
                prefix@ == doc + "#"@,
                mid.wf(),
                distinct_by(self@.mentions, mention_key()),
                self@ == (State {
                    chunks: kept_chunks + chunks_stored(namespace@, doc, p, i as int, now),
                    mentions: mentions_stored(
                        kept_mentions,
                        namespace@,
                        doc,
                        p.entities,
                        i as int,
                    ),
                    ..mid
                }),
        {
            let chunk_id = cat2(prefix.as_str(), decimal_of(i as u64).as_str());
            assert(chunk_id@ == chunk_id_of(doc, i as int));
            let (line_start, line_end): (Option<u64>, Option<u64>) = match line_ranges[i] {
                Some((a, b)) => (Some(a), Some(b)),
                None => (None, None),
            };
            let row = StoredChunk {
                namespace: namespace.to_owned(),
                document_id: doc_id.clone(),
                chunk_id: chunk_id.clone(),
                text: chunk_texts[i].clone(),
                embedding: copy_embedding(&embeddings[i]),
                signature: signature.to_owned(),
                created_at: now,
                line_start,
                line_end,
            };
            let ghost v0 = self.chunks@;
            self.chunks.push(row);
            proof {
                lemma_rows_push(v0, row);
                assert(row@ =~= chunks_stored(namespace@, doc, p, i + 1, now)[i as int]);
                assert((kept_chunks + chunks_stored(namespace@, doc, p, i as int, now)).push(row@)
                    =~= kept_chunks + chunks_stored(namespace@, doc, p, i + 1, now));
            }
            add_mentions(
                &mut self.mentions,
                namespace,
                chunk_id.as_str(),
                doc_id.as_str(),
                &entities[i],
            );
            assert(p.entities[i as int] == texts(entities@[i as int]@));
        }
        replace_edges(&mut self.edges, namespace, doc_id.as_str(), raw_edges);
        proof {
            lemma_chunks_committed(before.chunks, namespace@, doc, p, n as int, now);
        }
        self.enqueue_job(namespace, doc_id.as_str(), now);
        assert(self@ =~= committed(before, namespace@, *new, p, id@, now));
        Ok(stored)
    }
}

// ---------------------------------------------------------------------------------------------
// Laws.
// ---------------------------------------------------------------------------------------------

/// Law: after a commit the document has exactly the chunks that were committed, whatever it had
/// before; every chunk of another document or namespace is still there, and no other is.
pub proof fn law_commit_replaces_chunks(
    s: State,
    ns: Seq<char>,
    new: NewDoc,
    p: Parts,
    id: Seq<char>,
    now: u64,
)
    ensures
        ({
            let doc = doc_upserted(s.docs, ns, new, id, now).document_id;
            let t = committed(s, ns, new, p, id, now);
            &&& rows_where(t.chunks, chunk_of(ns, doc)) == chunks_stored(
                ns,
                doc,
                p,
                p.texts.len() as int,
                now,
            )
            &&& rows_where(t.chunks, except(chunk_of(ns, doc))) == rows_where(
                s.chunks,
                except(chunk_of(ns, doc)),
            )
        }),
{
    let doc = doc_upserted(s.docs, ns, new, id, now).document_id;
    let q = chunk_of(ns, doc);
    let kept = rows_where(s.chunks, except(q));
    let stored = chunks_stored(ns, doc, p, p.texts.len() as int, now);
    lemma_rows_where_contains(s.chunks, except(q));
    lemma_rows_where_add(kept, stored, q);
    lemma_rows_where_add(kept, stored, except(q));
    assert(!any_row(kept, q)) by {
        assert forall|i: int| 0 <= i < kept.len() implies !q(#[trigger] kept[i]) by {
            assert(except(q)(kept[i]));
        }
    }
    lemma_rows_where_none(kept, q);
    lemma_rows_where_all(stored, q);
    assert(!any_row(stored, except(q)));
    lemma_rows_where_none(stored, except(q));
    assert forall|i: int| 0 <= i < kept.len() implies except(q)(#[trigger] kept[i]) by {}
    lemma_rows_where_all(kept, except(q));
    assert(rows_where(kept + stored, q) =~= stored);
    assert(rows_where(kept + stored, except(q)) =~= kept);
}

/// Law: committing a document again under its key keeps its id: the second commit updates the
/// document that the first stored, and there is still one document with that key.
pub proof fn law_commit_twice_keeps_id(
    s: State,
    ns: Seq<char>,
    first: NewDoc,
    p: Parts,
    id: Seq<char>,
    now: u64,
    second: NewDoc,
    other_id: Seq<char>,
    later: u64,
)
    requires
        s.wf(),
        !commit_refused(s, ns, first, p, id, now),
        first.key@ == second.key@,
    ensures
        ({
            let t = committed(s, ns, first, p, id, now);
            &&& doc_upserted(t.docs, ns, second, other_id, later).document_id == doc_upserted(
                s.docs,
                ns,
                first,
                id,
                now,
            ).document_id
            &&& docs_upserted(t.docs, ns, second, other_id, later).len() == t.docs.len()
        }),
{
    lemma_docs_upserted(s.docs, ns, first, id, now);
    let t = committed(s, ns, first, p, id, now);
    lemma_first_row(t.docs, doc_is(ns, first.key@));
}

pub open spec fn chunk_in(ns: Seq<char>) -> spec_fn(Chunk) -> bool {
    |c: Chunk| c.namespace == ns
}

pub open spec fn mention_in(ns: Seq<char>) -> spec_fn(Mention) -> bool {
    |m: Mention| m.namespace == ns
}

pub open spec fn edge_in(ns: Seq<char>) -> spec_fn(CodeEdge) -> bool {
    |e: CodeEdge| e.namespace == ns
}

proof fn lemma_recorded_elsewhere(
    s: Seq<Mention>,
    ns: Seq<char>,
    chunk_id: Seq<char>,
    id: Seq<char>,
    entities: Seq<Seq<char>>,
    q: spec_fn(Mention) -> bool,
)
    requires
        forall|m: Mention| mention_of(ns, id)(m) ==> !#[trigger] q(m),
    ensures
        rows_where(mentions_recorded(s, ns, chunk_id, id, entities), q) == rows_where(s, q),
    decreases entities.len(),
{
    if entities.len() > 0 {
        lemma_recorded_elsewhere(s, ns, chunk_id, id, entities.drop_last(), q);
        let before = mentions_recorded(s, ns, chunk_id, id, entities.drop_last());
        let m = Mention { namespace: ns, chunk_id, document_id: id, entity_id: entities.last() };
        assert(mention_of(ns, id)(m));
        assert(before.push(m).drop_last() =~= before);
    }
}

proof fn lemma_stored_elsewhere(
    s: Seq<Mention>,
    ns: Seq<char>,
    id: Seq<char>,
    entities: Seq<Seq<Seq<char>>>,
    n: int,
    q: spec_fn(Mention) -> bool,
)
    requires
        forall|m: Mention| mention_of(ns, id)(m) ==> !#[trigger] q(m),
    ensures
        rows_where(mentions_stored(s, ns, id, entities, n), q) == rows_where(s, q),
    decreases n,
{
    if n > 0 {
        lemma_stored_elsewhere(s, ns, id, entities, n - 1, q);
        lemma_recorded_elsewhere(
            mentions_stored(s, ns, id, entities, n - 1),
            ns,
            chunk_id_of(id, n - 1),
            id,
            entities[n - 1],
            q,
        );
    }
}

proof fn lemma_put_elsewhere(
    s: Seq<CodeEdge>,
    ns: Seq<char>,
    src: Seq<char>,
    edges: Seq<Edge>,
    q: spec_fn(CodeEdge) -> bool,
)
    requires
        forall|e: CodeEdge| edge_from(ns, src)(e) ==> !#[trigger] q(e),
    ensures
        rows_where(edges_put(s, ns, src, edges), q) == rows_where(s, q),
    decreases edges.len(),
{
    if edges.len() > 0 {
        lemma_put_elsewhere(s, ns, src, edges.drop_last(), q);
        let before = edges_put(s, ns, src, edges.drop_last());
        let e = stored_edge(ns, src, edges.last());
        assert forall|x: CodeEdge| #[trigger] edge_is(e)(x) implies !q(x) by {
            assert(edge_from(ns, src)(x));
        }
        assert(edge_is(e)(e));
        lemma_removed_apart(before, edge_is(e), q);
        let kept = rows_where(before, except(edge_is(e)));
        assert(kept.push(e).drop_last() =~= kept);
    }
}

/// Law: a commit in one namespace changes nothing of what another holds: its documents, chunks,
/// mentions and edges are the same, in the same order; and no tree changes.
pub proof fn law_commit_in_one_namespace(
    s: State,
    ns: Seq<char>,
    new: NewDoc,
    p: Parts,
    id: Seq<char>,
    now: u64,
    other: Seq<char>,
)
    requires
        other != ns,
    ensures
        ({
            let t = committed(s, ns, new, p, id, now);
            &&& rows_where(t.docs, doc_in(other)) == rows_where(s.docs, doc_in(other))
            &&& rows_where(t.chunks, chunk_in(other)) == rows_where(s.chunks, chunk_in(other))
            &&& rows_where(t.mentions, mention_in(other)) == rows_where(s.mentions, mention_in(other))
            &&& rows_where(t.edges, edge_in(other)) == rows_where(s.edges, edge_in(other))
            &&& t.nodes == s.nodes
            &&& t.links == s.links
        }),
{
    let doc = doc_upserted(s.docs, ns, new, id, now).document_id;
    let n = p.texts.len() as int;
    if any_row(s.docs, doc_is(ns, new.key@)) {
        lemma_rewritten_apart(s.docs, doc_is(ns, new.key@), doc_updated(new, now), doc_in(other));
    } else {
        assert(s.docs.push(doc_created(ns, new, id, now)).drop_last() =~= s.docs);
    }
    let kept = rows_where(s.chunks, except(chunk_of(ns, doc)));
    let stored = chunks_stored(ns, doc, p, n, now);
    lemma_removed_apart(s.chunks, chunk_of(ns, doc), chunk_in(other));
    lemma_rows_where_add(kept, stored, chunk_in(other));
    lemma_rows_where_none(stored, chunk_in(other));
    assert(rows_where(kept, chunk_in(other)) + Seq::<Chunk>::empty() =~= rows_where(
        kept,
        chunk_in(other),
    ));
    lemma_removed_apart(s.mentions, mention_of(ns, doc), mention_in(other));
    lemma_stored_elsewhere(
        rows_where(s.mentions, except(mention_of(ns, doc))),
        ns,
        doc,
        p.entities,
        n,
        mention_in(other),
    );
    lemma_removed_apart(s.edges, edge_from(ns, doc), edge_in(other));
    lemma_put_elsewhere(
        rows_where(s.edges, except(edge_from(ns, doc))),
        ns,
        doc,
        p.edges,
        edge_in(other),
    );
}

proof fn lemma_put_distinct(s: Seq<CodeEdge>, ns: Seq<char>, src: Seq<char>, edges: Seq<Edge>)
    requires
        distinct_edges(edges),
        !any_row(s, edge_from(ns, src)),
    ensures
        edges_put(s, ns, src, edges) == s + edges.map_values(|e: Edge| stored_edge(ns, src, e)),
    decreases edges.len(),
{
    let f = |e: Edge| stored_edge(ns, src, e);
    if edges.len() > 0 {
        let head = edges.drop_last();
        assert(distinct_edges(head)) by {
            assert forall|i: int, j: int| 0 <= i < j < head.len() implies (#[trigger] head[i]).dst_sym
                != (#[trigger] head[j]).dst_sym || head[i].edge_kind != head[j].edge_kind by {
                assert(head[i] == edges[i] && head[j] == edges[j]);
            }
        }
        lemma_put_distinct(s, ns, src, head);
        let before = edges_put(s, ns, src, head);
        let e = stored_edge(ns, src, edges.last());
        assert(before == s + head.map_values(f));
        assert forall|i: int| 0 <= i < before.len() implies except(edge_is(e))(#[trigger] before[i]) by {
            if i < s.len() {
                assert(!edge_from(ns, src)(s[i]));
            } else {
                let k = i - s.len();
                assert(before[i] == stored_edge(ns, src, head[k]));
                assert(head[k] == edges[k]);
                assert(edges[edges.len() - 1] == edges.last());
            }
        }
        lemma_rows_where_all(before, except(edge_is(e)));
        assert(edges.map_values(f) =~= head.map_values(f).push(e));
        assert(before.push(e) =~= s + edges.map_values(f));
    } else {
        assert(s + edges.map_values(f) =~= s);
    }
}

/// Law: after a commit the edges that start from the document are the ones that were committed, in
/// their order, whatever it had before.
pub proof fn law_commit_replaces_edges(s: State, ns: Seq<char>, new: NewDoc, p: Parts, id: Seq<char>, now: u64)
    requires
        distinct_edges(p.edges),
    ensures
        ({
            let doc = doc_upserted(s.docs, ns, new, id, now).document_id;
            edges_from_doc(committed(s, ns, new, p, id, now), ns, doc) == p.edges
        }),
{
    let doc = doc_upserted(s.docs, ns, new, id, now).document_id;
    let q = edge_from(ns, doc);
    let f = |e: Edge| stored_edge(ns, doc, e);
    let g = |e: CodeEdge| raw_edge(e);
    let kept = rows_where(s.edges, except(q));
    lemma_rows_where_contains(s.edges, except(q));
    assert forall|i: int| 0 <= i < kept.len() implies !q(#[trigger] kept[i]) by {
        assert(except(q)(kept[i]));
    }
    lemma_put_distinct(kept, ns, doc, p.edges);
    let stored = p.edges.map_values(f);
    lemma_rows_where_add(kept, stored, q);
    lemma_rows_where_none(kept, q);
    lemma_rows_where_all(stored, q);
    assert(Seq::<CodeEdge>::empty() + stored =~= stored);
    assert(stored.map_values(g) =~= p.edges);
}

/// Whether a mention is one of a chunk's entities.
pub open spec fn mentions_entity_of(m: Mention, id: Seq<char>, entities: Seq<Seq<Seq<char>>>, i: int) -> bool {
    m.chunk_id == chunk_id_of(id, i) && entities[i].contains(m.entity_id)
}

proof fn lemma_recorded_from(
    s: Seq<Mention>,
    ns: Seq<char>,
    id: Seq<char>,
    entities: Seq<Seq<Seq<char>>>,
    i: int,
    list: Seq<Seq<char>>,
)
    requires
        forall|k: int| 0 <= k < list.len() ==> entities[i].contains(#[trigger] list[k]),
    ensures
        forall|m: Mention| #[trigger]
            mentions_recorded(s, ns, chunk_id_of(id, i), id, list).contains(m) && !s.contains(m)
                ==> m.namespace == ns && m.document_id == id && mentions_entity_of(m, id, entities, i),
        forall|k: int|
            0 <= k < list.len() ==> any_row(
                mentions_recorded(s, ns, chunk_id_of(id, i), id, list),
                mention_is(ns, chunk_id_of(id, i), #[trigger] list[k]),
            ),
        forall|q: spec_fn(Mention) -> bool|
            any_row(s, q) ==> #[trigger] any_row(
                mentions_recorded(s, ns, chunk_id_of(id, i), id, list),
                q,
            ),
    decreases list.len(),
{
    if list.len() > 0 {
        let head = list.drop_last();
        assert forall|k: int| 0 <= k < head.len() implies entities[i].contains(#[trigger] head[k]) by {
            assert(head[k] == list[k]);
        }
        lemma_recorded_from(s, ns, id, entities, i, head);
        let c = chunk_id_of(id, i);
        let before = mentions_recorded(s, ns, c, id, head);
        let after = mentions_recorded(s, ns, c, id, list);
        let x = Mention { namespace: ns, chunk_id: c, document_id: id, entity_id: list.last() };
        assert(entities[i].contains(list[list.len() - 1]));
        assert forall|m: Mention| #[trigger] after.contains(m) && !s.contains(m) implies m.namespace == ns
            && m.document_id == id && mentions_entity_of(m, id, entities, i) by {
            let k = choose|k: int| 0 <= k < after.len() && after[k] == m;
            if k < before.len() {
                assert(before[k] == m);
                assert(before.contains(m));
            } else {
                assert(m == x);
            }
        }
        assert forall|q: spec_fn(Mention) -> bool| any_row(before, q) implies #[trigger] any_row(after, q) by {
            let k = choose|k: int| 0 <= k < before.len() && q(#[trigger] before[k]);
            assert(after[k] == before[k]);
        }
        assert forall|k: int| 0 <= k < list.len() implies any_row(
            after,
            mention_is(ns, c, #[trigger] list[k]),
        ) by {
            if k < head.len() {
                assert(head[k] == list[k]);
                assert(any_row(before, mention_is(ns, c, head[k])));
            } else if !any_row(before, mention_is(ns, c, list[k])) {
                assert(after[before.len() as int] == x);
                assert(mention_is(ns, c, list[k])(after[before.len() as int]));
            }
        }
    }
}

proof fn lemma_stored_from(s: Seq<Mention>, ns: Seq<char>, id: Seq<char>, entities: Seq<Seq<Seq<char>>>, n: int)
    requires
        0 <= n,
    ensures
        forall|m: Mention| #[trigger]
            mentions_stored(s, ns, id, entities, n).contains(m) && !s.contains(m) ==> m.namespace == ns
                && m.document_id == id && exists|i: int|
                0 <= i < n && #[trigger] mentions_entity_of(m, id, entities, i),
        forall|i: int, k: int|
            0 <= i < n && 0 <= k < entities[i].len() ==> any_row(
                mentions_stored(s, ns, id, entities, n),
                mention_is(ns, chunk_id_of(id, i), #[trigger] entities[i][k]),
            ),
        forall|q: spec_fn(Mention) -> bool|
            any_row(s, q) ==> #[trigger] any_row(mentions_stored(s, ns, id, entities, n), q),
    decreases n,
{
    if n > 0 {
        lemma_stored_from(s, ns, id, entities, n - 1);
        let before = mentions_stored(s, ns, id, entities, n - 1);
        let after = mentions_stored(s, ns, id, entities, n);
        let list = entities[n - 1];
        assert forall|k: int| 0 <= k < list.len() implies entities[n - 1].contains(#[trigger] list[k]) by {}
        lemma_recorded_from(before, ns, id, entities, n - 1, list);
        assert forall|m: Mention| #[trigger] after.contains(m) && !s.contains(m) implies m.namespace == ns
            && m.document_id == id && exists|i: int|
            0 <= i < n && #[trigger] mentions_entity_of(m, id, entities, i) by {
            if before.contains(m) {
                let i = choose|i: int| 0 <= i < n - 1 && #[trigger] mentions_entity_of(m, id, entities, i);
                assert(mentions_entity_of(m, id, entities, i));
            } else {
                assert(mentions_entity_of(m, id, entities, n - 1));
            }
        }
        assert forall|i: int, k: int| 0 <= i < n && 0 <= k < entities[i].len() implies any_row(
            after,
            mention_is(ns, chunk_id_of(id, i), #[trigger] entities[i][k]),
        ) by {
            if i < n - 1 {
                assert(any_row(before, mention_is(ns, chunk_id_of(id, i), entities[i][k])));
            } else {
                assert(list[k] == entities[i][k]);
            }
        }
    }
}

/// Law: after a commit a document mentions what its chunks were committed with and nothing else:
/// each entity of each chunk is recorded for that chunk, and every mention of the document is one of
/// those.
pub proof fn law_commit_replaces_mentions(s: State, ns: Seq<char>, new: NewDoc, p: Parts, id: Seq<char>, now: u64)
    ensures
        ({
            let doc = doc_upserted(s.docs, ns, new, id, now).document_id;
            let t = committed(s, ns, new, p, id, now);
            &&& forall|i: int, k: int|
                0 <= i < p.texts.len() && 0 <= k < p.entities[i].len() ==> any_row(
                    t.mentions,
                    mention_is(ns, chunk_id_of(doc, i), #[trigger] p.entities[i][k]),
                )
            &&& forall|m: Mention|
                #[trigger] t.mentions.contains(m) && mention_of(ns, doc)(m) ==> exists|i: int|
                    0 <= i < p.texts.len() && #[trigger] mentions_entity_of(m, doc, p.entities, i)
        }),
{
    let doc = doc_upserted(s.docs, ns, new, id, now).document_id;
    let t = committed(s, ns, new, p, id, now);
    let kept = rows_where(s.mentions, except(mention_of(ns, doc)));
    lemma_rows_where_contains(s.mentions, except(mention_of(ns, doc)));
    lemma_stored_from(kept, ns, doc, p.entities, p.texts.len() as int);
    assert forall|m: Mention| #[trigger] t.mentions.contains(m) && mention_of(ns, doc)(m) implies exists|i: int|
        0 <= i < p.texts.len() && #[trigger] mentions_entity_of(m, doc, p.entities, i) by {
        if kept.contains(m) {
            assert(except(mention_of(ns, doc))(m));
        }
    }
}

/// Whether store `t` holds this commit of a document and, apart from that, what store `s` holds:
/// the document under its key, exactly the chunks and edges of the commit (of edges with one target
/// and kind the last), the mentions of its chunks' entities and no other, and its job pending with no
/// attempt made; no row of another document has changed, and no tree.
pub open spec fn holds_commit(s: State, t: State, ns: Seq<char>, doc: Doc, p: Parts, now: u64) -> bool {
    let id = doc.document_id;
    let job = job_id_of(ns, id);
    &&& first_row(t.docs, doc_is(ns, doc.key)) == Some(doc)
    &&& rows_where(t.docs, except(doc_is(ns, doc.key))) == rows_where(
        s.docs,
        except(doc_is(ns, doc.key)),
    )
    &&& rows_where(t.chunks, chunk_of(ns, id)) == chunks_stored(ns, id, p, p.texts.len() as int, now)
    &&& rows_where(t.chunks, except(chunk_of(ns, id))) == rows_where(
        s.chunks,
        except(chunk_of(ns, id)),
    )
    &&& forall|i: int, k: int|
        0 <= i < p.texts.len() && 0 <= k < p.entities[i].len() ==> any_row(
            t.mentions,
            mention_is(ns, chunk_id_of(id, i), #[trigger] p.entities[i][k]),
        )
    &&& forall|m: Mention| #[trigger]
        t.mentions.contains(m) && mention_of(ns, id)(m) ==> exists|i: int|
            0 <= i < p.texts.len() && #[trigger] mentions_entity_of(m, id, p.entities, i)
    &&& rows_where(t.mentions, except(mention_of(ns, id))) == rows_where(
        s.mentions,
        except(mention_of(ns, id)),
    )
    &&& rows_where(t.edges, edge_from(ns, id)) == edges_put(Seq::empty(), ns, id, p.edges)
    &&& distinct_edges(p.edges) ==> edges_from_doc(t, ns, id) == p.edges
    &&& rows_where(t.edges, except(edge_from(ns, id))) == rows_where(
        s.edges,
        except(edge_from(ns, id)),
    )
    &&& match first_row(t.jobs, job_is(job)) {
        Some(j) => j.status == JobStatus::Pending && j.attempts == 0 && j.last_error is None,
        None => false,
    }
    &&& rows_where(t.jobs, except(job_is(job))) == rows_where(s.jobs, except(job_is(job)))
    &&& t.nodes == s.nodes
    &&& t.links == s.links
}

/// The edges that start from a document, after its edges were put where it had none.
proof fn lemma_put_from(s: Seq<CodeEdge>, ns: Seq<char>, src: Seq<char>, edges: Seq<Edge>)
    requires
        rows_where(s, edge_from(ns, src)) == Seq::<CodeEdge>::empty(),
    ensures
        rows_where(edges_put(s, ns, src, edges), edge_from(ns, src)) == edges_put(
            Seq::empty(),
            ns,
            src,
            edges,
        ),
    decreases edges.len(),
{
    if edges.len() > 0 {
        let q = edge_from(ns, src);
        let head = edges.drop_last();
        lemma_put_from(s, ns, src, head);
        let before = edges_put(s, ns, src, head);
        let e = stored_edge(ns, src, edges.last());
        let kept = rows_where(before, except(edge_is(e)));
        lemma_rows_where_swap(before, except(edge_is(e)), q);
        assert(kept.push(e).drop_last() =~= kept);
        assert(q(e));
    }
}

/// Law: after a commit the store holds the commit, and of everything else what it held before.
pub proof fn law_commit(s: State, ns: Seq<char>, new: NewDoc, p: Parts, id: Seq<char>, now: u64)
    requires
        distinct_by(s.docs, doc_key()),
        distinct_by(s.docs, doc_id_key()),
        !commit_refused(s, ns, new, p, id, now),
    ensures
        holds_commit(
            s,
            committed(s, ns, new, p, id, now),
            ns,
            doc_upserted(s.docs, ns, new, id, now),
            p,
            now,
        ),
{
    let d = doc_upserted(s.docs, ns, new, id, now);
    let t = committed(s, ns, new, p, id, now);
    let doc = d.document_id;
    let by_key = doc_is(ns, new.key@);
    lemma_docs_upserted(s.docs, ns, new, id, now);
    lemma_first_row(s.docs, by_key);
    if any_row(s.docs, by_key) {
        lemma_rewritten_apart(s.docs, by_key, doc_updated(new, now), except(by_key));
    } else {
        assert(s.docs.push(doc_created(ns, new, id, now)).drop_last() =~= s.docs);
    }
    law_commit_replaces_chunks(s, ns, new, p, id, now);
    law_commit_replaces_mentions(s, ns, new, p, id, now);
    if distinct_edges(p.edges) {
        law_commit_replaces_edges(s, ns, new, p, id, now);
    }
    let mentions = rows_where(s.mentions, except(mention_of(ns, doc)));
    lemma_stored_elsewhere(
        mentions,
        ns,
        doc,
        p.entities,
        p.texts.len() as int,
        except(mention_of(ns, doc)),
    );
    lemma_rows_where_contains(s.mentions, except(mention_of(ns, doc)));
    lemma_rows_where_all(mentions, except(mention_of(ns, doc)));
    let edges = rows_where(s.edges, except(edge_from(ns, doc)));
    lemma_put_elsewhere(edges, ns, doc, p.edges, except(edge_from(ns, doc)));
    lemma_rows_where_contains(s.edges, except(edge_from(ns, doc)));
    lemma_rows_where_all(edges, except(edge_from(ns, doc)));
    assert forall|i: int| 0 <= i < edges.len() implies !edge_from(ns, doc)(#[trigger] edges[i]) by {
        assert(except(edge_from(ns, doc))(edges[i]));
    }
    lemma_rows_where_none(edges, edge_from(ns, doc));
    lemma_put_from(edges, ns, doc, p.edges);
    law_enqueue(s.jobs, ns, doc, now, now);
    let job = job_is(job_id_of(ns, doc));
    if any_row(s.jobs, job) {
        lemma_rewritten_apart(s.jobs, job, job_reset(now), except(job));
    } else {
        assert(t.jobs.drop_last() =~= s.jobs);
    }
}

/// Law: committing a document again under its key updates the document that the first commit
/// stored, under its id and with the time of its creation; the store then holds the second commit
/// and nothing of the first, and of everything else what it held before both.
pub proof fn law_commit_twice(
    s: State,
    ns: Seq<char>,
    first: NewDoc,
    p: Parts,
    id: Seq<char>,
    now: u64,
    second: NewDoc,
    q: Parts,
    other_id: Seq<char>,
    later: u64,
)
    requires
        s.wf(),
        !commit_refused(s, ns, first, p, id, now),
        !commit_refused(committed(s, ns, first, p, id, now), ns, second, q, other_id, later),
        first.key@ == second.key@,
    ensures
        ({
            let t = committed(s, ns, first, p, id, now);
            let before = doc_upserted(s.docs, ns, first, id, now);
            let doc = doc_upserted(t.docs, ns, second, other_id, later);
            &&& doc.document_id == before.document_id
            &&& doc.created_at == before.created_at
            &&& holds_commit(s, committed(t, ns, second, q, other_id, later), ns, doc, q, later)
        }),
{
    let t = committed(s, ns, first, p, id, now);
    law_commit(s, ns, first, p, id, now);
    lemma_docs_upserted(s.docs, ns, first, id, now);
    law_commit(t, ns, second, q, other_id, later);
}

/// Law: what was committed is what a search by the same model sees: each chunk is among the chunks of
/// its namespace and signature, with its text and embedding; and a chunk with a line range is among
/// the chunks of code, under the key of its document.
pub proof fn law_committed_chunks_are_searched(
    s: State,
    ns: Seq<char>,
    new: NewDoc,
    p: Parts,
    id: Seq<char>,
    now: u64,
    i: int,
)
    requires
        s.wf(),
        !commit_refused(s, ns, new, p, id, now),
        0 <= i < p.texts.len(),
    ensures
        ({
            let doc = doc_upserted(s.docs, ns, new, id, now).document_id;
            let t = committed(s, ns, new, p, id, now);
            let c = chunks_stored(ns, doc, p, p.texts.len() as int, now)[i];
            &&& c.document_id == doc
            &&& c.text == p.texts[i]
            &&& c.embedding == p.embeddings[i]
            &&& rows_where(t.chunks, chunk_signed(ns, p.signature)).contains(c)
            &&& p.ranges[i] is Some ==> code_chunk_rows(t, ns, p.signature).contains(
                CodeChunkDetail {
                    key: new.key@,
                    document_id: doc,
                    text: p.texts[i],
                    embedding: p.embeddings[i],
                    line_start: Some((p.ranges[i]->0).0),
                    line_end: Some((p.ranges[i]->0).1),
                },
            )
        }),
{
    let d = doc_upserted(s.docs, ns, new, id, now);
    let doc = d.document_id;
    let t = committed(s, ns, new, p, id, now);
    let stored = chunks_stored(ns, doc, p, p.texts.len() as int, now);
    let c = stored[i];
    let kept = rows_where(s.chunks, except(chunk_of(ns, doc)));
    assert(t.chunks[kept.len() + i] == c);
    lemma_rows_where_contains(t.chunks, chunk_signed(ns, p.signature));
    assert(t.chunks.contains(c));
    lemma_docs_upserted(s.docs, ns, new, id, now);
    lemma_first_row(t.docs, doc_is(ns, new.key@));
    lemma_first_row(s.docs, doc_is(ns, new.key@));
    let k = choose|k: int| 0 <= k < t.docs.len() && #[trigger] t.docs[k] == d;
    assert forall|j: int| 0 <= j < t.docs.len() && doc_has_id(ns, doc)(#[trigger] t.docs[j]) implies j == k by {
        if j < k {
            assert(doc_id_key()(t.docs[j]) != doc_id_key()(t.docs[k]));
        } else if j > k {
            assert(doc_id_key()(t.docs[k]) != doc_id_key()(t.docs[j]));
        }
    }
    lemma_first_row_unique(t.docs, doc_has_id(ns, doc), k);
    if p.ranges[i] is Some {
        let q = is_code_chunk(t, ns, p.signature);
        lemma_rows_where_contains(t.chunks, q);
        let sel = rows_where(t.chunks, q);
        assert(sel.contains(c));
        let m = choose|m: int| 0 <= m < sel.len() && sel[m] == c;
        assert(code_chunk_rows(t, ns, p.signature)[m] == (CodeChunkDetail {
            key: new.key@,
            document_id: doc,
            text: p.texts[i],
            embedding: p.embeddings[i],
            line_start: Some((p.ranges[i]->0).0),
            line_end: Some((p.ranges[i]->0).1),
        }));
    }
}

/// Law: the chunks of a committed document are stored under its id, one for each text and no more, with the
/// embedding and the lines of that text, and no two have the same id.
pub proof fn law_commit_stores_chunks(
    s: State,
    ns: Seq<char>,
    new: NewDoc,
    p: Parts,
    id: Seq<char>,
    now: u64,
)
    ensures
        ({
            let doc = doc_upserted(s.docs, ns, new, id, now).document_id;
            let stored = rows_where(committed(s, ns, new, p, id, now).chunks, chunk_of(ns, doc));
            &&& stored.len() == p.texts.len()
            &&& forall|i: int|
                0 <= i < p.texts.len() ==> {
                    &&& (#[trigger] stored[i]).namespace == ns
                    &&& stored[i].document_id == doc
                    &&& stored[i].text == p.texts[i]
                    &&& stored[i].embedding == p.embeddings[i]
                    &&& stored[i].signature == p.signature
                    &&& stored[i].created_at == now
                    &&& match p.ranges[i] {
                        Some((first, last)) => stored[i].line_start == Some(first) && stored[i].line_end == Some(
                            last,
                        ),
                        None => stored[i].line_start is None && stored[i].line_end is None,
                    }
                }
            &&& forall|i: int, j: int|
                0 <= i < j < p.texts.len() ==> (#[trigger] stored[i]).chunk_id != (#[trigger] stored[j]).chunk_id
        }),
{
    let doc = doc_upserted(s.docs, ns, new, id, now).document_id;
    law_commit_replaces_chunks(s, ns, new, p, id, now);
    let stored = chunks_stored(ns, doc, p, p.texts.len() as int, now);
    assert forall|i: int, j: int| 0 <= i < j < p.texts.len() implies (#[trigger] stored[i]).chunk_id != (
    #[trigger] stored[j]).chunk_id by {
        let a = stored[i].chunk_id;
        let b = stored[j].chunk_id;
        let n = (doc + "#"@).len() as int;
        law_decimal_round_trip(i as nat);
        law_decimal_round_trip(j as nat);
        assert(a.skip(n) =~= decimal(i as nat));
        assert(b.skip(n) =~= decimal(j as nat));
    }
}

} // verus!
