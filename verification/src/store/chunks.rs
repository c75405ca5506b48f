//! The embedded chunks of documents.

use super::docs::{chunk_of, doc_has_id, mention_of};
use super::{chunk_key, copy_embedding, mention_key, Chunk, Mention, State, Store, StoredChunk, StoredMention};
use crate::table::{
    any_row, except, find, first_row, is_order, law_sorted_rows, lemma_distinct_push,
    lemma_distinct_rewritten, lemma_distinct_where, lemma_rows_push, lemma_rows_where_contains, remove_where,
    rewrite, rewritten, rows, rows_where, select, sort, sorted_rows,
};
use crate::text::{
    lemma_text_less_irreflexive, lemma_text_less_total, lemma_text_less_transitive, less, same, text_less,
    texts,
};
use vstd::prelude::*;

verus! {

/// One chunk of a document with the entities it mentions.
#[derive(Debug, Clone)]
pub struct ChunkRow {
    pub chunk_id: String,
    pub text: String,
    pub embedding: Vec<u32>,
    pub entities: Vec<String>,
    pub line_start: Option<u64>,
    pub line_end: Option<u64>,
}

/// What a chunk with its entities holds.
#[verifier::ext_equal]
pub struct ChunkDetail {
    pub chunk_id: Seq<char>,
    pub text: Seq<char>,
    pub embedding: Seq<u32>,
    pub entities: Seq<Seq<char>>,
    pub line_start: Option<u64>,
    pub line_end: Option<u64>,
}

impl View for ChunkRow {
    type V = ChunkDetail;

    open spec fn view(&self) -> ChunkDetail {
        ChunkDetail {
            chunk_id: self.chunk_id@,
            text: self.text@,
            embedding: self.embedding@,
            entities: texts(self.entities@),
            line_start: self.line_start,
            line_end: self.line_end,
        }
    }
}

/// A chunk of code together with the key (the file path) of its document.
#[derive(Debug, Clone)]
pub struct CodeChunkRow {
    pub key: String,
    pub document_id: String,
    pub text: String,
    pub embedding: Vec<u32>,
    pub line_start: Option<u64>,
    pub line_end: Option<u64>,
}

/// What a chunk of code holds.
#[verifier::ext_equal]
pub struct CodeChunkDetail {
    pub key: Seq<char>,
    pub document_id: Seq<char>,
    pub text: Seq<char>,
    pub embedding: Seq<u32>,
    pub line_start: Option<u64>,
    pub line_end: Option<u64>,
}

impl View for CodeChunkRow {
    type V = CodeChunkDetail;

    open spec fn view(&self) -> CodeChunkDetail {
        CodeChunkDetail {
            key: self.key@,
            document_id: self.document_id@,
            text: self.text@,
            embedding: self.embedding@,
            line_start: self.line_start,
            line_end: self.line_end,
        }
    }
}

pub open spec fn chunk_is(ns: Seq<char>, chunk_id: Seq<char>) -> spec_fn(Chunk) -> bool {
    |c: Chunk| c.namespace == ns && c.chunk_id == chunk_id
}

/// The chunks of a namespace that one model has embedded.
pub open spec fn chunk_signed(ns: Seq<char>, signature: Seq<char>) -> spec_fn(Chunk) -> bool {
    |c: Chunk| c.namespace == ns && c.signature == signature
}

/// A chunk with new contents; it keeps its line range.
pub open spec fn chunk_updated(
    document_id: Seq<char>,
    text: Seq<char>,
    embedding: Seq<u32>,
    signature: Seq<char>,
    now: u64,
) -> spec_fn(Chunk) -> Chunk {
    |c: Chunk|
        Chunk { document_id, text, embedding, signature, created_at: now, ..c }
}

/// Chunk ids in the order of their text.
pub open spec fn chunk_id_less() -> spec_fn(Chunk, Chunk) -> bool {
    |a: Chunk, b: Chunk| text_less(a.chunk_id, b.chunk_id)
}

pub open spec fn mention_in_chunk(
    ns: Seq<char>,
    document_id: Seq<char>,
    chunk_id: Seq<char>,
) -> spec_fn(Mention) -> bool {
    |m: Mention| m.namespace == ns && m.document_id == document_id && m.chunk_id == chunk_id
}

/// The entities that a chunk of a document mentions.
pub open spec fn chunk_entities(
    s: State,
    ns: Seq<char>,
    document_id: Seq<char>,
    chunk_id: Seq<char>,
) -> Seq<Seq<char>> {
    rows_where(s.mentions, mention_in_chunk(ns, document_id, chunk_id)).map_values(
        |m: Mention| m.entity_id,
    )
}

/// The chunks of a document with their entities, in the order of their ids.
pub open spec fn doc_chunks(s: State, ns: Seq<char>, document_id: Seq<char>) -> Seq<ChunkDetail> {
    sorted_rows(rows_where(s.chunks, chunk_of(ns, document_id)), chunk_id_less()).map_values(
        |c: Chunk|
            ChunkDetail {
                chunk_id: c.chunk_id,
                text: c.text,
                embedding: c.embedding,
                entities: chunk_entities(s, ns, document_id, c.chunk_id),
                line_start: c.line_start,
                line_end: c.line_end,
            },
    )
}

/// Whether a chunk is code of a stored document: it has a line range, which prose has not.
pub open spec fn is_code_chunk(s: State, ns: Seq<char>, signature: Seq<char>) -> spec_fn(Chunk) -> bool {
    |c: Chunk|
        chunk_signed(ns, signature)(c) && c.line_start is Some && first_row(
            s.docs,
            doc_has_id(ns, c.document_id),
        ) is Some
}

/// The chunks of code of a namespace, each with the key of its document.
pub open spec fn code_chunk_rows(s: State, ns: Seq<char>, signature: Seq<char>) -> Seq<CodeChunkDetail> {
    rows_where(s.chunks, is_code_chunk(s, ns, signature)).map_values(
        |c: Chunk|
            CodeChunkDetail {
                key: first_row(s.docs, doc_has_id(ns, c.document_id))->0.key,
                document_id: c.document_id,
                text: c.text,
                embedding: c.embedding,
                line_start: c.line_start,
                line_end: c.line_end,
            },
    )
}

impl Store {
    /// Stores one embedded chunk, or gives the one with its id new contents.
    pub fn upsert_chunk(
        &mut self,
        namespace: &str,
        document_id: &str,
        chunk_id: &str,
        text: &str,
        embedding: &Vec<u32>,
        signature: &str,
        now: u64,
    )
        requires
            old(self)@.wf(),
        ensures
            final(self)@.wf(),
            final(self)@ == (State {
                chunks: if any_row(old(self)@.chunks, chunk_is(namespace@, chunk_id@)) {
                    rewritten(
                        old(self)@.chunks,
                        chunk_is(namespace@, chunk_id@),
                        chunk_updated(document_id@, text@, embedding@, signature@, now),
                    )
                } else {
                    old(self)@.chunks.push(
                        Chunk {
                            namespace: namespace@,
                            document_id: document_id@,
                            chunk_id: chunk_id@,
                            text: text@,
                            embedding: embedding@,
                            signature: signature@,
                            created_at: now,
                            line_start: None,
                            line_end: None,
                        },
                    )
                },
                ..old(self)@
            }),
    {
        let ghost before = self@;
        let ghost q = chunk_is(namespace@, chunk_id@);
        let ghost f = chunk_updated(document_id@, text@, embedding@, signature@, now);
        let at = find(
            &self.chunks,
            |c: &StoredChunk| -> (b: bool)
                ensures
                    b == (c@.namespace == namespace@ && c@.chunk_id == chunk_id@)
            { same(c.namespace.as_str(), namespace) && same(c.chunk_id.as_str(), chunk_id) },
            Ghost(q),
        );
        if at.is_some() {
            proof {
                assert(q(before.chunks[at->0 as int]));
                lemma_distinct_rewritten(before.chunks, q, f, chunk_key());
            }
            rewrite(
                &mut self.chunks,
                |c: &StoredChunk| -> (b: bool)
                    ensures
                        b == (c@.namespace == namespace@ && c@.chunk_id == chunk_id@)
                { same(c.namespace.as_str(), namespace) && same(c.chunk_id.as_str(), chunk_id) },
                |c: &StoredChunk| -> (r: StoredChunk)
                    ensures
                        r@ == chunk_updated(document_id@, text@, embedding@, signature@, now)(c@)
                {
                    StoredChunk {
                        namespace: c.namespace.clone(),
                        document_id: document_id.to_owned(),
                        chunk_id: c.chunk_id.clone(),
                        text: text.to_owned(),
                        embedding: copy_embedding(embedding),
                        signature: signature.to_owned(),
                        created_at: now,
                        line_start: c.line_start,
                        line_end: c.line_end,
                    }
                },
                Ghost(q),
                Ghost(f),
            );
        } else {
            let row = StoredChunk {
                namespace: namespace.to_owned(),
                document_id: document_id.to_owned(),
                chunk_id: chunk_id.to_owned(),
                text: text.to_owned(),
                embedding: copy_embedding(embedding),
                signature: signature.to_owned(),
                created_at: now,
                line_start: None,
                line_end: None,
            };
            let ghost v0 = self.chunks@;
            self.chunks.push(row);
            proof {
                lemma_rows_push(v0, row);
                assert forall|i: int| 0 <= i < before.chunks.len() implies chunk_key()(
                    #[trigger] before.chunks[i],
                ) != chunk_key()(row@) by {
                    assert(!q(before.chunks[i]));
                }
                lemma_distinct_push(before.chunks, row@, chunk_key());
            }
        }
    }

    /// Removes the chunks of a document together with their mentions.
    pub fn delete_chunks_for_doc(&mut self, namespace: &str, document_id: &str)
        requires
            old(self)@.wf(),
        ensures
            final(self)@.wf(),
            final(self)@ == (State {
                chunks: rows_where(old(self)@.chunks, except(chunk_of(namespace@, document_id@))),
                mentions: rows_where(
                    old(self)@.mentions,
                    except(mention_of(namespace@, document_id@)),
                ),
                ..old(self)@
            }),
    {
        let ghost before = self@;
        remove_where(
            &mut self.chunks,
            |c: &StoredChunk| -> (b: bool)
                ensures
                    b == (c@.namespace == namespace@ && c@.document_id == document_id@)
            { same(c.namespace.as_str(), namespace) && same(c.document_id.as_str(), document_id) },
            Ghost(chunk_of(namespace@, document_id@)),
        );
        remove_where(
            &mut self.mentions,
            |m: &StoredMention| -> (b: bool)
                ensures
                    b == (m@.namespace == namespace@ && m@.document_id == document_id@)
            { same(m.namespace.as_str(), namespace) && same(m.document_id.as_str(), document_id) },
            Ghost(mention_of(namespace@, document_id@)),
        );
        proof {
            lemma_distinct_where(
                before.chunks,
                except(chunk_of(namespace@, document_id@)),
                chunk_key(),
            );
            lemma_distinct_where(
                before.mentions,
                except(mention_of(namespace@, document_id@)),
                mention_key(),
            );
        }
    }

    /// The chunks of a namespace that the model with this signature has embedded: document id,
    /// text and embedding.
    pub fn chunks_for_namespace(&self, namespace: &str, signature: &str) -> (r: Vec<
        (String, String, Vec<u32>),
    >)
        ensures
            ({
                let sel = rows_where(self@.chunks, chunk_signed(namespace@, signature@));
                &&& r@.len() == sel.len()
                &&& forall|i: int|
                    0 <= i < sel.len() ==> (#[trigger] r@[i]).0@ == sel[i].document_id && r@[i].1@
                        == sel[i].text && r@[i].2@ == sel[i].embedding
            }),
    {
        let sel = select(
            &self.chunks,
            |c: &StoredChunk| -> (b: bool)
                ensures
                    b == (c@.namespace == namespace@ && c@.signature == signature@)
            { same(c.namespace.as_str(), namespace) && same(c.signature.as_str(), signature) },
            Ghost(chunk_signed(namespace@, signature@)),
        );
        let mut out: Vec<(String, String, Vec<u32>)> = Vec::new();
        for i in 0..sel.len()
            invariant
                out@.len() == i,
                forall|j: int|
                    0 <= j < i ==> (#[trigger] out@[j]).0@ == rows(sel@)[j].document_id
                        && out@[j].1@ == rows(sel@)[j].text && out@[j].2@ == rows(
                        sel@,
                    )[j].embedding,
        {
            out.push(
                (
                    sel[i].document_id.clone(),
                    sel[i].text.clone(),
                    copy_embedding(&sel[i].embedding),
                ),
            );
        }
        out
    }

    /// The chunks of code of a namespace that the model with this signature has embedded, each
    /// with the key of its document. Prose has no line range and is left out.
    pub fn code_chunks_for_namespace(&self, namespace: &str, signature: &str) -> (r: Vec<
        CodeChunkRow,
    >)
        ensures
            rows(r@) == code_chunk_rows(self@, namespace@, signature@),
    {
        let ghost q = is_code_chunk(self@, namespace@, signature@);
        let ghost all = self@.chunks;
        let ghost f = |c: Chunk|
            CodeChunkDetail {
                key: first_row(self@.docs, doc_has_id(namespace@, c.document_id))->0.key,
                document_id: c.document_id,
                text: c.text,
                embedding: c.embedding,
                line_start: c.line_start,
                line_end: c.line_end,
            };
        let mut out: Vec<CodeChunkRow> = Vec::new();
        assert(all.take(0) =~= Seq::<Chunk>::empty());
        assert(rows(out@) =~= rows_where(all.take(0), q).map_values(f));
        for i in 0..self.chunks.len()
            invariant
                all == rows(self.chunks@),
                all == self@.chunks,
                q == is_code_chunk(self@, namespace@, signature@),
                f == (|c: Chunk|
                    CodeChunkDetail {
                        key: first_row(self@.docs, doc_has_id(namespace@, c.document_id))->0.key,
                        document_id: c.document_id,
                        text: c.text,
                        embedding: c.embedding,
                        line_start: c.line_start,
                        line_end: c.line_end,
                    }),
                rows(out@) == rows_where(all.take(i as int), q).map_values(f),
        {
            proof {
                assert(all.take(i + 1).drop_last() =~= all.take(i as int));
                assert(all.take(i + 1).last() == self.chunks@[i as int]@);
            }
            let c = &self.chunks[i];
            if same(c.namespace.as_str(), namespace) && same(c.signature.as_str(), signature)
                && c.line_start.is_some() {
                match self.get_doc(namespace, c.document_id.as_str()) {
                    Some(d) => {
                        let ghost out0 = out@;
                        let row = CodeChunkRow {
                            key: d.key,
                            document_id: c.document_id.clone(),
                            text: c.text.clone(),
                            embedding: copy_embedding(&c.embedding),
                            line_start: c.line_start,
                            line_end: c.line_end,
                        };
                        out.push(row);
                        proof {
                            lemma_rows_push(out0, row);
                            assert(row@ == f(c@));
                            assert(rows(out@) =~= rows_where(all.take(i + 1), q).map_values(f));
                        }
                    },
                    None => {},
                }
            }
        }
        assert(all.take(all.len() as int) =~= all);
        assert(rows(out@) =~= code_chunk_rows(self@, namespace@, signature@));
        out
    }

    /// The entities that a chunk of a document mentions.
    fn entities_of_chunk(&self, namespace: &str, document_id: &str, chunk_id: &str) -> (r: Vec<
        String,
    >)
        ensures
            texts(r@) == chunk_entities(self@, namespace@, document_id@, chunk_id@),
    {
        let sel = select(
            &self.mentions,
            |m: &StoredMention| -> (b: bool)
                ensures
                    b == (m@.namespace == namespace@ && m@.document_id == document_id@
                        && m@.chunk_id == chunk_id@)
            {
                same(m.namespace.as_str(), namespace) && same(
                    m.document_id.as_str(),
                    document_id,
                ) && same(m.chunk_id.as_str(), chunk_id)
            },
            Ghost(mention_in_chunk(namespace@, document_id@, chunk_id@)),
        );
        let mut out: Vec<String> = Vec::new();
        for i in 0..sel.len()
            invariant
                out@.len() == i,
                forall|j: int| 0 <= j < i ==> (#[trigger] out@[j])@ == rows(sel@)[j].entity_id,
        {
            out.push(sel[i].entity_id.clone());
        }
        assert(texts(out@) =~= chunk_entities(self@, namespace@, document_id@, chunk_id@));
        out
    }

    /// The chunks of a document with their entities, in the order of their ids.
    pub fn chunks_for_doc(&self, namespace: &str, document_id: &str) -> (r: Vec<ChunkRow>)
        ensures
            rows(r@) == doc_chunks(self@, namespace@, document_id@),
    {
        let mut sel = select(
            &self.chunks,
            |c: &StoredChunk| -> (b: bool)
                ensures
                    b == (c@.namespace == namespace@ && c@.document_id == document_id@)
            { same(c.namespace.as_str(), namespace) && same(c.document_id.as_str(), document_id) },
            Ghost(chunk_of(namespace@, document_id@)),
        );
        sort(
            &mut sel,
            |a: &StoredChunk, b: &StoredChunk| -> (r: bool)
                ensures
                    r == text_less(a@.chunk_id, b@.chunk_id)
            { less(a.chunk_id.as_str(), b.chunk_id.as_str()) },
            Ghost(chunk_id_less()),
        );
        let mut out: Vec<ChunkRow> = Vec::new();
        for i in 0..sel.len()
            invariant
                rows(sel@) == sorted_rows(
                    rows_where(self@.chunks, chunk_of(namespace@, document_id@)),
                    chunk_id_less(),
                ),
                out@.len() == i,
                forall|j: int|
                    0 <= j < i ==> (#[trigger] out@[j])@ == doc_chunks(
                        self@,
                        namespace@,
                        document_id@,
                    )[j],
        {
            let entities = self.entities_of_chunk(namespace, document_id, sel[i].chunk_id.as_str());
            let row = ChunkRow {
                chunk_id: sel[i].chunk_id.clone(),
                text: sel[i].text.clone(),
                embedding: copy_embedding(&sel[i].embedding),
                entities,
                line_start: sel[i].line_start,
                line_end: sel[i].line_end,
            };
            assert(rows(sel@)[i as int] == sel@[i as int]@);
            assert(row@ =~= doc_chunks(self@, namespace@, document_id@)[i as int]);
            out.push(row);
        }
        assert(rows(out@) =~= doc_chunks(self@, namespace@, document_id@));
        out
    }
}

// ---------------------------------------------------------------------------------------------
// Laws.
// ---------------------------------------------------------------------------------------------

/// Law: chunks that another model has embedded, or that lie in another namespace, are never read: a
/// search sees the same chunks with and without one.
pub proof fn law_foreign_chunks_unseen(s: State, ns: Seq<char>, signature: Seq<char>, c: Chunk)
    requires
        c.signature != signature || c.namespace != ns,
    ensures
        ({
            let t = State { chunks: s.chunks.push(c), ..s };
            &&& rows_where(t.chunks, chunk_signed(ns, signature)) == rows_where(
                s.chunks,
                chunk_signed(ns, signature),
            )
            &&& code_chunk_rows(t, ns, signature) == code_chunk_rows(s, ns, signature)
        }),
{
    let t = State { chunks: s.chunks.push(c), ..s };
    assert(t.chunks.drop_last() =~= s.chunks);
    assert(is_code_chunk(t, ns, signature) =~= is_code_chunk(s, ns, signature));
    assert(code_chunk_rows(t, ns, signature) =~= code_chunk_rows(s, ns, signature));
}

/// Law: the chunks of a document are all that were stored under its id and no others, each with what was
/// stored of it and the entities that it mentions, in the order of their ids.
pub proof fn law_doc_chunks(s: State, ns: Seq<char>, document_id: Seq<char>)
    ensures
        ({
            let all = doc_chunks(s, ns, document_id);
            &&& forall|d: ChunkDetail| #[trigger]
                all.contains(d) ==> exists|k: int|
                    0 <= k < s.chunks.len() && (#[trigger] s.chunks[k]).namespace == ns && s.chunks[k].document_id
                        == document_id && stored_as(d, s.chunks[k])
            &&& forall|k: int|
                0 <= k < s.chunks.len() && (#[trigger] s.chunks[k]).namespace == ns && s.chunks[k].document_id
                    == document_id ==> exists|i: int|
                    0 <= i < all.len() && stored_as(#[trigger] all[i], s.chunks[k])
            &&& forall|i: int, j: int|
                0 <= i < j < all.len() ==> !text_less(
                    (#[trigger] all[j]).chunk_id,
                    (#[trigger] all[i]).chunk_id,
                )
            &&& forall|i: int, e: Seq<char>|
                0 <= i < all.len() ==> (#[trigger] all[i].entities.contains(e) <==> exists|m: int|
                    0 <= m < s.mentions.len() && (#[trigger] s.mentions[m]).namespace == ns
                        && s.mentions[m].document_id == document_id && s.mentions[m].chunk_id == all[i].chunk_id
                        && s.mentions[m].entity_id == e)
        }),
{
    broadcast use vstd::seq_lib::group_to_multiset_ensures;

    let q = chunk_of(ns, document_id);
    let sel = rows_where(s.chunks, q);
    let sorted = sorted_rows(sel, chunk_id_less());
    let all = doc_chunks(s, ns, document_id);
    lemma_rows_where_contains(s.chunks, q);
    lemma_chunk_order();
    law_sorted_rows(sel, chunk_id_less());
    assert forall|d: ChunkDetail| #[trigger] all.contains(d) implies exists|k: int|
        0 <= k < s.chunks.len() && (#[trigger] s.chunks[k]).namespace == ns && s.chunks[k].document_id
            == document_id && stored_as(d, s.chunks[k]) by {
        let i = choose|i: int| 0 <= i < all.len() && all[i] == d;
        let c = sorted[i];
        assert(sorted.to_multiset().count(c) > 0);
        assert(sel.contains(c));
        let k = choose|k: int| 0 <= k < s.chunks.len() && s.chunks[k] == c;
        assert(stored_as(d, s.chunks[k]));
    }
    assert forall|k: int|
        0 <= k < s.chunks.len() && (#[trigger] s.chunks[k]).namespace == ns && s.chunks[k].document_id
            == document_id implies exists|i: int|
        0 <= i < all.len() && stored_as(#[trigger] all[i], s.chunks[k]) by {
        let c = s.chunks[k];
        assert(sel.contains(c));
        assert(sel.to_multiset().count(c) > 0);
        assert(sorted.contains(c));
        let i = choose|i: int| 0 <= i < sorted.len() && sorted[i] == c;
        assert(stored_as(all[i], c));
    }
    assert forall|i: int, j: int| 0 <= i < j < all.len() implies !text_less(
        (#[trigger] all[j]).chunk_id,
        (#[trigger] all[i]).chunk_id,
    ) by {
        assert(!chunk_id_less()(sorted[j], sorted[i]));
    }
    assert forall|i: int, e: Seq<char>| 0 <= i < all.len() implies (#[trigger] all[i].entities.contains(e)
        <==> exists|m: int|
        0 <= m < s.mentions.len() && (#[trigger] s.mentions[m]).namespace == ns && s.mentions[m].document_id
            == document_id && s.mentions[m].chunk_id == all[i].chunk_id && s.mentions[m].entity_id == e) by {
        let w = mention_in_chunk(ns, document_id, all[i].chunk_id);
        let hits = rows_where(s.mentions, w);
        lemma_rows_where_contains(s.mentions, w);
        let es = all[i].entities;
        assert(es.len() == hits.len());
        if es.contains(e) {
            let k = choose|k: int| 0 <= k < es.len() && es[k] == e;
            assert(hits[k].entity_id == e);
            assert(hits.contains(hits[k]));
            let m = choose|m: int| 0 <= m < s.mentions.len() && s.mentions[m] == hits[k];
            assert(s.mentions[m].entity_id == e);
        }
        if exists|m: int|
            0 <= m < s.mentions.len() && (#[trigger] s.mentions[m]).namespace == ns && s.mentions[m].document_id
                == document_id && s.mentions[m].chunk_id == all[i].chunk_id && s.mentions[m].entity_id == e {
            let m = choose|m: int|
                0 <= m < s.mentions.len() && (#[trigger] s.mentions[m]).namespace == ns
                    && s.mentions[m].document_id == document_id && s.mentions[m].chunk_id == all[i].chunk_id
                    && s.mentions[m].entity_id == e;
            assert(hits.contains(s.mentions[m]));
            let k = choose|k: int| 0 <= k < hits.len() && hits[k] == s.mentions[m];
            assert(es[k] == e);
        }
    }
}

/// Whether what is told of a chunk is what was stored of it.
pub open spec fn stored_as(d: ChunkDetail, c: Chunk) -> bool {
    d.chunk_id == c.chunk_id && d.text == c.text && d.embedding == c.embedding && d.line_start == c.line_start
        && d.line_end == c.line_end
}

proof fn lemma_chunk_order()
    ensures
        is_order(chunk_id_less()),
{
    let f = chunk_id_less();
    assert forall|a: Chunk| !#[trigger] f(a, a) by {
        lemma_text_less_irreflexive(a.chunk_id);
    }
    assert forall|a: Chunk, b: Chunk, c: Chunk| #[trigger] f(a, b) && #[trigger] f(b, c) implies f(a, c) by {
        lemma_text_less_transitive(a.chunk_id, b.chunk_id, c.chunk_id);
    }
    assert forall|a: Chunk, b: Chunk, c: Chunk| !#[trigger] f(a, b) && !#[trigger] f(b, c) implies !f(a, c) by {
        lemma_text_less_total(a.chunk_id, b.chunk_id);
        lemma_text_less_total(b.chunk_id, c.chunk_id);
        if f(a, c) {
            if f(b, a) {
                lemma_text_less_transitive(b.chunk_id, a.chunk_id, c.chunk_id);
            }
        }
    }
}

} // verus!
