//! Search over documents and over code, and recall by freshness.

use super::rank::{
    is_above, law_ranking, law_ranking_keeps_the_best, place, rank_documents, ranking, ranks_before,
    scored_at, weights, weights_for, LOWEST, Rank, Score,
};
use super::signals::{count_graph, counts_match, law_most_mentions, most_mentions};
use super::terms::{keyword_hits, law_terms_found, terms_found};
use super::{cosine_gives, Scorer, TextSignals};
use crate::embed::{embed_gives, signature_gives, Embedder};
use crate::ingest::{extract_entities, prose_entities};
use crate::model::{Doc, Error, MemoryDoc};
use crate::store::chunks::chunk_signed;
use crate::store::docs::{doc_has_id, doc_in, newer};
use crate::store::entities::mention_count;
use crate::store::{Chunk, State, Store};
use crate::table::{
    first_row, first_rows, in_order, is_order, law_sorted_rows, lemma_first_row, lemma_rows_push,
    lemma_rows_where_contains, lemma_sorted_already, limit, rows, rows_where, sort, sorted_rows, Row,
};
use crate::text::{contains_text, lemma_texts_push, lowercase, texts, words_text};
use vstd::prelude::*;

verus! {

// ---------------------------------------------------------------------------------------------
// Search over documents.
// ---------------------------------------------------------------------------------------------

/// A document with its score and the score's parts, as the bits of floats.
#[derive(Debug, Clone)]
pub struct Hit {
    pub doc: MemoryDoc,
    pub score: u64,
    pub vector: u64,
    pub keyword: u64,
    pub graph: u64,
}

/// What a scored document holds.
#[verifier::ext_equal]
pub struct DocHit {
    pub doc: Doc,
    pub score: Score,
}

impl View for Hit {
    type V = DocHit;

    open spec fn view(&self) -> DocHit {
        DocHit {
            doc: self.doc@,
            score: Score {
                score: self.score,
                vector: self.vector,
                keyword: self.keyword,
                graph: self.graph,
            },
        }
    }
}

/// The ranked documents that are stored.
pub open spec fn stored_hits(s: State, ns: Seq<char>, ranks: Seq<Rank>) -> Seq<DocHit>
    decreases ranks.len(),
{
    if ranks.len() == 0 {
        Seq::empty()
    } else {
        let before = stored_hits(s, ns, ranks.drop_last());
        match first_row(s.docs, doc_has_id(ns, ranks.last().document_id)) {
            Some(d) => before.push(DocHit { doc: d, score: ranks.last().score }),
            None => before,
        }
    }
}

/// The documents of scored chunks: the `max` best by their best chunk, best first. The chunk at
/// each place belongs to the document that `docs` names there.
pub fn query_hits(store: &Store, namespace: &str, docs: &Vec<String>, scores: &Vec<Score>, max: usize) -> (r: Vec<
    Hit,
>)
    requires
        docs@.len() == scores@.len(),
    ensures
        rows(r@) == stored_hits(store@, namespace@, ranking(texts(docs@), scores@, max as int)),
{
    let ranked = rank_documents(docs, scores, max);
    let ghost all = rows(ranked@);
    let mut out: Vec<Hit> = Vec::new();
    assert(all.take(0) =~= Seq::<Rank>::empty());
    assert(rows(out@) =~= Seq::<DocHit>::empty());
    for i in 0..ranked.len()
        invariant
            all == rows(ranked@),
            rows(out@) == stored_hits(store@, namespace@, all.take(i as int)),
    {
        proof {
            assert(all.take(i + 1).drop_last() =~= all.take(i as int));
            assert(all.take(i + 1).last() == all[i as int]);
        }
        match store.get_doc(namespace, ranked[i].document_id.as_str()) {
            Some(doc) => {
                let s = ranked[i].score;
                let ghost out0 = out@;
                let hit = Hit {
                    doc,
                    score: s.score,
                    vector: s.vector,
                    keyword: s.keyword,
                    graph: s.graph,
                };
                out.push(hit);
                proof {
                    lemma_rows_push(out0, hit);
                }
            },
            None => {},
        }
    }
    assert(all.take(all.len() as int) =~= all);
    out
}

/// What a chunk of text has in common with a query.
pub open spec fn text_signals(s: State, ns: Seq<char>, query: Seq<char>, c: Chunk) -> TextSignals {
    let entities = prose_entities(query);
    TextSignals {
        hits: terms_found(words_text(lowercase(query)), lowercase(c.text)) as usize,
        terms: words_text(lowercase(query)).len() as usize,
        graph: mention_count(s, ns, c.document_id, entities) as usize,
        max_graph: most_mentions(s, ns, entities) as usize,
        weights: weights_for(most_mentions(s, ns, entities)),
    }
}

/// Whether a scorer may give a chunk of text this score for a query.
pub open spec fn text_scored<S: Scorer>(
    scorer: &S,
    query: Vec<u32>,
    embedding: Seq<u32>,
    signals: TextSignals,
    score: Score,
) -> bool {
    exists|v: u64|
        cosine_gives(scorer, query, embedding, v) && #[trigger] call_ensures(
            S::text_score,
            (scorer, v, signals),
            score,
        )
}

/// The answer to an embedded query, given the scores of the chunks.
pub open spec fn query_answer<S: Scorer>(
    scorer: &S,
    s: State,
    ns: Seq<char>,
    text: Seq<char>,
    signature: Seq<char>,
    query: Vec<u32>,
    scores: Seq<Score>,
    max: int,
    hits: Seq<DocHit>,
) -> bool {
    let chunks = rows_where(s.chunks, chunk_signed(ns, signature));
    &&& scores.len() == chunks.len()
    &&& forall|i: int|
        0 <= i < chunks.len() ==> text_scored(
            scorer,
            query,
            chunks[i].embedding,
            text_signals(s, ns, text, chunks[i]),
            #[trigger] scores[i],
        )
    &&& hits == stored_hits(
        s,
        ns,
        ranking(chunks.map_values(|c: Chunk| c.document_id), scores, max),
    )
}

/// The result of a search whose query was embedded with this outcome.
pub open spec fn query_result<S: Scorer>(
    scorer: &S,
    s: State,
    ns: Seq<char>,
    text: Seq<char>,
    signature: Seq<char>,
    query: Result<Vec<u32>, Error>,
    max: int,
    r: Result<Vec<Hit>, Error>,
) -> bool {
    match query {
        Err(e) => r == Err::<Vec<Hit>, Error>(e),
        Ok(q) => r is Ok && exists|scores: Seq<Score>| #[trigger]
            query_answer(scorer, s, ns, text, signature, q, scores, max, rows(r->Ok_0@)),
    }
}

/// Hybrid search over the documents of a namespace: the chunks that the embedder's model has
/// embedded are scored by similarity, by the words of the query they contain and by the entities
/// of the query their documents mention; a document counts by its best chunk.
pub fn query<E: Embedder, S: Scorer>(
    store: &Store,
    embedder: &E,
    scorer: &S,
    namespace: &str,
    query_text: &str,
    limit: usize,
) -> (r: Result<Vec<Hit>, Error>)
    ensures
        exists|q: Result<Vec<u32>, Error>, signature: String| #[trigger]
            embed_gives(embedder, query_text, q) && #[trigger] signature_gives(embedder, signature)
                && query_result(
                scorer,
                store@,
                namespace@,
                query_text@,
                signature@,
                q,
                limit as int,
                r,
            ),
{
    let embedded = embedder.embed(query_text);
    let ghost outcome = embedded;
    assert(embed_gives(embedder, query_text, outcome));
    let signature = embedder.signature();
    assert(signature_gives(embedder, signature));
    match embedded {
        Err(e) => Err(e),
        Ok(q) => {
            let candidates = store.chunks_for_namespace(namespace, signature.as_str());
            let entities = extract_entities(query_text);
            let graph = count_graph(store, namespace, &entities);
            let w = weights(graph.highest);
            let ghost s = store@;
            let ghost ns = namespace@;
            let ghost ents = prose_entities(query_text@);
            let ghost chunks = rows_where(s.chunks, chunk_signed(ns, signature@));
            let ghost ids = chunks.map_values(|c: Chunk| c.document_id);
            let mut docs: Vec<String> = Vec::new();
            let mut scores: Vec<Score> = Vec::new();
            assert(texts(docs@) =~= ids.take(0));
            for i in 0..candidates.len()
                invariant
                    s == store@,
                    ns == namespace@,
                    ents == prose_entities(query_text@),
                    ents == texts(entities@),
                    counts_match(graph, s, ns, ents),
                    w == weights_for(graph.highest as nat),
                    chunks == rows_where(s.chunks, chunk_signed(ns, signature@)),
                    ids == chunks.map_values(|c: Chunk| c.document_id),
                    candidates@.len() == chunks.len(),
                    forall|i: int|
                        0 <= i < chunks.len() ==> (#[trigger] candidates@[i]).0@
                            == chunks[i].document_id && candidates@[i].1@ == chunks[i].text
                            && candidates@[i].2@ == chunks[i].embedding,
                    texts(docs@) == ids.take(i as int),
                    scores@.len() == i,
                    forall|k: int|
                        0 <= k < i ==> text_scored(
                            scorer,
                            q,
                            chunks[k].embedding,
                            text_signals(s, ns, query_text@, chunks[k]),
                            #[trigger] scores@[k],
                        ),
            {
                let ghost docs0 = docs@;
                let c = &candidates[i];
                assert(c.0@ == chunks[i as int].document_id);
                let v: u64 = scorer.cosine(&q, &c.2);
                let (hits, terms) = keyword_hits(query_text, c.1.as_str());
                let g: usize = graph.count_for(c.0.as_str(), Ghost(s), Ghost(ns), Ghost(ents));
                let signals = TextSignals {
                    hits,
                    terms,
                    graph: g,
                    max_graph: graph.highest,
                    weights: w,
                };
                let score = scorer.text_score(v, signals);
                proof {
                    assert(call_ensures(S::cosine, (scorer, &q, &c.2), v));
                    assert(cosine_gives(scorer, q, chunks[i as int].embedding, v));
                    assert(signals == text_signals(s, ns, query_text@, chunks[i as int]));
                    assert(call_ensures(S::text_score, (scorer, v, signals), score));
                    assert(text_scored(
                        scorer,
                        q,
                        chunks[i as int].embedding,
                        text_signals(s, ns, query_text@, chunks[i as int]),
                        score,
                    ));
                }
                scores.push(score);
                let d = c.0.clone();
                docs.push(d);
                proof {
                    lemma_texts_push(docs0, d);
                    assert(ids.take(i + 1) =~= ids.take(i as int).push(ids[i as int]));
                }
            }
            assert(ids.take(ids.len() as int) =~= ids);
            assert(texts(docs@).len() == docs@.len());
            let r: Result<Vec<Hit>, Error> = Ok(
                query_hits(store, namespace, &docs, &scores, limit),
            );
            assert(query_answer(
                scorer,
                s,
                ns,
                query_text@,
                signature@,
                q,
                scores@,
                limit as int,
                rows(r->Ok_0@),
            ));
            assert(query_result(
                scorer,
                s,
                ns,
                query_text@,
                signature@,
                outcome,
                limit as int,
                r,
            ));
            r
        },
    }
}

// ---------------------------------------------------------------------------------------------
// Recall.
// ---------------------------------------------------------------------------------------------

/// How many documents recall looks at.
pub const RECALL_WINDOW: i64 = 1000;

/// The most recently updated documents of a namespace, most recent first.
pub open spec fn recent_docs(s: State, ns: Seq<char>) -> Seq<Doc> {
    first_rows(sorted_rows(rows_where(s.docs, doc_in(ns)), newer()), RECALL_WINDOW as int)
}

/// Documents with a score that has no parts.
pub open spec fn fresh_hits(docs: Seq<Doc>, scores: Seq<u64>) -> Seq<DocHit> {
    Seq::new(
        docs.len(),
        |i: int|
            DocHit {
                doc: docs[i],
                score: Score { score: scores[i], vector: 0, keyword: 0, graph: 0 },
            },
    )
}

/// Higher scores come first.
pub open spec fn hit_order() -> spec_fn(DocHit, DocHit) -> bool {
    |a: DocHit, b: DocHit| place(a.score.score) > place(b.score.score)
}

/// The `max` freshest documents, given how fresh each is.
pub open spec fn freshest(docs: Seq<Doc>, scores: Seq<u64>, max: int) -> Seq<DocHit> {
    first_rows(sorted_rows(fresh_hits(docs, scores), hit_order()), max)
}

/// Ranks documents by how fresh they are.
pub fn rank_fresh(docs: Vec<MemoryDoc>, scores: &Vec<u64>, max: usize) -> (r: Vec<Hit>)
    requires
        docs@.len() == scores@.len(),
    ensures
        rows(r@) == freshest(rows(docs@), scores@, max as int),
{
    let mut out: Vec<Hit> = Vec::new();
    let ghost all = fresh_hits(rows(docs@), scores@);
    assert(rows(out@) =~= all.take(0));
    for i in 0..docs.len()
        invariant
            docs@.len() == scores@.len(),
            all == fresh_hits(rows(docs@), scores@),
            rows(out@) == all.take(i as int),
    {
        let ghost out0 = out@;
        let hit = Hit {
            doc: docs[i].copy(),
            score: scores[i],
            vector: 0,
            keyword: 0,
            graph: 0,
        };
        out.push(hit);
        proof {
            lemma_rows_push(out0, hit);
            assert(hit@ == all[i as int]);
            assert(all.take(i + 1) =~= all.take(i as int).push(all[i as int]));
        }
    }
    assert(all.take(all.len() as int) =~= all);
    sort(
        &mut out,
        |a: &Hit, b: &Hit| -> (r: bool)
            ensures
                r == (place(a@.score.score) > place(b@.score.score))
        { ranks_before(a.score, b.score) },
        Ghost(hit_order()),
    );
    limit(&mut out, max);
    out
}

/// The answer of recall, given how fresh each document is.
pub open spec fn recall_answer<S: Scorer>(
    scorer: &S,
    docs: Seq<Doc>,
    now: u64,
    scores: Seq<u64>,
    max: int,
    hits: Seq<DocHit>,
) -> bool {
    &&& scores.len() == docs.len()
    &&& forall|i: int|
        0 <= i < docs.len() ==> call_ensures(
            S::freshness,
            (scorer, docs[i].updated_at, now),
            #[trigger] scores[i],
        )
    &&& hits == freshest(docs, scores, max)
}

/// Recall without a query: the documents of a namespace, freshest first.
pub fn recall<S: Scorer>(store: &Store, scorer: &S, namespace: &str, limit: usize, now: u64) -> (r: Vec<Hit>)
    ensures
        exists|scores: Seq<u64>| #[trigger]
            recall_answer(
                scorer,
                recent_docs(store@, namespace@),
                now,
                scores,
                limit as int,
                rows(r@),
            ),
{
    let docs = store.list_namespace(namespace, RECALL_WINDOW);
    let ghost all = rows(docs@);
    let mut scores: Vec<u64> = Vec::new();
    for i in 0..docs.len()
        invariant
            all == rows(docs@),
            scores@.len() == i,
            forall|k: int|
                0 <= k < i ==> call_ensures(
                    S::freshness,
                    (scorer, all[k].updated_at, now),
                    #[trigger] scores@[k],
                ),
    {
        let at: u64 = docs[i].updated_at;
        assert(at == all[i as int].updated_at);
        let s: u64 = scorer.freshness(at, now);
        scores.push(s);
    }
    assert(all.len() == docs@.len());
    let r = rank_fresh(docs, &scores, limit);
    assert(recall_answer(
        scorer,
        recent_docs(store@, namespace@),
        now,
        scores@,
        limit as int,
        rows(r@),
    ));
    r
}

/// Law: where freshness does not grow with age, recall gives the most recently updated documents,
/// most recent first.
pub proof fn law_recall_most_recent_first(docs: Seq<Doc>, scores: Seq<u64>, max: int)
    requires
        docs.len() == scores.len(),
        forall|i: int, j: int|
            0 <= i < j < scores.len() ==> place(#[trigger] scores[i]) >= place(#[trigger] scores[j]),
    ensures
        freshest(docs, scores, max) == first_rows(fresh_hits(docs, scores), max),
{
    let hits = fresh_hits(docs, scores);
    assert forall|i: int, j: int| 0 <= i < j < hits.len() implies !hit_order()(
        #[trigger] hits[j],
        #[trigger] hits[i],
    ) by {
        assert(place(scores[i]) >= place(scores[j]));
    }
    assert(in_order(hits, hit_order()));
    lemma_sorted_already(hits, hit_order());
}

// ---------------------------------------------------------------------------------------------
// What a search finds.
// ---------------------------------------------------------------------------------------------

/// Law: matching ignores case. Chunks whose texts differ in case only are credited with the same words, with
/// all of them if and only if the text contains each, with none if and only if it contains none. The graph
/// weighs in where some document mentions an entity of the query, and only there.
pub proof fn law_text_matching(s: State, ns: Seq<char>, query: Seq<char>, a: Chunk, b: Chunk)
    requires
        words_text(lowercase(query)).len() <= usize::MAX,
        most_mentions(s, ns, prose_entities(query)) <= usize::MAX,
    ensures
        ({
            let f = text_signals(s, ns, query, a);
            let g = text_signals(s, ns, query, b);
            let words = words_text(lowercase(query));
            &&& lowercase(a.text) == lowercase(b.text) ==> f.hits == g.hits
            &&& f.terms == words.len()
            &&& f.hits <= f.terms
            &&& f.hits == f.terms <==> forall|j: int|
                0 <= j < words.len() ==> contains_text(lowercase(a.text), #[trigger] words[j])
            &&& f.hits == 0 <==> forall|j: int|
                0 <= j < words.len() ==> !contains_text(lowercase(a.text), #[trigger] words[j])
            &&& f.graph == mention_count(s, ns, a.document_id, prose_entities(query))
            &&& f.graph <= f.max_graph
            &&& f.max_graph > 0 ==> f.weights.graph == 55 && f.weights.vector == 30 && f.weights.keyword == 15
            &&& f.max_graph == 0 ==> f.weights.graph == 0 && f.weights.vector == 65 && f.weights.keyword == 35
        }),
{
    law_terms_found(words_text(lowercase(query)), lowercase(a.text), lowercase(b.text));
    law_most_mentions(s, ns, prose_entities(query));
}

/// Whether a hit is a ranked document, as it is stored.
spec fn is_rank(s: State, ns: Seq<char>, h: DocHit, r: Rank) -> bool {
    h.score == r.score && first_row(s.docs, doc_has_id(ns, r.document_id)) == Some(h.doc)
}

proof fn lemma_hit_ranked(s: State, ns: Seq<char>, ranks: Seq<Rank>, j: int) -> (i: int)
    requires
        0 <= j < stored_hits(s, ns, ranks).len(),
    ensures
        j <= i < ranks.len(),
        is_rank(s, ns, stored_hits(s, ns, ranks)[j], ranks[i]),
        j < stored_hits(s, ns, ranks).len() - 1 ==> i < ranks.len() - 1,
    decreases ranks.len(),
{
    let head = ranks.drop_last();
    let before = stored_hits(s, ns, head);
    lemma_hits_len(s, ns, head);
    if j < before.len() {
        let i = lemma_hit_ranked(s, ns, head, j);
        assert(head[i] == ranks[i]);
        i
    } else {
        ranks.len() - 1
    }
}

proof fn lemma_hits_len(s: State, ns: Seq<char>, ranks: Seq<Rank>)
    ensures
        stored_hits(s, ns, ranks).len() <= ranks.len(),
    decreases ranks.len(),
{
    if ranks.len() > 0 {
        lemma_hits_len(s, ns, ranks.drop_last());
    }
}

proof fn lemma_ranked_hit(s: State, ns: Seq<char>, ranks: Seq<Rank>, i: int) -> (j: int)
    requires
        0 <= i < ranks.len(),
        first_row(s.docs, doc_has_id(ns, ranks[i].document_id)) is Some,
    ensures
        0 <= j < stored_hits(s, ns, ranks).len(),
        is_rank(s, ns, stored_hits(s, ns, ranks)[j], ranks[i]),
    decreases ranks.len(),
{
    let head = ranks.drop_last();
    if i < head.len() {
        assert(head[i] == ranks[i]);
        lemma_ranked_hit(s, ns, head, i)
    } else {
        stored_hits(s, ns, head).len() as int
    }
}

proof fn lemma_hits_ordered(s: State, ns: Seq<char>, ranks: Seq<Rank>, a: int, b: int)
    requires
        0 <= a < b < stored_hits(s, ns, ranks).len(),
        forall|i: int, j: int|
            0 <= i < j < ranks.len() ==> place((#[trigger] ranks[i]).score.score) >= place(
                (#[trigger] ranks[j]).score.score,
            ) && ranks[i].document_id != ranks[j].document_id,
    ensures
        place(stored_hits(s, ns, ranks)[a].score.score) >= place(stored_hits(s, ns, ranks)[b].score.score),
        stored_hits(s, ns, ranks)[a].doc.document_id != stored_hits(s, ns, ranks)[b].doc.document_id,
    decreases ranks.len(),
{
    let head = ranks.drop_last();
    let before = stored_hits(s, ns, head);
    assert forall|i: int, j: int| 0 <= i < j < head.len() implies place((#[trigger] head[i]).score.score)
        >= place((#[trigger] head[j]).score.score) && head[i].document_id != head[j].document_id by {
        assert(head[i] == ranks[i] && head[j] == ranks[j]);
    }
    if b < before.len() {
        lemma_hits_ordered(s, ns, head, a, b);
    } else {
        let i = lemma_hit_ranked(s, ns, head, a);
        let n = ranks.len() - 1;
        assert(head[i] == ranks[i]);
        lemma_first_row(s.docs, doc_has_id(ns, ranks[i].document_id));
        lemma_first_row(s.docs, doc_has_id(ns, ranks[n].document_id));
    }
}

proof fn lemma_hits_all(s: State, ns: Seq<char>, ranks: Seq<Rank>)
    requires
        forall|i: int|
            0 <= i < ranks.len() ==> first_row(s.docs, doc_has_id(ns, (#[trigger] ranks[i]).document_id)) is Some,
    ensures
        stored_hits(s, ns, ranks).len() == ranks.len(),
    decreases ranks.len(),
{
    if ranks.len() > 0 {
        let head = ranks.drop_last();
        assert forall|i: int| 0 <= i < head.len() implies first_row(
            s.docs,
            doc_has_id(ns, (#[trigger] head[i]).document_id),
        ) is Some by {
            assert(head[i] == ranks[i]);
        }
        lemma_hits_all(s, ns, head);
        assert(first_row(s.docs, doc_has_id(ns, ranks[ranks.len() - 1].document_id)) is Some);
    }
}

/// Whether row `x` of a store's chunks is one that a search of a namespace by one model sees.
pub open spec fn seen_at(s: State, ns: Seq<char>, signature: Seq<char>, x: int) -> bool {
    &&& 0 <= x < s.chunks.len()
    &&& s.chunks[x].namespace == ns
    &&& s.chunks[x].signature == signature
}

/// Whether row `d` of a store's documents is the document of row `x` of its chunks.
pub open spec fn holds_chunk(s: State, ns: Seq<char>, d: int, x: int) -> bool {
    &&& 0 <= d < s.docs.len()
    &&& s.docs[d].namespace == ns
    &&& s.docs[d].document_id == s.chunks[x].document_id
}

/// Whether a scorer gives a chunk this score for a query: on the similarity of the query's vector and the
/// chunk's, and on what the two have in common.
pub open spec fn text_scored_by<S: Scorer>(
    scorer: &S,
    s: State,
    ns: Seq<char>,
    text: Seq<char>,
    query: Vec<u32>,
    x: int,
    vector: Vec<u32>,
    v: u64,
    score: Score,
) -> bool {
    &&& vector@ == s.chunks[x].embedding
    &&& call_ensures(S::cosine, (scorer, &query, &vector), v)
    &&& call_ensures(S::text_score, (scorer, v, text_signals(s, ns, text, s.chunks[x])), score)
}

proof fn lemma_seen(s: State, ns: Seq<char>, signature: Seq<char>, k: int) -> (x: int)
    requires
        0 <= k < rows_where(s.chunks, chunk_signed(ns, signature)).len(),
    ensures
        seen_at(s, ns, signature, x),
        s.chunks[x] == rows_where(s.chunks, chunk_signed(ns, signature))[k],
{
    let q = chunk_signed(ns, signature);
    let sel = rows_where(s.chunks, q);
    lemma_rows_where_contains(s.chunks, q);
    assert(sel.contains(sel[k]));
    choose|x: int| 0 <= x < s.chunks.len() && s.chunks[x] == sel[k]
}

proof fn lemma_selected(s: State, ns: Seq<char>, signature: Seq<char>, x: int) -> (k: int)
    requires
        seen_at(s, ns, signature, x),
    ensures
        0 <= k < rows_where(s.chunks, chunk_signed(ns, signature)).len(),
        s.chunks[x] == rows_where(s.chunks, chunk_signed(ns, signature))[k],
{
    let q = chunk_signed(ns, signature);
    let sel = rows_where(s.chunks, q);
    lemma_rows_where_contains(s.chunks, q);
    assert(s.chunks.contains(s.chunks[x]));
    assert(sel.contains(s.chunks[x]));
    choose|k: int| 0 <= k < sel.len() && sel[k] == s.chunks[x]
}

proof fn lemma_text_scored<S: Scorer>(
    scorer: &S,
    s: State,
    ns: Seq<char>,
    text: Seq<char>,
    query: Vec<u32>,
    x: int,
    score: Score,
)
    requires
        text_scored(scorer, query, s.chunks[x].embedding, text_signals(s, ns, text, s.chunks[x]), score),
    ensures
        exists|vector: Vec<u32>, v: u64| #[trigger]
            text_scored_by(scorer, s, ns, text, query, x, vector, v, score),
{
    let c = s.chunks[x];
    let v = choose|v: u64|
        cosine_gives(scorer, query, c.embedding, v) && #[trigger] call_ensures(
            S::text_score,
            (scorer, v, text_signals(s, ns, text, c)),
            score,
        );
    let vector = choose|vector: Vec<u32>|
        vector@ == c.embedding && #[trigger] call_ensures(S::cosine, (scorer, &query, &vector), v);
    assert(text_scored_by(scorer, s, ns, text, query, x, vector, v, score));
}

/// Law: a search over documents names stored documents of its namespace that have a chunk which the same
/// model has embedded, each once, best first and no more than asked for. A document has the score that the
/// scorer gave to one of its chunks, or the lowest of all where none scored above that.
pub proof fn law_query_names_stored<S: Scorer>(
    scorer: &S,
    s: State,
    ns: Seq<char>,
    text: Seq<char>,
    signature: Seq<char>,
    query: Vec<u32>,
    scores: Seq<Score>,
    max: int,
    hits: Seq<DocHit>,
    n: int,
)
    requires
        0 <= max,
        query_answer(scorer, s, ns, text, signature, query, scores, max, hits),
    ensures
        hits.len() <= max,
        forall|i: int, j: int|
            0 <= i < j < hits.len() ==> place((#[trigger] hits[i]).score.score) >= place(
                (#[trigger] hits[j]).score.score,
            ) && hits[i].doc.document_id != hits[j].doc.document_id,
        0 <= n < hits.len() ==> s.docs.contains(hits[n].doc) && hits[n].doc.namespace == ns && exists|x: int|
            #[trigger] seen_at(s, ns, signature, x) && s.chunks[x].document_id == hits[n].doc.document_id && (
            hits[n].score == (Score { score: LOWEST, vector: 0, keyword: 0, graph: 0 }) || exists|
                vector: Vec<u32>,
                v: u64,
            | #[trigger]
                text_scored_by(scorer, s, ns, text, query, x, vector, v, hits[n].score)),
{
    let chunks = rows_where(s.chunks, chunk_signed(ns, signature));
    let docs = chunks.map_values(|c: Chunk| c.document_id);
    let ranks = ranking(docs, scores, max);
    law_ranking(docs, scores, max);
    law_ranking_keeps_the_best(docs, scores, max);
    lemma_hits_len(s, ns, ranks);
    assert forall|i: int, j: int| 0 <= i < j < hits.len() implies place((#[trigger] hits[i]).score.score) >= place(
        (#[trigger] hits[j]).score.score,
    ) && hits[i].doc.document_id != hits[j].doc.document_id by {
        lemma_hits_ordered(s, ns, ranks, i, j);
    }
    if 0 <= n < hits.len() {
        let h = hits[n];
        let i = lemma_hit_ranked(s, ns, ranks, n);
        lemma_first_row(s.docs, doc_has_id(ns, ranks[i].document_id));
        let z = choose|z: int| 0 <= z < s.docs.len() && #[trigger] s.docs[z] == h.doc;
        assert(s.docs.contains(s.docs[z]));
        assert(docs.contains(ranks[i].document_id));
        let k = if h.score == (Score { score: LOWEST, vector: 0, keyword: 0, graph: 0 }) {
            choose|k: int| 0 <= k < docs.len() && docs[k] == ranks[i].document_id
        } else {
            choose|k: int| #[trigger]
                scored_at(docs, scores, ranks[i].document_id, k) && scores[k] == ranks[i].score
        };
        assert(docs[k] == chunks[k].document_id);
        let x = lemma_seen(s, ns, signature, k);
        assert(text_scored(
            scorer,
            query,
            chunks[k].embedding,
            text_signals(s, ns, text, chunks[k]),
            scores[k],
        ));
        lemma_text_scored(scorer, s, ns, text, query, x, scores[k]);
        assert(seen_at(s, ns, signature, x));
    }
}

/// Law: a search over documents keeps the best. Where it leaves out a stored document that has a chunk which
/// it sees, none of the documents that it names scores below that chunk; and it is full, if every chunk that
/// it sees belongs to a stored document.
pub proof fn law_query_leaves_out_the_lowest<S: Scorer>(
    scorer: &S,
    s: State,
    ns: Seq<char>,
    text: Seq<char>,
    signature: Seq<char>,
    query: Vec<u32>,
    scores: Seq<Score>,
    max: int,
    hits: Seq<DocHit>,
    x: int,
    d: int,
)
    requires
        0 <= max,
        query_answer(scorer, s, ns, text, signature, query, scores, max, hits),
        seen_at(s, ns, signature, x),
        holds_chunk(s, ns, d, x),
        forall|i: int|
            0 <= i < hits.len() ==> (#[trigger] hits[i]).doc.document_id != s.docs[d].document_id,
    ensures
        exists|vector: Vec<u32>, v: u64, score: Score| #[trigger]
            text_scored_by(scorer, s, ns, text, query, x, vector, v, score) && forall|i: int|
                0 <= i < hits.len() ==> !is_above(score.score, (#[trigger] hits[i]).score.score),
        (forall|y: int| #[trigger]
            seen_at(s, ns, signature, y) ==> exists|e: int| #[trigger] holds_chunk(s, ns, e, y)) ==> hits.len()
            == max,
{
    let chunks = rows_where(s.chunks, chunk_signed(ns, signature));
    let docs = chunks.map_values(|c: Chunk| c.document_id);
    let ranks = ranking(docs, scores, max);
    law_ranking(docs, scores, max);
    law_ranking_keeps_the_best(docs, scores, max);
    let k = lemma_selected(s, ns, signature, x);
    let id = s.chunks[x].document_id;
    assert(docs[k] == id);
    lemma_first_row(s.docs, doc_has_id(ns, id));
    assert(doc_has_id(ns, id)(s.docs[d]));
    assert forall|i: int| 0 <= i < ranks.len() implies (#[trigger] ranks[i]).document_id != docs[k] by {
        if ranks[i].document_id == id {
            let j = lemma_ranked_hit(s, ns, ranks, i);
            assert(hits[j].doc.document_id == id);
        }
    }
    assert(text_scored(scorer, query, chunks[k].embedding, text_signals(s, ns, text, chunks[k]), scores[k]));
    lemma_text_scored(scorer, s, ns, text, query, x, scores[k]);
    let (vector, v) = choose|vector: Vec<u32>, v: u64| #[trigger]
        text_scored_by(scorer, s, ns, text, query, x, vector, v, scores[k]);
    assert forall|i: int| 0 <= i < hits.len() implies !is_above(
        scores[k].score,
        (#[trigger] hits[i]).score.score,
    ) by {
        let a = lemma_hit_ranked(s, ns, ranks, i);
        assert(!is_above(scores[k].score, ranks[a].score.score));
    }
    if forall|y: int| #[trigger]
        seen_at(s, ns, signature, y) ==> exists|e: int| #[trigger] holds_chunk(s, ns, e, y) {
        assert forall|i: int| 0 <= i < ranks.len() implies first_row(
            s.docs,
            doc_has_id(ns, (#[trigger] ranks[i]).document_id),
        ) is Some by {
            assert(docs.contains(ranks[i].document_id));
            let z = choose|z: int| 0 <= z < docs.len() && docs[z] == ranks[i].document_id;
            let y = lemma_seen(s, ns, signature, z);
            let e = choose|e: int| #[trigger] holds_chunk(s, ns, e, y);
            lemma_first_row(s.docs, doc_has_id(ns, ranks[i].document_id));
            assert(doc_has_id(ns, ranks[i].document_id)(s.docs[e]));
        }
        lemma_hits_all(s, ns, ranks);
    }
}

/// Law: recall looks at the documents of its namespace alone, at the thousand most recently updated where
/// there are more.
pub proof fn law_recent_docs(s: State, ns: Seq<char>)
    ensures
        recent_docs(s, ns).len() <= 1000,
        forall|d: Doc| #[trigger]
            recent_docs(s, ns).contains(d) ==> s.docs.contains(d) && d.namespace == ns,
        forall|d: Doc|
            #![trigger recent_docs(s, ns).contains(d)]
            s.docs.contains(d) && d.namespace == ns && !recent_docs(s, ns).contains(d) ==> recent_docs(
                s,
                ns,
            ).len() == 1000 && forall|i: int|
                0 <= i < recent_docs(s, ns).len() ==> (#[trigger] recent_docs(s, ns)[i]).updated_at
                    >= d.updated_at,
        forall|i: int, j: int|
            0 <= i < j < recent_docs(s, ns).len() ==> (#[trigger] recent_docs(s, ns)[i]).updated_at >= (
            #[trigger] recent_docs(s, ns)[j]).updated_at,
{
    broadcast use vstd::seq_lib::group_to_multiset_ensures;

    let sel = rows_where(s.docs, doc_in(ns));
    let sorted = sorted_rows(sel, newer());
    let r = recent_docs(s, ns);
    lemma_rows_where_contains(s.docs, doc_in(ns));
    assert(is_order(newer()));
    law_sorted_rows(sel, newer());
    assert forall|d: Doc| sorted.contains(d) <==> sel.contains(d) by {
        assert(sorted.to_multiset().count(d) > 0 <==> sorted.contains(d));
        assert(sel.to_multiset().count(d) > 0 <==> sel.contains(d));
    }
    assert forall|i: int, j: int| 0 <= i < j < sorted.len() implies (#[trigger] sorted[i]).updated_at >= (
    #[trigger] sorted[j]).updated_at by {
        assert(!newer()(sorted[j], sorted[i]));
    }
    assert(forall|i: int| 0 <= i < r.len() ==> r[i] == sorted[i]);
    assert forall|d: Doc| #[trigger] r.contains(d) implies s.docs.contains(d) && d.namespace == ns by {
        let i = choose|i: int| 0 <= i < r.len() && r[i] == d;
        assert(sorted.contains(sorted[i]));
    }
    assert forall|d: Doc|
        #![trigger r.contains(d)]
        s.docs.contains(d) && d.namespace == ns && !r.contains(d) implies r.len() == 1000 && forall|i: int|
        0 <= i < r.len() ==> (#[trigger] r[i]).updated_at >= d.updated_at by {
        assert(sel.contains(d));
        assert(sorted.contains(d));
        let k = choose|k: int| 0 <= k < sorted.len() && sorted[k] == d;
        if k < r.len() {
            assert(r[k] == d);
        }
    }
}

/// Law: recall gives documents that it looked at, each with the freshness that the scorer gave it, freshest
/// first and no more than asked for; one that it leaves out is no fresher than any that it gives, and it
/// leaves none out unless it is full.
pub proof fn law_recall_gives_the_freshest<S: Scorer>(
    scorer: &S,
    docs: Seq<Doc>,
    now: u64,
    scores: Seq<u64>,
    max: int,
    hits: Seq<DocHit>,
    k: int,
)
    requires
        0 <= max,
        recall_answer(scorer, docs, now, scores, max, hits),
    ensures
        hits.len() <= max,
        forall|i: int, j: int|
            0 <= i < j < hits.len() ==> place((#[trigger] hits[i]).score.score) >= place(
                (#[trigger] hits[j]).score.score,
            ),
        forall|i: int|
            0 <= i < hits.len() ==> docs.contains((#[trigger] hits[i]).doc) && call_ensures(
                S::freshness,
                (scorer, hits[i].doc.updated_at, now),
                hits[i].score.score,
            ),
        0 <= k < docs.len() && (forall|i: int| 0 <= i < hits.len() ==> (#[trigger] hits[i]).doc != docs[k])
            ==> hits.len() == max && forall|i: int|
            0 <= i < hits.len() ==> place((#[trigger] hits[i]).score.score) >= place(scores[k]),
{
    broadcast use vstd::seq_lib::group_to_multiset_ensures;

    let all = fresh_hits(docs, scores);
    let sorted = sorted_rows(all, hit_order());
    assert(is_order(hit_order()));
    law_sorted_rows(all, hit_order());
    assert forall|x: DocHit| sorted.contains(x) <==> all.contains(x) by {
        assert(sorted.to_multiset().count(x) > 0 <==> sorted.contains(x));
        assert(all.to_multiset().count(x) > 0 <==> all.contains(x));
    }
    assert forall|i: int, j: int| 0 <= i < j < sorted.len() implies place((#[trigger] sorted[i]).score.score)
        >= place((#[trigger] sorted[j]).score.score) by {
        assert(!hit_order()(sorted[j], sorted[i]));
    }
    assert(forall|i: int| 0 <= i < hits.len() ==> hits[i] == sorted[i]);
    assert forall|i: int| 0 <= i < hits.len() implies docs.contains((#[trigger] hits[i]).doc) && call_ensures(
        S::freshness,
        (scorer, hits[i].doc.updated_at, now),
        hits[i].score.score,
    ) by {
        assert(sorted.contains(sorted[i]));
        let k = choose|k: int| 0 <= k < all.len() && all[k] == hits[i];
        assert(docs[k] == hits[i].doc);
        assert(scores[k] == hits[i].score.score);
        assert(call_ensures(S::freshness, (scorer, docs[k].updated_at, now), scores[k]));
    }
    if 0 <= k < docs.len() && (forall|i: int| 0 <= i < hits.len() ==> (#[trigger] hits[i]).doc != docs[k]) {
        assert(all.contains(all[k]));
        assert(sorted.contains(all[k]));
        let y = choose|y: int| 0 <= y < sorted.len() && sorted[y] == all[k];
        if y < hits.len() {
            assert(hits[y].doc == docs[k]);
        }
        assert(all[k].score.score == scores[k]);
    }
}

} // verus!
