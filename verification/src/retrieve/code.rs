//! Search over chunks of code.

use super::rank::{above, is_above, is_number, place, ranks_before, weights, weights_for, Score};
use super::signals::{count_graph, counts_match, law_most_mentions, most_mentions, GraphCounts};
use super::terms::{
    code_entities_of, keyword_hits, law_code_entities, law_terms_found, names_in, path_prior, prior_of,
    query_code_entities, query_names, query_terms, terms_found, terms_of_query,
};
use super::{cosine_gives, CodeFacts, CodeSignals, Scorer};
use crate::embed::{embed_gives, signature_gives, Embedder};
use crate::model::Error;
use crate::store::chunks::{code_chunk_rows, is_code_chunk, CodeChunkDetail, CodeChunkRow};
use crate::store::docs::doc_has_id;
use crate::store::entities::{
    entity_ids, keep_once, law_mentions_counted, law_once_each, mention_count, mention_in_doc,
    mentioning_docs, once_each,
};
use crate::store::{doc_id_key, Chunk, State, Store};
use crate::table::{
    first_row, first_rows, is_order, law_sorted_rows, lemma_first_row, lemma_rows_push,
    lemma_rows_where_contains, lemma_rows_where_in_order, lemma_rows_where_len, limit, rows, rows_where, sort,
    sorted_rows,
};
use crate::text::{
    any_same, ascii_lower_char, ascii_lower_text, cat2, contains, contains_text, is_ascii_text,
    lemma_texts_push, lowercase, occurs_at, same, texts, words_text,
};
use vstd::prelude::*;

verus! {

/// A chunk of code with its score and the score's parts, as the bits of floats.
#[derive(Debug, Clone)]
pub struct CodeHit {
    pub path: String,
    pub document_id: String,
    pub line_start: Option<u64>,
    pub line_end: Option<u64>,
    pub snippet: String,
    pub score: u64,
    pub vector: u64,
    pub keyword: u64,
}

/// What a scored chunk of code holds.
#[verifier::ext_equal]
pub struct ChunkHit {
    pub path: Seq<char>,
    pub document_id: Seq<char>,
    pub line_start: Option<u64>,
    pub line_end: Option<u64>,
    pub snippet: Seq<char>,
    pub score: u64,
    pub vector: u64,
    pub keyword: u64,
}

impl View for CodeHit {
    type V = ChunkHit;

    open spec fn view(&self) -> ChunkHit {
        ChunkHit {
            path: self.path@,
            document_id: self.document_id@,
            line_start: self.line_start,
            line_end: self.line_end,
            snippet: self.snippet@,
            score: self.score,
            vector: self.vector,
            keyword: self.keyword,
        }
    }
}

/// How code search ranks.
#[derive(Debug, Clone, Copy)]
pub struct CodeOptions {
    /// Whether the prior of a path counts.
    pub path_prior: bool,
    /// Whether terms count by their rarity.
    pub keyword_idf: bool,
    /// Whether a document that defines a rare symbol of the query is preferred.
    pub definition_boost: bool,
    /// Whether the symbols of the query count as a graph signal.
    pub graph: bool,
    /// The bits of the lowest score that is shown; all are shown where it is not above 0.
    pub min_score: u64,
}

// ---------------------------------------------------------------------------------------------
// Ranking scored chunks.
// ---------------------------------------------------------------------------------------------

/// A chunk with a score.
pub open spec fn chunk_hit(c: CodeChunkDetail, s: Score) -> ChunkHit {
    ChunkHit {
        path: c.key,
        document_id: c.document_id,
        line_start: c.line_start,
        line_end: c.line_end,
        snippet: c.text,
        score: s.score,
        vector: s.vector,
        keyword: s.keyword,
    }
}

pub open spec fn chunk_hits(chunks: Seq<CodeChunkDetail>, scores: Seq<Score>) -> Seq<ChunkHit> {
    Seq::new(chunks.len(), |i: int| chunk_hit(chunks[i], scores[i]))
}

/// Higher scores come first.
pub open spec fn code_order() -> spec_fn(ChunkHit, ChunkHit) -> bool {
    |a: ChunkHit, b: ChunkHit| place(a.score) > place(b.score)
}

/// Whether a score is high enough to be shown.
pub open spec fn is_shown(min_score: u64) -> spec_fn(ChunkHit) -> bool {
    |h: ChunkHit|
        is_above(min_score, 0) ==> is_number(h.score) && place(h.score) >= place(min_score)
}

/// The `max` best chunks that are shown, best first; chunks with equal scores keep their order.
pub open spec fn code_ranking(
    chunks: Seq<CodeChunkDetail>,
    scores: Seq<Score>,
    min_score: u64,
    max: int,
) -> Seq<ChunkHit> {
    first_rows(
        rows_where(sorted_rows(chunk_hits(chunks, scores), code_order()), is_shown(min_score)),
        max,
    )
}

/// Whether a score reaches a lowest score.
fn reaches(score: u64, min_score: u64) -> (r: bool)
    ensures
        r == (is_above(min_score, 0) ==> is_number(score) && place(score) >= place(min_score)),
{
    if !above(min_score, 0) {
        return true;
    }
    above(score, min_score) || (!ranks_before(score, min_score) && !ranks_before(min_score, score))
}

/// Ranks chunks of code by their scores, and shows those that reach the lowest score.
pub fn rank_code(chunks: Vec<CodeChunkRow>, scores: &Vec<Score>, min_score: u64, max: usize) -> (r: Vec<CodeHit>)
    requires
        chunks@.len() == scores@.len(),
    ensures
        rows(r@) == code_ranking(rows(chunks@), scores@, min_score, max as int),
{
    let mut all: Vec<CodeHit> = Vec::new();
    let ghost hits = chunk_hits(rows(chunks@), scores@);
    assert(rows(all@) =~= hits.take(0));
    for i in 0..chunks.len()
        invariant
            chunks@.len() == scores@.len(),
            hits == chunk_hits(rows(chunks@), scores@),
            rows(all@) == hits.take(i as int),
    {
        let ghost all0 = all@;
        let c = &chunks[i];
        let s = scores[i];
        let hit = CodeHit {
            path: c.key.clone(),
            document_id: c.document_id.clone(),
            line_start: c.line_start,
            line_end: c.line_end,
            snippet: c.text.clone(),
            score: s.score,
            vector: s.vector,
            keyword: s.keyword,
        };
        all.push(hit);
        proof {
            lemma_rows_push(all0, hit);
            assert(hit@ == hits[i as int]);
            assert(hits.take(i + 1) =~= hits.take(i as int).push(hits[i as int]));
        }
    }
    assert(hits.take(hits.len() as int) =~= hits);
    sort(
        &mut all,
        |a: &CodeHit, b: &CodeHit| -> (r: bool)
            ensures
                r == (place(a@.score) > place(b@.score))
        { ranks_before(a.score, b.score) },
        Ghost(code_order()),
    );
    let ghost ranked = rows(all@);
    let mut out: Vec<CodeHit> = Vec::new();
    assert(rows(out@) =~= Seq::<ChunkHit>::empty());
    assert(ranked.take(0) =~= Seq::<ChunkHit>::empty());
    for i in 0..all.len()
        invariant
            ranked == rows(all@),
            rows(out@) == rows_where(ranked.take(i as int), is_shown(min_score)),
    {
        proof {
            assert(ranked.take(i + 1).drop_last() =~= ranked.take(i as int));
            assert(ranked.take(i + 1).last() == ranked[i as int]);
        }
        let h = &all[i];
        if reaches(h.score, min_score) {
            let ghost out0 = out@;
            let hit = CodeHit {
                path: h.path.clone(),
                document_id: h.document_id.clone(),
                line_start: h.line_start,
                line_end: h.line_end,
                snippet: h.snippet.clone(),
                score: h.score,
                vector: h.vector,
                keyword: h.keyword,
            };
            out.push(hit);
            proof {
                lemma_rows_push(out0, hit);
                assert(hit@ == ranked[i as int]);
            }
        }
    }
    assert(ranked.take(ranked.len() as int) =~= ranked);
    limit(&mut out, max);
    out
}

// ---------------------------------------------------------------------------------------------
// The signals of a chunk of code.
// ---------------------------------------------------------------------------------------------

/// In how many of the chunks a term occurs, whatever the case.
pub open spec fn frequency(chunks: Seq<CodeChunkDetail>, term: Seq<char>) -> nat {
    rows_where(chunks, |c: CodeChunkDetail| contains_text(lowercase(c.text), term)).len()
}

pub open spec fn frequencies_of(chunks: Seq<CodeChunkDetail>, terms: Seq<Seq<char>>) -> Seq<usize> {
    terms.map_values(|t: Seq<char>| frequency(chunks, t) as usize)
}

/// Which of the terms a text contains.
pub open spec fn terms_matched(terms: Seq<Seq<char>>, text: Seq<char>) -> Seq<bool> {
    terms.map_values(|t: Seq<char>| contains_text(text, t))
}

/// The symbols of a query whose lowercase form is a rare term of it, each once.
pub open spec fn rare_symbols(query: Seq<char>, rare: Seq<bool>) -> Seq<Seq<char>> {
    once_each(rows_where(names_in(query), is_rare_name(query, rare))).map_values(
        |t: Seq<char>| "sym:"@ + t,
    )
}

/// Whether the lowercase form of a name is a rare term of the query.
pub open spec fn is_rare_name(query: Seq<char>, rare: Seq<bool>) -> spec_fn(Seq<char>) -> bool {
    |t: Seq<char>|
        exists|j: int|
            0 <= j < terms_of_query(query).len() && rare[j] && #[trigger] terms_of_query(query)[j]
                == lowercase(t)
}

/// The documents that mention a rare symbol of the query.
pub open spec fn defining_docs(s: State, ns: Seq<char>, query: Seq<char>, rare: Seq<bool>) -> Seq<Seq<char>> {
    mentioning_docs(s, ns, rare_symbols(query, rare))
}

/// The entities that the graph signal of a query counts.
pub open spec fn graph_entities(query: Seq<char>, opts: CodeOptions) -> Seq<Seq<char>> {
    if opts.graph {
        once_each(code_entities_of(names_in(query)))
    } else {
        Seq::empty()
    }
}

/// What a chunk of code has in common with a query, given which terms are rare.
pub open spec fn code_facts(
    s: State,
    ns: Seq<char>,
    query: Seq<char>,
    opts: CodeOptions,
    rare: Seq<bool>,
    chunks: Seq<CodeChunkDetail>,
    c: CodeChunkDetail,
) -> CodeFacts {
    let entities = graph_entities(query, opts);
    let most = most_mentions(s, ns, entities);
    CodeFacts {
        hits: terms_found(words_text(lowercase(query)), lowercase(c.text)),
        terms: words_text(lowercase(query)).len(),
        candidates: chunks.len(),
        frequencies: if opts.keyword_idf {
            frequencies_of(chunks, terms_of_query(query))
        } else {
            Seq::empty()
        },
        matched: if opts.keyword_idf {
            terms_matched(terms_of_query(query), lowercase(c.text))
        } else {
            Seq::empty()
        },
        graph: mention_count(s, ns, c.document_id, entities),
        max_graph: most,
        weights: if most > 0 {
            Some(weights_for(most))
        } else {
            None
        },
        prior: if opts.path_prior {
            prior_of(c.key)
        } else {
            100
        },
        defines: defining_docs(s, ns, query, rare).contains(c.document_id),
    }
}

/// Counts in how many of the chunks each term occurs.
fn count_frequencies(chunks: &Vec<CodeChunkRow>, terms: &Vec<String>) -> (r: Vec<usize>)
    ensures
        r@ == frequencies_of(rows(chunks@), texts(terms@)),
{
    let ghost all = rows(chunks@);
    let mut lower: Vec<String> = Vec::new();
    for i in 0..chunks.len()
        invariant
            all == rows(chunks@),
            lower@.len() == i,
            forall|k: int| 0 <= k < i ==> (#[trigger] lower@[k])@ == lowercase(all[k].text),
    {
        let low = chunks[i].text.as_str().to_lowercase();
        assert(low@ == lowercase(all[i as int].text));
        lower.push(low);
    }
    let mut out: Vec<usize> = Vec::new();
    for j in 0..terms.len()
        invariant
            all == rows(chunks@),
            lower@.len() == all.len(),
            forall|k: int| 0 <= k < lower@.len() ==> (#[trigger] lower@[k])@ == lowercase(all[k].text),
            out@ == frequencies_of(all, texts(terms@)).take(j as int),
    {
        let ghost term = texts(terms@)[j as int];
        let ghost q = |c: CodeChunkDetail| contains_text(lowercase(c.text), term);
        let mut n: usize = 0;
        assert(all.take(0) =~= Seq::<CodeChunkDetail>::empty());
        for i in 0..lower.len()
            invariant
                j < terms@.len(),
                lower@.len() == all.len(),
                forall|k: int|
                    0 <= k < lower@.len() ==> (#[trigger] lower@[k])@ == lowercase(all[k].text),
                term == texts(terms@)[j as int],
                q == (|c: CodeChunkDetail| contains_text(lowercase(c.text), term)),
                n == rows_where(all.take(i as int), q).len(),
                n <= i,
        {
            proof {
                assert(all.take(i + 1).drop_last() =~= all.take(i as int));
                assert(all.take(i + 1).last() == all[i as int]);
                assert(terms@[j as int]@ == term);
            }
            if contains(lower[i].as_str(), terms[j].as_str()) {
                n += 1;
            }
        }
        assert(all.take(all.len() as int) =~= all);
        let ghost out0 = out@;
        out.push(n);
        proof {
            assert(frequencies_of(all, texts(terms@))[j as int] == n);
            assert(frequencies_of(all, texts(terms@)).take(j + 1) =~= out0.push(n));
        }
    }
    assert(frequencies_of(all, texts(terms@)).take(terms@.len() as int) =~= frequencies_of(
        all,
        texts(terms@),
    ));
    out
}

/// Finds which of the terms a text contains.
fn match_terms(terms: &Vec<String>, text: &str) -> (r: Vec<bool>)
    ensures
        r@ == terms_matched(texts(terms@), text@),
{
    let ghost all = terms_matched(texts(terms@), text@);
    let mut out: Vec<bool> = Vec::new();
    for j in 0..terms.len()
        invariant
            all == terms_matched(texts(terms@), text@),
            out@ == all.take(j as int),
    {
        let ghost out0 = out@;
        let b: bool = contains(text, terms[j].as_str());
        out.push(b);
        proof {
            assert(all[j as int] == b);
            assert(all.take(j + 1) =~= out0.push(b));
        }
    }
    assert(all.take(terms@.len() as int) =~= all);
    out
}

/// Finds the symbols of a query whose lowercase form is a rare term.
fn find_rare_symbols(query: &str, terms: &Vec<String>, rare: &Vec<bool>) -> (r: Vec<String>)
    requires
        texts(terms@) == terms_of_query(query@),
        rare@.len() == terms@.len(),
    ensures
        texts(r@) == rare_symbols(query@, rare@),
{
    let names = query_names(query);
    let ghost all = texts(names@);
    let ghost q = is_rare_name(query@, rare@);
    let mut kept: Vec<String> = Vec::new();
    assert(all.take(0) =~= Seq::<Seq<char>>::empty());
    assert(texts(kept@) =~= Seq::<Seq<char>>::empty());
    for i in 0..names.len()
        invariant
            texts(terms@) == terms_of_query(query@),
            rare@.len() == terms@.len(),
            all == texts(names@),
            q == is_rare_name(query@, rare@),
            texts(kept@) == rows_where(all.take(i as int), q),
    {
        proof {
            assert(all.take(i + 1).drop_last() =~= all.take(i as int));
            assert(all.take(i + 1).last() == all[i as int]);
        }
        let low = names[i].as_str().to_lowercase();
        let mut is_rare: bool = false;
        for j in 0..terms.len()
            invariant
                texts(terms@) == terms_of_query(query@),
                rare@.len() == terms@.len(),
                is_rare == exists|k: int|
                    0 <= k < j && rare@[k] && #[trigger] terms_of_query(query@)[k] == low@,
        {
            assert(terms@[j as int]@ == terms_of_query(query@)[j as int]);
            if rare[j] && same(terms[j].as_str(), low.as_str()) {
                is_rare = true;
            }
        }
        assert(terms_of_query(query@).len() == terms@.len());
        assert(is_rare == q(all[i as int]));
        if is_rare {
            let ghost kept0 = kept@;
            let t = names[i].clone();
            kept.push(t);
            proof {
                lemma_texts_push(kept0, t);
            }
        }
    }
    assert(all.take(all.len() as int) =~= all);
    let once = keep_once(&kept);
    let ghost whole = rare_symbols(query@, rare@);
    let mut out: Vec<String> = Vec::new();
    assert(texts(out@) =~= whole.take(0));
    for i in 0..once.len()
        invariant
            whole == texts(once@).map_values(|t: Seq<char>| "sym:"@ + t),
            texts(out@) == whole.take(i as int),
    {
        let ghost out0 = out@;
        let s = cat2("sym:", once[i].as_str());
        out.push(s);
        proof {
            lemma_texts_push(out0, s);
            assert(whole[i as int] == "sym:"@ + texts(once@)[i as int]);
            assert(whole.take(i + 1) =~= whole.take(i as int).push(whole[i as int]));
        }
    }
    assert(texts(once@).len() == once@.len());
    assert(whole.take(whole.len() as int) =~= whole);
    out
}

// ---------------------------------------------------------------------------------------------
// The search.
// ---------------------------------------------------------------------------------------------

/// Whether the scorer may find these terms of a query rare; without the definition boost it is
/// not asked, and none is.
pub open spec fn rarity_gives<S: Scorer>(
    scorer: &S,
    opts: CodeOptions,
    chunks: Seq<CodeChunkDetail>,
    terms: Seq<Seq<char>>,
    rare: Seq<bool>,
) -> bool {
    &&& rare.len() == terms.len()
    &&& forall|j: int|
        0 <= j < terms.len() ==> if opts.definition_boost {
            call_ensures(
                S::is_rare,
                (scorer, chunks.len() as usize, frequency(chunks, terms[j]) as usize),
                #[trigger] rare[j],
            )
        } else {
            !rare[j]
        }
}

/// Whether a scorer may give a chunk of code this score for a query.
pub open spec fn code_scored<S: Scorer>(
    scorer: &S,
    query: Vec<u32>,
    embedding: Seq<u32>,
    facts: CodeFacts,
    score: Score,
) -> bool {
    exists|v: u64, signals: CodeSignals|
        cosine_gives(scorer, query, embedding, v) && signals@ == facts && #[trigger] call_ensures(
            S::code_score,
            (scorer, v, &signals),
            score,
        )
}

/// The answer to an embedded query, given which terms are rare and the scores of the chunks.
pub open spec fn code_answer<S: Scorer>(
    scorer: &S,
    s: State,
    ns: Seq<char>,
    text: Seq<char>,
    signature: Seq<char>,
    opts: CodeOptions,
    query: Vec<u32>,
    rare: Seq<bool>,
    scores: Seq<Score>,
    max: int,
    hits: Seq<ChunkHit>,
) -> bool {
    let chunks = code_chunk_rows(s, ns, signature);
    &&& rarity_gives(scorer, opts, chunks, terms_of_query(text), rare)
    &&& scores.len() == chunks.len()
    &&& forall|i: int|
        0 <= i < chunks.len() ==> code_scored(
            scorer,
            query,
            chunks[i].embedding,
            code_facts(s, ns, text, opts, rare, chunks, chunks[i]),
            #[trigger] scores[i],
        )
    &&& hits == code_ranking(chunks, scores, opts.min_score, max)
}

/// The result of a search for code whose query was embedded with this outcome.
pub open spec fn code_result<S: Scorer>(
    scorer: &S,
    s: State,
    ns: Seq<char>,
    text: Seq<char>,
    signature: Seq<char>,
    opts: CodeOptions,
    query: Result<Vec<u32>, Error>,
    max: int,
    r: Result<Vec<CodeHit>, Error>,
) -> bool {
    match query {
        Err(e) => r == Err::<Vec<CodeHit>, Error>(e),
        Ok(q) => r is Ok && exists|rare: Seq<bool>, scores: Seq<Score>| #[trigger]
            code_answer(
                scorer,
                s,
                ns,
                text,
                signature,
                opts,
                q,
                rare,
                scores,
                max,
                rows(r->Ok_0@),
            ),
    }
}

/// Asks the scorer which of the terms are rare.
fn ask_rarity<S: Scorer>(
    scorer: &S,
    opts: CodeOptions,
    chunks: &Vec<CodeChunkRow>,
    terms: &Vec<String>,
    frequencies: &Vec<usize>,
) -> (r: Vec<bool>)
    requires
        frequencies@ == frequencies_of(rows(chunks@), texts(terms@)),
    ensures
        rarity_gives(scorer, opts, rows(chunks@), texts(terms@), r@),
{
    let ghost all = rows(chunks@);
    let n: usize = chunks.len();
    let mut out: Vec<bool> = Vec::new();
    for j in 0..terms.len()
        invariant
            all == rows(chunks@),
            n == all.len(),
            frequencies@ == frequencies_of(all, texts(terms@)),
            out@.len() == j,
            forall|k: int|
                0 <= k < j ==> if opts.definition_boost {
                    call_ensures(
                        S::is_rare,
                        (scorer, n, frequency(all, texts(terms@)[k]) as usize),
                        #[trigger] out@[k],
                    )
                } else {
                    !out@[k]
                },
    {
        assert(frequencies_of(all, texts(terms@)).len() == terms@.len());
        assert(frequencies@[j as int] == frequency(all, texts(terms@)[j as int]) as usize);
        let b: bool = if opts.definition_boost {
            scorer.is_rare(n, frequencies[j])
        } else {
            false
        };
        out.push(b);
    }
    out
}

/// The signals of one chunk.
fn signals_of(
    store: &Store,
    namespace: &str,
    query: &str,
    opts: CodeOptions,
    terms: &Vec<String>,
    frequencies: &Vec<usize>,
    graph: &GraphCounts,
    defining: &Vec<String>,
    candidates: usize,
    c: &CodeChunkRow,
    Ghost(rare): Ghost<Seq<bool>>,
    Ghost(chunks): Ghost<Seq<CodeChunkDetail>>,
) -> (r: CodeSignals)
    requires
        texts(terms@) == terms_of_query(query@),
        frequencies@ == frequencies_of(chunks, terms_of_query(query@)),
        counts_match(*graph, store@, namespace@, graph_entities(query@, opts)),
        texts(defining@) == defining_docs(store@, namespace@, query@, rare),
        candidates == chunks.len(),
    ensures
        r@ == code_facts(store@, namespace@, query@, opts, rare, chunks, c@),
{
    let (hits, words) = keyword_hits(query, c.text.as_str());
    let low = c.text.as_str().to_lowercase();
    let mut shown: Vec<usize> = Vec::new();
    let mut matched: Vec<bool> = Vec::new();
    if opts.keyword_idf {
        for j in 0..frequencies.len()
            invariant
                shown@ == frequencies@.take(j as int),
        {
            let ghost shown0 = shown@;
            shown.push(frequencies[j]);
            assert(frequencies@.take(j + 1) =~= shown0.push(frequencies@[j as int]));
        }
        assert(frequencies@.take(frequencies@.len() as int) =~= frequencies@);
        matched = match_terms(terms, low.as_str());
    }
    let g: usize = graph.count_for(
        c.document_id.as_str(),
        Ghost(store@),
        Ghost(namespace@),
        Ghost(graph_entities(query@, opts)),
    );
    let r = CodeSignals {
        hits,
        terms: words,
        candidates,
        frequencies: shown,
        matched,
        graph: g,
        max_graph: graph.highest,
        weights: if graph.highest > 0 {
            Some(weights(graph.highest))
        } else {
            None
        },
        prior: if opts.path_prior {
            path_prior(c.key.as_str())
        } else {
            100
        },
        defines: any_same(defining, c.document_id.as_str()),
    };
    assert(r@ =~= code_facts(store@, namespace@, query@, opts, rare, chunks, c@));
    r
}

/// Search over the chunks of code of a namespace: each chunk is scored by its similarity to the
/// query, by the query's words or terms it contains, by the prior of its path, and, as the options
/// say, by the symbols of the query that its document mentions. The result names the file and the
/// lines of each chunk.
pub fn search_code<E: Embedder, S: Scorer>(
    store: &Store,
    embedder: &E,
    scorer: &S,
    namespace: &str,
    query_text: &str,
    limit: usize,
    opts: CodeOptions,
) -> (r: Result<Vec<CodeHit>, Error>)
    ensures
        exists|q: Result<Vec<u32>, Error>, signature: String| #[trigger]
            embed_gives(embedder, query_text, q) && #[trigger] signature_gives(embedder, signature)
                && code_result(
                scorer,
                store@,
                namespace@,
                query_text@,
                signature@,
                opts,
                q,
                limit as int,
                r,
            ),
{
    let embedded = embedder.embed(query_text);
    let ghost outcome = embedded;
    assert(embed_gives(embedder, query_text, outcome));
    let signature = embedder.signature();
    assert(signature_gives(embedder, signature));
    match embedded {
        Err(e) => Err(e),
        Ok(q) => {
            let candidates = store.code_chunks_for_namespace(namespace, signature.as_str());
            let terms = query_terms(query_text);
            let frequencies = count_frequencies(&candidates, &terms);
            let rare = ask_rarity(scorer, opts, &candidates, &terms, &frequencies);
            let entities = if opts.graph {
                query_code_entities(query_text)
            } else {
                Vec::new()
            };
            assert(texts(entities@) =~= graph_entities(query_text@, opts));
            let graph = count_graph(store, namespace, &entities);
            let symbols = find_rare_symbols(query_text, &terms, &rare);
            let counts = store.docs_with_entities(namespace, &symbols);
            let ghost s = store@;
            let ghost ns = namespace@;
            let ghost chunks = code_chunk_rows(s, ns, signature@);
            let ghost defs = defining_docs(s, ns, query_text@, rare@);
            let mut defining: Vec<String> = Vec::new();
            assert(texts(defining@) =~= defs.take(0));
            for i in 0..counts.len()
                invariant
                    counts@.len() == defs.len(),
                    forall|i: int| 0 <= i < defs.len() ==> (#[trigger] counts@[i]).0@ == defs[i],
                    texts(defining@) == defs.take(i as int),
            {
                let ghost defining0 = defining@;
                let d = counts[i].0.clone();
                defining.push(d);
                proof {
                    assert(counts@[i as int].0@ == defs[i as int]);
                    lemma_texts_push(defining0, d);
                    assert(defs.take(i + 1) =~= defs.take(i as int).push(defs[i as int]));
                }
            }
            assert(defs.take(defs.len() as int) =~= defs);
            let n: usize = candidates.len();
            assert(rows(candidates@).len() == n);
            let mut scores: Vec<Score> = Vec::new();
            for i in 0..candidates.len()
                invariant
                    s == store@,
                    ns == namespace@,
                    chunks == rows(candidates@),
                    n == chunks.len(),
                    texts(terms@) == terms_of_query(query_text@),
                    frequencies@ == frequencies_of(chunks, terms_of_query(query_text@)),
                    counts_match(graph, s, ns, graph_entities(query_text@, opts)),
                    texts(defining@) == defining_docs(s, ns, query_text@, rare@),
                    scores@.len() == i,
                    forall|k: int|
                        0 <= k < i ==> code_scored(
                            scorer,
                            q,
                            chunks[k].embedding,
                            code_facts(s, ns, query_text@, opts, rare@, chunks, chunks[k]),
                            #[trigger] scores@[k],
                        ),
            {
                let c = &candidates[i];
                assert(c@ == chunks[i as int]);
                let v: u64 = scorer.cosine(&q, &c.embedding);
                let signals = signals_of(
                    store,
                    namespace,
                    query_text,
                    opts,
                    &terms,
                    &frequencies,
                    &graph,
                    &defining,
                    n,
                    c,
                    Ghost(rare@),
                    Ghost(chunks),
                );
                let score = scorer.code_score(v, &signals);
                proof {
                    assert(call_ensures(S::cosine, (scorer, &q, &c.embedding), v));
                    assert(cosine_gives(scorer, q, chunks[i as int].embedding, v));
                    assert(call_ensures(S::code_score, (scorer, v, &signals), score));
                    assert(code_scored(
                        scorer,
                        q,
                        chunks[i as int].embedding,
                        code_facts(s, ns, query_text@, opts, rare@, chunks, chunks[i as int]),
                        score,
                    ));
                }
                scores.push(score);
            }
            let r: Result<Vec<CodeHit>, Error> = Ok(
                rank_code(candidates, &scores, opts.min_score, limit),
            );
            assert(code_answer(
                scorer,
                s,
                ns,
                query_text@,
                signature@,
                opts,
                q,
                rare@,
                scores@,
                limit as int,
                rows(r->Ok_0@),
            ));
            assert(code_result(
                scorer,
                s,
                ns,
                query_text@,
                signature@,
                opts,
                outcome,
                limit as int,
                r,
            ));
            r
        },
    }
}

// ---------------------------------------------------------------------------------------------
// Laws.
// ---------------------------------------------------------------------------------------------

/// Law: a ranking of code comes best first and is no longer than asked for. It shows chunks with
/// their own scores, and none whose score is below the lowest that is shown; where it is long enough
/// to hold all chunks, it shows every other. A chunk that is left out for want of room scores no
/// higher than any that is shown.
pub proof fn law_code_ranking(chunks: Seq<CodeChunkDetail>, scores: Seq<Score>, min_score: u64, max: int)
    requires
        chunks.len() == scores.len(),
        0 <= max,
    ensures
        ({
            let r = code_ranking(chunks, scores, min_score, max);
            let all = chunk_hits(chunks, scores);
            &&& r.len() <= max
            &&& forall|i: int, j: int|
                0 <= i < j < r.len() ==> place((#[trigger] r[i]).score) >= place(
                    (#[trigger] r[j]).score,
                )
            &&& forall|i: int|
                0 <= i < r.len() ==> all.contains(#[trigger] r[i]) && is_shown(min_score)(r[i])
            &&& max >= chunks.len() ==> forall|k: int|
                0 <= k < chunks.len() && is_shown(min_score)(#[trigger] all[k]) ==> r.contains(all[k])
            &&& forall|k: int|
                0 <= k < chunks.len() && is_shown(min_score)(#[trigger] all[k]) && !r.contains(all[k])
                    ==> r.len() == max && forall|i: int|
                    0 <= i < r.len() ==> place((#[trigger] r[i]).score) >= place(all[k].score)
        }),
{
    broadcast use vstd::seq_lib::group_to_multiset_ensures;

    let all = chunk_hits(chunks, scores);
    let q = is_shown(min_score);
    let sorted = sorted_rows(all, code_order());
    assert(is_order(code_order()));
    law_sorted_rows(all, code_order());
    assert forall|x: ChunkHit| sorted.contains(x) <==> all.contains(x) by {
        assert(sorted.to_multiset().count(x) > 0 <==> sorted.contains(x));
        assert(all.to_multiset().count(x) > 0 <==> all.contains(x));
    }
    let sel = rows_where(sorted, q);
    lemma_rows_where_contains(sorted, q);
    lemma_rows_where_in_order(sorted, q, code_order());
    lemma_rows_where_len(sorted, q);
    let r = code_ranking(chunks, scores, min_score, max);
    assert forall|i: int, j: int| 0 <= i < j < r.len() implies place((#[trigger] r[i]).score) >= place(
        (#[trigger] r[j]).score,
    ) by {
        assert(r[i] == sel[i] && r[j] == sel[j]);
        assert(!code_order()(sel[j], sel[i]));
    }
    assert forall|i: int| 0 <= i < r.len() implies all.contains(#[trigger] r[i]) && q(r[i]) by {
        assert(r[i] == sel[i]);
        assert(sel.contains(sel[i]));
    }
    if max >= chunks.len() {
        assert(r =~= sel);
        assert forall|k: int| 0 <= k < chunks.len() && q(#[trigger] all[k]) implies r.contains(all[k]) by {
            assert(all.contains(all[k]));
            assert(sorted.contains(all[k]));
        }
    }
    assert forall|k: int| 0 <= k < chunks.len() && q(#[trigger] all[k]) && !r.contains(all[k]) implies r.len()
        == max && forall|i: int|
        0 <= i < r.len() ==> place((#[trigger] r[i]).score) >= place(all[k].score) by {
        assert(all.contains(all[k]));
        assert(sel.contains(all[k]));
        let m = choose|m: int| 0 <= m < sel.len() && sel[m] == all[k];
        if m < r.len() {
            assert(r[m] == sel[m]);
        }
        assert forall|i: int| 0 <= i < r.len() implies place((#[trigger] r[i]).score) >= place(
            all[k].score,
        ) by {
            assert(r[i] == sel[i]);
            assert(!code_order()(sel[m], sel[i]));
        }
    }
}

/// Law: a question that no chunk answers well enough is answered with nothing.
pub proof fn law_abstains(chunks: Seq<CodeChunkDetail>, scores: Seq<Score>, min_score: u64, max: int)
    requires
        chunks.len() == scores.len(),
        0 <= max,
        is_above(min_score, 0),
        forall|i: int| 0 <= i < scores.len() ==> place((#[trigger] scores[i]).score) < place(min_score),
    ensures
        code_ranking(chunks, scores, min_score, max).len() == 0,
{
    law_code_ranking(chunks, scores, min_score, max);
    let r = code_ranking(chunks, scores, min_score, max);
    if r.len() > 0 {
        let all = chunk_hits(chunks, scores);
        assert(all.contains(r[0]));
        let k = choose|k: int| 0 <= k < all.len() && all[k] == r[0];
        assert(scores[k].score == r[0].score);
    }
}

/// Law: matching ignores case. Chunks whose texts differ in case only are credited with the same words and
/// terms. A term is matched where the lowercase text contains it, and its frequency is the number of
/// candidates that match it; a chunk is credited with all words of the query if and only if it contains
/// each of them, and with none if and only if it contains none.
pub proof fn law_code_matching(
    s: State,
    ns: Seq<char>,
    query: Seq<char>,
    opts: CodeOptions,
    rare: Seq<bool>,
    chunks: Seq<CodeChunkDetail>,
    a: CodeChunkDetail,
    b: CodeChunkDetail,
)
    requires
        chunks.len() <= usize::MAX,
    ensures
        ({
            let f = code_facts(s, ns, query, opts, rare, chunks, a);
            let g = code_facts(s, ns, query, opts, rare, chunks, b);
            let words = words_text(lowercase(query));
            let terms = terms_of_query(query);
            &&& lowercase(a.text) == lowercase(b.text) ==> f.hits == g.hits && f.matched == g.matched
            &&& f.candidates == chunks.len()
            &&& f.terms == words.len()
            &&& f.hits <= f.terms
            &&& f.hits == f.terms <==> forall|j: int|
                0 <= j < words.len() ==> contains_text(lowercase(a.text), #[trigger] words[j])
            &&& f.hits == 0 <==> forall|j: int|
                0 <= j < words.len() ==> !contains_text(lowercase(a.text), #[trigger] words[j])
            &&& opts.keyword_idf ==> f.matched.len() == terms.len() && f.frequencies.len() == terms.len()
            &&& opts.keyword_idf ==> forall|j: int|
                0 <= j < terms.len() ==> (#[trigger] f.matched[j] <==> contains_text(
                    lowercase(a.text),
                    terms[j],
                ))
            &&& opts.keyword_idf ==> forall|j: int|
                0 <= j < terms.len() ==> #[trigger] f.frequencies[j] == rows_where(
                    chunks,
                    |c: CodeChunkDetail| code_facts(s, ns, query, opts, rare, chunks, c).matched[j],
                ).len()
            &&& !opts.keyword_idf ==> f.matched.len() == 0 && f.frequencies.len() == 0
        }),
{
    let f = code_facts(s, ns, query, opts, rare, chunks, a);
    let terms = terms_of_query(query);
    law_terms_found(words_text(lowercase(query)), lowercase(a.text), lowercase(b.text));
    if opts.keyword_idf {
        assert forall|j: int| 0 <= j < terms.len() implies #[trigger] f.frequencies[j] == rows_where(
            chunks,
            |c: CodeChunkDetail| code_facts(s, ns, query, opts, rare, chunks, c).matched[j],
        ).len() by {
            let p = |c: CodeChunkDetail| code_facts(s, ns, query, opts, rare, chunks, c).matched[j];
            let q = |c: CodeChunkDetail| contains_text(lowercase(c.text), terms[j]);
            assert forall|c: CodeChunkDetail| #[trigger] p(c) == q(c) by {
                assert(code_facts(s, ns, query, opts, rare, chunks, c).matched[j] == contains_text(
                    lowercase(c.text),
                    terms[j],
                ));
            }
            assert(p =~= q);
            lemma_rows_where_len(chunks, q);
        }
    }
}

/// Law: a chunk of ASCII text that contains a term of the query in any case has that term matched.
pub proof fn law_term_matched_in_any_case(
    s: State,
    ns: Seq<char>,
    query: Seq<char>,
    opts: CodeOptions,
    rare: Seq<bool>,
    chunks: Seq<CodeChunkDetail>,
    a: CodeChunkDetail,
    j: int,
    at: int,
)
    requires
        opts.keyword_idf,
        0 <= j < terms_of_query(query).len(),
        is_ascii_text(a.text),
        0 <= at && at + terms_of_query(query)[j].len() <= a.text.len(),
        ascii_lower_text(a.text.subrange(at, at + terms_of_query(query)[j].len()))
            == terms_of_query(query)[j],
    ensures
        code_facts(s, ns, query, opts, rare, chunks, a).matched[j],
{
    let t = terms_of_query(query)[j];
    let low = lowercase(a.text);
    assert(low.subrange(at, at + t.len()) =~= t) by {
        assert forall|k: int| 0 <= k < t.len() implies low.subrange(at, at + t.len())[k] == #[trigger] t[k] by {
            assert(ascii_lower_text(a.text.subrange(at, at + t.len()))[k] == ascii_lower_char(
                a.text.subrange(at, at + t.len())[k],
            ));
        }
    }
    assert(occurs_at(low, t, at));
}

/// Law: the symbols of the query count where the options say so, and only there: a chunk's document counts
/// if it mentions a name of the query as a symbol or as an import. Counts are compared with the highest
/// that any document has, and weigh in only where that is above 0. The prior of the path counts where the
/// options say so.
pub proof fn law_code_graph_facts(
    s: State,
    ns: Seq<char>,
    query: Seq<char>,
    opts: CodeOptions,
    rare: Seq<bool>,
    chunks: Seq<CodeChunkDetail>,
    a: CodeChunkDetail,
)
    ensures
        ({
            let f = code_facts(s, ns, query, opts, rare, chunks, a);
            &&& !opts.graph ==> f.graph == 0 && f.max_graph == 0 && f.weights is None
            &&& f.graph <= f.max_graph
            &&& opts.graph ==> (f.graph > 0 <==> exists|i: int, k: int|
                #![trigger s.mentions[i], names_in(query)[k]]
                0 <= i < s.mentions.len() && 0 <= k < names_in(query).len() && s.mentions[i].namespace == ns
                    && s.mentions[i].document_id == a.document_id && (s.mentions[i].entity_id == "sym:"@
                    + names_in(query)[k] || s.mentions[i].entity_id == "import:"@ + names_in(query)[k]))
            &&& f.weights is Some <==> f.max_graph > 0
            &&& f.weights is Some ==> (f.weights->0).graph == 55 && (f.weights->0).vector == 30 && (
            f.weights->0).keyword == 15
            &&& opts.path_prior ==> f.prior == prior_of(a.key)
            &&& !opts.path_prior ==> f.prior == 100
        }),
{
    let f = code_facts(s, ns, query, opts, rare, chunks, a);
    let entities = graph_entities(query, opts);
    law_most_mentions(s, ns, entities);
    law_mentions_counted(s, ns, entities);
    let d = a.document_id;
    if opts.graph {
        law_once_each(code_entities_of(names_in(query)));
        law_code_entities(names_in(query));
        lemma_counts_any(s, ns, d, entities);
        if exists|i: int| mentions_at(s, ns, d, entities, i) {
            let i = choose|i: int| mentions_at(s, ns, d, entities, i);
            let e = s.mentions[i].entity_id;
            assert(code_entities_of(names_in(query)).contains(e));
            let k = choose|k: int|
                0 <= k < names_in(query).len() && (e == "sym:"@ + #[trigger] names_in(query)[k] || e
                    == "import:"@ + names_in(query)[k]);
            assert(s.mentions[i].entity_id == "sym:"@ + names_in(query)[k] || s.mentions[i].entity_id
                == "import:"@ + names_in(query)[k]);
        }
        if exists|i: int, k: int|
            #![trigger s.mentions[i], names_in(query)[k]]
            0 <= i < s.mentions.len() && 0 <= k < names_in(query).len() && s.mentions[i].namespace == ns
                && s.mentions[i].document_id == d && (s.mentions[i].entity_id == "sym:"@ + names_in(query)[k]
                || s.mentions[i].entity_id == "import:"@ + names_in(query)[k]) {
            let (i, k) = choose|i: int, k: int|
                #![trigger s.mentions[i], names_in(query)[k]]
                0 <= i < s.mentions.len() && 0 <= k < names_in(query).len() && s.mentions[i].namespace == ns
                    && s.mentions[i].document_id == d && (s.mentions[i].entity_id == "sym:"@ + names_in(query)[k]
                    || s.mentions[i].entity_id == "import:"@ + names_in(query)[k]);
            assert(code_entities_of(names_in(query)).contains(s.mentions[i].entity_id));
            assert(mentions_at(s, ns, d, entities, i));
        }
    } else {
        lemma_counts_any(s, ns, d, entities);
        if most_mentions(s, ns, entities) > 0 {
            let x = choose|x: Seq<char>| #[trigger]
                mention_count(s, ns, x, entities) == most_mentions(s, ns, entities);
            lemma_counts_any(s, ns, x, entities);
            let i = choose|i: int| mentions_at(s, ns, x, entities, i);
            assert(entities.contains(s.mentions[i].entity_id));
        }
    }
}

/// Whether a mention is one of these entities in a document.
spec fn mentions_at(s: State, ns: Seq<char>, d: Seq<char>, entities: Seq<Seq<char>>, i: int) -> bool {
    0 <= i < s.mentions.len() && s.mentions[i].namespace == ns && s.mentions[i].document_id == d
        && entities.contains(s.mentions[i].entity_id)
}

proof fn lemma_counts_any(s: State, ns: Seq<char>, d: Seq<char>, entities: Seq<Seq<char>>)
    ensures
        mention_count(s, ns, d, entities) > 0 <==> exists|i: int| mentions_at(s, ns, d, entities, i),
{
    let here = rows_where(s.mentions, mention_in_doc(ns, d, entities));
    let ids = entity_ids(here);
    lemma_rows_where_contains(s.mentions, mention_in_doc(ns, d, entities));
    law_once_each(ids);
    if exists|i: int| mentions_at(s, ns, d, entities, i) {
        let i = choose|i: int| mentions_at(s, ns, d, entities, i);
        assert(s.mentions.contains(s.mentions[i]));
        assert(here.contains(s.mentions[i]));
        let k = choose|k: int| 0 <= k < here.len() && here[k] == s.mentions[i];
        assert(ids[k] == s.mentions[i].entity_id);
        assert(ids.contains(ids[k]));
        assert(once_each(ids).contains(ids[k]));
    }
    if mention_count(s, ns, d, entities) > 0 {
        let e = once_each(ids)[0];
        assert(once_each(ids).contains(e));
        let k = choose|k: int| 0 <= k < ids.len() && ids[k] == e;
        assert(here.contains(here[k]));
        let i = choose|i: int| 0 <= i < s.mentions.len() && s.mentions[i] == here[k];
        assert(mentions_at(s, ns, d, entities, i));
    }
}

/// Law: a document is taken to define what the query asks for if and only if it mentions, as a symbol, a
/// name of the query whose lowercase form is a rare term.
pub proof fn law_code_defines(
    s: State,
    ns: Seq<char>,
    query: Seq<char>,
    opts: CodeOptions,
    rare: Seq<bool>,
    chunks: Seq<CodeChunkDetail>,
    a: CodeChunkDetail,
)
    requires
        rare.len() == terms_of_query(query).len(),
    ensures
        code_facts(s, ns, query, opts, rare, chunks, a).defines <==> exists|i: int, k: int, j: int|
            #![trigger s.mentions[i], names_in(query)[k], rare[j]]
            0 <= i < s.mentions.len() && 0 <= k < names_in(query).len() && 0 <= j < rare.len() && rare[j]
                && terms_of_query(query)[j] == lowercase(names_in(query)[k]) && s.mentions[i].namespace == ns
                && s.mentions[i].document_id == a.document_id && s.mentions[i].entity_id == "sym:"@
                + names_in(query)[k],
{
    let names = names_in(query);
    let kept = rows_where(names, is_rare_name(query, rare));
    let once = once_each(kept);
    let syms = rare_symbols(query, rare);
    let d = a.document_id;
    lemma_rows_where_contains(names, is_rare_name(query, rare));
    law_once_each(kept);
    law_mentions_counted(s, ns, syms);
    if code_facts(s, ns, query, opts, rare, chunks, a).defines {
        let i = choose|i: int|
            0 <= i < s.mentions.len() && (#[trigger] s.mentions[i]).namespace == ns && s.mentions[i].document_id
                == d && syms.contains(s.mentions[i].entity_id);
        let z = choose|z: int| 0 <= z < syms.len() && syms[z] == s.mentions[i].entity_id;
        assert(once.contains(once[z]));
        assert(kept.contains(once[z]));
        assert(names.contains(once[z]) && is_rare_name(query, rare)(once[z]));
        let k = choose|k: int| 0 <= k < names.len() && names[k] == once[z];
        let j = choose|j: int|
            0 <= j < terms_of_query(query).len() && rare[j] && #[trigger] terms_of_query(query)[j] == lowercase(
                once[z],
            );
        assert(s.mentions[i].entity_id == "sym:"@ + names_in(query)[k] && rare[j]);
    }
    if exists|i: int, k: int, j: int|
        #![trigger s.mentions[i], names_in(query)[k], rare[j]]
        0 <= i < s.mentions.len() && 0 <= k < names_in(query).len() && 0 <= j < rare.len() && rare[j]
            && terms_of_query(query)[j] == lowercase(names_in(query)[k]) && s.mentions[i].namespace == ns
            && s.mentions[i].document_id == d && s.mentions[i].entity_id == "sym:"@ + names_in(query)[k] {
        let (i, k, j) = choose|i: int, k: int, j: int|
            #![trigger s.mentions[i], names_in(query)[k], rare[j]]
            0 <= i < s.mentions.len() && 0 <= k < names_in(query).len() && 0 <= j < rare.len() && rare[j]
                && terms_of_query(query)[j] == lowercase(names_in(query)[k]) && s.mentions[i].namespace == ns
                && s.mentions[i].document_id == d && s.mentions[i].entity_id == "sym:"@ + names_in(query)[k];
        assert(is_rare_name(query, rare)(names[k]));
        assert(names.contains(names[k]));
        assert(kept.contains(names[k]));
        assert(once.contains(names[k]));
        let z = choose|z: int| 0 <= z < once.len() && once[z] == names[k];
        assert(syms[z] == "sym:"@ + names[k]);
        assert(syms.contains(s.mentions[i].entity_id));
    }
}

/// Whether row `x` of a store's chunks is code that a search of a namespace by one model sees: the model has
/// embedded it, it has a line range, and row `d` of the documents is the document it belongs to.
pub open spec fn searched_at(s: State, ns: Seq<char>, signature: Seq<char>, x: int, d: int) -> bool {
    &&& 0 <= x < s.chunks.len() && 0 <= d < s.docs.len()
    &&& s.chunks[x].namespace == ns
    &&& s.chunks[x].signature == signature
    &&& s.chunks[x].line_start is Some
    &&& s.docs[d].namespace == ns
    &&& s.docs[d].document_id == s.chunks[x].document_id
}

/// Whether a hit tells where a chunk of code stands and what it says.
pub open spec fn tells_chunk(h: ChunkHit, c: Chunk, path: Seq<char>) -> bool {
    &&& h.path == path
    &&& h.document_id == c.document_id
    &&& h.line_start == c.line_start
    &&& h.line_end == c.line_end
    &&& h.snippet == c.text
}

/// A stored chunk of code under the key of its document.
pub open spec fn row_of(c: Chunk, key: Seq<char>) -> CodeChunkDetail {
    CodeChunkDetail {
        key,
        document_id: c.document_id,
        text: c.text,
        embedding: c.embedding,
        line_start: c.line_start,
        line_end: c.line_end,
    }
}

/// Whether a scorer gives a chunk these scores for a query: on the similarity of the query's vector and the
/// chunk's, and on what the two have in common.
pub open spec fn scored_by<S: Scorer>(
    scorer: &S,
    query: Vec<u32>,
    c: Chunk,
    facts: CodeFacts,
    vector: Vec<u32>,
    v: u64,
    signals: CodeSignals,
    score: Score,
) -> bool {
    &&& vector@ == c.embedding
    &&& call_ensures(S::cosine, (scorer, &query, &vector), v)
    &&& signals@ == facts
    &&& call_ensures(S::code_score, (scorer, v, &signals), score)
}

/// Whether row `k` of the code that a search sees is row `x` of the chunks, under the key of row `d` of the
/// documents.
spec fn row_at(s: State, ns: Seq<char>, signature: Seq<char>, k: int, x: int, d: int) -> bool {
    &&& searched_at(s, ns, signature, x, d)
    &&& 0 <= k < code_chunk_rows(s, ns, signature).len()
    &&& code_chunk_rows(s, ns, signature)[k] == row_of(s.chunks[x], s.docs[d].key)
}

proof fn lemma_row_stored(s: State, ns: Seq<char>, signature: Seq<char>, k: int) -> (xd: (int, int))
    requires
        0 <= k < code_chunk_rows(s, ns, signature).len(),
    ensures
        row_at(s, ns, signature, k, xd.0, xd.1),
{
    let q = is_code_chunk(s, ns, signature);
    let sel = rows_where(s.chunks, q);
    lemma_rows_where_contains(s.chunks, q);
    assert(sel.contains(sel[k]));
    let x = choose|x: int| 0 <= x < s.chunks.len() && s.chunks[x] == sel[k];
    lemma_first_row(s.docs, doc_has_id(ns, sel[k].document_id));
    let v = first_row(s.docs, doc_has_id(ns, sel[k].document_id))->0;
    let d = choose|d: int| 0 <= d < s.docs.len() && #[trigger] s.docs[d] == v;
    (x, d)
}

proof fn lemma_stored_row(s: State, ns: Seq<char>, signature: Seq<char>, x: int, d: int) -> (k: int)
    requires
        s.wf(),
        searched_at(s, ns, signature, x, d),
    ensures
        row_at(s, ns, signature, k, x, d),
{
    let q = is_code_chunk(s, ns, signature);
    let sel = rows_where(s.chunks, q);
    lemma_rows_where_contains(s.chunks, q);
    let c = s.chunks[x];
    lemma_first_row(s.docs, doc_has_id(ns, c.document_id));
    assert(doc_has_id(ns, c.document_id)(s.docs[d]));
    let v = first_row(s.docs, doc_has_id(ns, c.document_id))->0;
    let e = choose|e: int|
        0 <= e < s.docs.len() && #[trigger] s.docs[e] == v && doc_has_id(ns, c.document_id)(v);
    if e < d {
        assert(doc_id_key()(s.docs[e]) != doc_id_key()(s.docs[d]));
    } else if d < e {
        assert(doc_id_key()(s.docs[d]) != doc_id_key()(s.docs[e]));
    }
    assert(q(c));
    assert(s.chunks.contains(c));
    assert(sel.contains(c));
    choose|k: int| 0 <= k < sel.len() && sel[k] == c
}

proof fn lemma_row_scored<S: Scorer>(
    scorer: &S,
    s: State,
    ns: Seq<char>,
    text: Seq<char>,
    signature: Seq<char>,
    opts: CodeOptions,
    query: Vec<u32>,
    rare: Seq<bool>,
    score: Score,
    k: int,
    x: int,
    d: int,
)
    requires
        row_at(s, ns, signature, k, x, d),
        code_scored(
            scorer,
            query,
            code_chunk_rows(s, ns, signature)[k].embedding,
            code_facts(
                s,
                ns,
                text,
                opts,
                rare,
                code_chunk_rows(s, ns, signature),
                code_chunk_rows(s, ns, signature)[k],
            ),
            score,
        ),
    ensures
        exists|vector: Vec<u32>, v: u64, signals: CodeSignals| #[trigger]
            scored_by(
                scorer,
                query,
                s.chunks[x],
                told(s, ns, text, signature, opts, rare, x, d),
                vector,
                v,
                signals,
                score,
            ),
{
    let facts = told(s, ns, text, signature, opts, rare, x, d);
    let c = s.chunks[x];
    let (v, signals) = choose|v: u64, signals: CodeSignals|
        cosine_gives(scorer, query, c.embedding, v) && signals@ == facts && #[trigger] call_ensures(
            S::code_score,
            (scorer, v, &signals),
            score,
        );
    let vector = choose|vector: Vec<u32>|
        vector@ == c.embedding && #[trigger] call_ensures(S::cosine, (scorer, &query, &vector), v);
    assert(scored_by(scorer, query, c, facts, vector, v, signals, score));
}

/// What a stored chunk of code has in common with a query, among all chunks that the search sees.
pub open spec fn told(
    s: State,
    ns: Seq<char>,
    text: Seq<char>,
    signature: Seq<char>,
    opts: CodeOptions,
    rare: Seq<bool>,
    x: int,
    d: int,
) -> CodeFacts {
    code_facts(
        s,
        ns,
        text,
        opts,
        rare,
        code_chunk_rows(s, ns, signature),
        row_of(s.chunks[x], s.docs[d].key),
    )
}

/// Whether a hit shows row `x` of the chunks, of the document in row `d`, with a score that the scorer gave
/// to it.
pub open spec fn shows<S: Scorer>(
    scorer: &S,
    s: State,
    ns: Seq<char>,
    text: Seq<char>,
    signature: Seq<char>,
    opts: CodeOptions,
    query: Vec<u32>,
    rare: Seq<bool>,
    h: ChunkHit,
    x: int,
    d: int,
) -> bool {
    &&& searched_at(s, ns, signature, x, d)
    &&& tells_chunk(h, s.chunks[x], s.docs[d].key)
    &&& exists|vector: Vec<u32>, v: u64, signals: CodeSignals, score: Score| #[trigger]
        scored_by(
            scorer,
            query,
            s.chunks[x],
            told(s, ns, text, signature, opts, rare, x, d),
            vector,
            v,
            signals,
            score,
        ) && h.score == score.score && h.vector == score.vector && h.keyword == score.keyword
}

/// Law: a search for code shows stored chunks of its namespace that the same model has embedded, and nothing
/// else: each with the path of its document, its lines and its text, and with the score that the scorer
/// gave to it. The best come first, none is below the floor, and there are no more than asked for.
pub proof fn law_search_code_shows_stored<S: Scorer>(
    scorer: &S,
    s: State,
    ns: Seq<char>,
    text: Seq<char>,
    signature: Seq<char>,
    opts: CodeOptions,
    query: Vec<u32>,
    rare: Seq<bool>,
    scores: Seq<Score>,
    max: int,
    hits: Seq<ChunkHit>,
    n: int,
)
    requires
        0 <= max,
        code_answer(scorer, s, ns, text, signature, opts, query, rare, scores, max, hits),
    ensures
        hits.len() <= max,
        forall|i: int, j: int|
            0 <= i < j < hits.len() ==> place((#[trigger] hits[i]).score) >= place((#[trigger] hits[j]).score),
        forall|i: int|
            0 <= i < hits.len() && is_above(opts.min_score, 0) ==> is_number((#[trigger] hits[i]).score)
                && place(hits[i].score) >= place(opts.min_score),
        0 <= n < hits.len() ==> exists|x: int, d: int| #[trigger]
            shows(scorer, s, ns, text, signature, opts, query, rare, hits[n], x, d),
{
    let rows = code_chunk_rows(s, ns, signature);
    let all = chunk_hits(rows, scores);
    law_code_ranking(rows, scores, opts.min_score, max);
    assert forall|i: int|
        0 <= i < hits.len() && is_above(opts.min_score, 0) implies is_number((#[trigger] hits[i]).score) && place(
    hits[i].score) >= place(opts.min_score) by {
        assert(is_shown(opts.min_score)(hits[i]));
    }
    if 0 <= n < hits.len() {
        let h = hits[n];
        assert(all.contains(h));
        let k = choose|k: int| 0 <= k < all.len() && all[k] == h;
        let (x, d) = lemma_row_stored(s, ns, signature, k);
        assert(code_scored(
            scorer,
            query,
            rows[k].embedding,
            code_facts(s, ns, text, opts, rare, rows, rows[k]),
            scores[k],
        ));
        lemma_row_scored(scorer, s, ns, text, signature, opts, query, rare, scores[k], k, x, d);
        assert(shows(scorer, s, ns, text, signature, opts, query, rare, h, x, d));
    }
}

/// Law: a search for code leaves out none of the stored chunks that it sees but those below the floor, and,
/// where it is full, those that score no higher than any that is shown.
pub proof fn law_search_code_leaves_out_the_lowest<S: Scorer>(
    scorer: &S,
    s: State,
    ns: Seq<char>,
    text: Seq<char>,
    signature: Seq<char>,
    opts: CodeOptions,
    query: Vec<u32>,
    rare: Seq<bool>,
    scores: Seq<Score>,
    max: int,
    hits: Seq<ChunkHit>,
    x: int,
    d: int,
)
    requires
        s.wf(),
        0 <= max,
        code_answer(scorer, s, ns, text, signature, opts, query, rare, scores, max, hits),
        searched_at(s, ns, signature, x, d),
        forall|i: int|
            0 <= i < hits.len() ==> !tells_chunk(#[trigger] hits[i], s.chunks[x], s.docs[d].key),
    ensures
        exists|vector: Vec<u32>, v: u64, signals: CodeSignals, score: Score| #[trigger]
            scored_by(
                scorer,
                query,
                s.chunks[x],
                told(s, ns, text, signature, opts, rare, x, d),
                vector,
                v,
                signals,
                score,
            ) && ((is_above(opts.min_score, 0) && !(is_number(score.score) && place(score.score) >= place(
                opts.min_score,
            ))) || (hits.len() == max && forall|i: int|
                0 <= i < hits.len() ==> place((#[trigger] hits[i]).score) >= place(score.score))),
{
    let rows = code_chunk_rows(s, ns, signature);
    let all = chunk_hits(rows, scores);
    law_code_ranking(rows, scores, opts.min_score, max);
    let k = lemma_stored_row(s, ns, signature, x, d);
    assert(code_scored(
        scorer,
        query,
        rows[k].embedding,
        code_facts(s, ns, text, opts, rare, rows, rows[k]),
        scores[k],
    ));
    lemma_row_scored(scorer, s, ns, text, signature, opts, query, rare, scores[k], k, x, d);
    let (vector, v, signals) = choose|vector: Vec<u32>, v: u64, signals: CodeSignals| #[trigger]
        scored_by(
            scorer,
            query,
            s.chunks[x],
            told(s, ns, text, signature, opts, rare, x, d),
            vector,
            v,
            signals,
            scores[k],
        );
    if hits.contains(all[k]) {
        let i = choose|i: int| 0 <= i < hits.len() && hits[i] == all[k];
        assert(tells_chunk(hits[i], s.chunks[x], s.docs[d].key));
    }
    assert(all[k].score == scores[k].score);
    if is_shown(opts.min_score)(all[k]) {
        assert(hits.len() == max);
    }
}

} // verus!
