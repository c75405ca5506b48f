//! Scores and the order they put results in.
//!
//! A score is a 64-bit float, held as its bit pattern. What is computed on floats comes from a
//! [`Scorer`]; how scores rank results is decided here.

use crate::table::{
    first_rows, in_order, is_order, law_sorted_rows, lemma_rows_push, limit, rows, sort, sorted_rows,
};
use crate::text::{same, texts};
use vstd::prelude::*;

verus! {

/// The bits of the most negative finite float.
pub const LOWEST: u64 = 0xffef_ffff_ffff_ffff;

/// The bits of 1.0.
pub const ONE: u64 = 0x3ff0_0000_0000_0000;

/// The place of a float in the order of floats, by its bits: sign and magnitude.
pub open spec fn place(bits: u64) -> int {
    if bits < 0x8000_0000_0000_0000 {
        bits as int
    } else {
        0x8000_0000_0000_0000 - bits
    }
}

/// Whether the bits are those of a number.
pub open spec fn is_number(bits: u64) -> bool {
    -0x7ff0_0000_0000_0000 <= place(bits) <= 0x7ff0_0000_0000_0000
}

/// Whether the first float is above the second; what is no number is above nothing and below
/// nothing.
pub open spec fn is_above(a: u64, b: u64) -> bool {
    is_number(a) && is_number(b) && place(a) > place(b)
}

fn place_of(bits: u64) -> (r: i128)
    ensures
        r == place(bits),
{
    if bits < 0x8000_0000_0000_0000 {
        bits as i128
    } else {
        0x8000_0000_0000_0000i128 - (bits as i128)
    }
}

pub fn above(a: u64, b: u64) -> (r: bool)
    ensures
        r == is_above(a, b),
{
    let x: i128 = place_of(a);
    let y: i128 = place_of(b);
    let top: i128 = 0x7ff0_0000_0000_0000;
    -top <= x && x <= top && -top <= y && y <= top && x > y
}

/// Whether a float comes before another in a ranking, highest first.
pub fn ranks_before(a: u64, b: u64) -> (r: bool)
    ensures
        r == (place(a) > place(b)),
{
    place_of(a) > place_of(b)
}

/// A blended score with its parts, as the bits of floats.
#[derive(Debug, Clone, Copy, PartialEq, Eq, Structural)]
pub struct Score {
    pub score: u64,
    pub vector: u64,
    pub keyword: u64,
    pub graph: u64,
}

/// The weights of the signals, in hundredths.
#[derive(Debug, Clone, Copy, PartialEq, Eq, Structural)]
pub struct Weights {
    pub graph: u32,
    pub vector: u32,
    pub keyword: u32,
}

/// The weights that apply where entities of the query are mentioned, and where none is.
pub open spec fn weights_for(max_graph: nat) -> Weights {
    if max_graph > 0 {
        Weights { graph: 55, vector: 30, keyword: 15 }
    } else {
        Weights { graph: 0, vector: 65, keyword: 35 }
    }
}

pub fn weights(max_graph: usize) -> (r: Weights)
    ensures
        r == weights_for(max_graph as nat),
        r.graph + r.vector + r.keyword == 100,
{
    if max_graph > 0 {
        Weights { graph: 55, vector: 30, keyword: 15 }
    } else {
        Weights { graph: 0, vector: 65, keyword: 35 }
    }
}

/// A document with the best score of its chunks.
#[derive(Debug, Clone)]
pub struct Ranked {
    pub document_id: String,
    pub score: Score,
}

/// What a ranked document holds.
#[verifier::ext_equal]
pub struct Rank {
    pub document_id: Seq<char>,
    pub score: Score,
}

impl View for Ranked {
    type V = Rank;

    open spec fn view(&self) -> Rank {
        Rank { document_id: self.document_id@, score: self.score }
    }
}

/// Where a document stands among the ranks: the index of its rank, or their number.
pub open spec fn rank_index(ranks: Seq<Rank>, doc: Seq<char>) -> int
    decreases ranks.len(),
{
    if ranks.len() == 0 {
        0
    } else if rank_index(ranks.drop_last(), doc) < ranks.len() - 1 {
        rank_index(ranks.drop_last(), doc)
    } else if ranks.last().document_id == doc {
        ranks.len() - 1
    } else {
        ranks.len() as int
    }
}

/// The ranks after one more chunk of `doc` was scored: a document starts from the lowest float,
/// and takes a score that is above the one it has.
pub open spec fn rank_raised(ranks: Seq<Rank>, doc: Seq<char>, score: Score) -> Seq<Rank> {
    let i = rank_index(ranks, doc);
    let had = if i < ranks.len() {
        ranks[i].score
    } else {
        Score { score: LOWEST, vector: 0, keyword: 0, graph: 0 }
    };
    let now = Rank {
        document_id: doc,
        score: if is_above(score.score, had.score) {
            score
        } else {
            had
        },
    };
    if i < ranks.len() {
        ranks.update(i, now)
    } else {
        ranks.push(now)
    }
}

/// The documents of the chunks, each with the best score of its chunks, in the order in which
/// they come.
pub open spec fn best_ranks(docs: Seq<Seq<char>>, scores: Seq<Score>) -> Seq<Rank>
    decreases docs.len(),
{
    if docs.len() == 0 {
        Seq::empty()
    } else {
        rank_raised(best_ranks(docs.drop_last(), scores), docs.last(), scores[docs.len() - 1])
    }
}

/// Higher scores come first.
pub open spec fn rank_order() -> spec_fn(Rank, Rank) -> bool {
    |a: Rank, b: Rank| place(a.score.score) > place(b.score.score)
}

/// The `max` best documents, best first.
pub open spec fn ranking(docs: Seq<Seq<char>>, scores: Seq<Score>, max: int) -> Seq<Rank> {
    first_rows(sorted_rows(best_ranks(docs, scores), rank_order()), max)
}

pub proof fn lemma_rank_index(ranks: Seq<Rank>, doc: Seq<char>)
    ensures
        0 <= rank_index(ranks, doc) <= ranks.len(),
        rank_index(ranks, doc) < ranks.len() ==> ranks[rank_index(ranks, doc)].document_id == doc,
        rank_index(ranks, doc) == ranks.len() ==> forall|i: int|
            0 <= i < ranks.len() ==> (#[trigger] ranks[i]).document_id != doc,
    decreases ranks.len(),
{
    if ranks.len() > 0 {
        let head = ranks.drop_last();
        lemma_rank_index(head, doc);
        assert forall|i: int| 0 <= i < head.len() implies head[i] == #[trigger] ranks[i] by {}
    }
}

proof fn lemma_rank_index_at(ranks: Seq<Rank>, doc: Seq<char>, i: int)
    requires
        0 <= i < ranks.len(),
        ranks[i].document_id == doc,
        forall|k: int| 0 <= k < i ==> (#[trigger] ranks[k]).document_id != doc,
    ensures
        rank_index(ranks, doc) == i,
    decreases ranks.len(),
{
    lemma_rank_index(ranks.drop_last(), doc);
    if i < ranks.len() - 1 {
        lemma_rank_index_at(ranks.drop_last(), doc, i);
    }
}

/// Ranks documents by the best of their chunks' scores: the chunk at each place belongs to the
/// document `docs` names there.
pub fn rank_documents(docs: &Vec<String>, scores: &Vec<Score>, max: usize) -> (r: Vec<Ranked>)
    requires
        docs@.len() == scores@.len(),
    ensures
        rows(r@) == ranking(texts(docs@), scores@, max as int),
{
    let mut out: Vec<Ranked> = Vec::new();
    let ghost all = texts(docs@);
    assert(all.take(0) =~= Seq::<Seq<char>>::empty());
    assert(rows(out@) =~= Seq::<Rank>::empty());
    for n in 0..docs.len()
        invariant
            docs@.len() == scores@.len(),
            all == texts(docs@),
            rows(out@) == best_ranks(all.take(n as int), scores@),
    {
        proof {
            assert(all.take(n + 1).drop_last() =~= all.take(n as int));
            assert(all.take(n + 1).last() == all[n as int]);
        }
        let doc = docs[n].as_str();
        let score = scores[n];
        let mut i: usize = 0;
        while i < out.len() && !same(out[i].document_id.as_str(), doc)
            invariant
                i <= out@.len(),
                forall|k: int| 0 <= k < i ==> (#[trigger] rows(out@)[k]).document_id != doc@,
            decreases out@.len() - i,
        {
            assert(rows(out@)[i as int].document_id == out@[i as int].document_id@);
            i += 1;
        }
        let ghost ranks = rows(out@);
        proof {
            lemma_rank_index(ranks, doc@);
            if i < out@.len() {
                assert(ranks[i as int].document_id == doc@);
                lemma_rank_index_at(ranks, doc@, i as int);
            }
        }
        if i < out.len() {
            if above(score.score, out[i].score.score) {
                let item = Ranked { document_id: docs[n].clone(), score };
                out.set(i, item);
            }
            assert(rows(out@) =~= rank_raised(ranks, doc@, score));
        } else {
            let had = Score { score: LOWEST, vector: 0, keyword: 0, graph: 0 };
            let ghost out0 = out@;
            let item = Ranked {
                document_id: docs[n].clone(),
                score: if above(score.score, LOWEST) {
                    score
                } else {
                    had
                },
            };
            out.push(item);
            proof {
                lemma_rows_push(out0, item);
            }
        }
    }
    assert(all.take(all.len() as int) =~= all);
    sort(
        &mut out,
        |a: &Ranked, b: &Ranked| -> (r: bool)
            ensures
                r == (place(a@.score.score) > place(b@.score.score))
        { ranks_before(a.score.score, b.score.score) },
        Ghost(rank_order()),
    );
    limit(&mut out, max);
    out
}

proof fn lemma_best_ranks(docs: Seq<Seq<char>>, scores: Seq<Score>)
    requires
        docs.len() <= scores.len(),
    ensures
        forall|i: int, j: int|
            0 <= i < j < best_ranks(docs, scores).len() ==> (#[trigger] best_ranks(
                docs,
                scores,
            )[i]).document_id != (#[trigger] best_ranks(docs, scores)[j]).document_id,
        forall|k: int|
            0 <= k < docs.len() ==> exists|i: int|
                0 <= i < best_ranks(docs, scores).len() && (#[trigger] best_ranks(
                    docs,
                    scores,
                )[i]).document_id == #[trigger] docs[k] && !is_above(
                    scores[k].score,
                    best_ranks(docs, scores)[i].score.score,
                ),
    decreases docs.len(),
{
    if docs.len() > 0 {
        let head = docs.drop_last();
        lemma_best_ranks(head, scores);
        let before = best_ranks(head, scores);
        let after = best_ranks(docs, scores);
        let doc = docs.last();
        let s = scores[docs.len() - 1];
        let at = rank_index(before, doc);
        lemma_rank_index(before, doc);
        assert forall|i: int, j: int| 0 <= i < j < after.len() implies (#[trigger] after[i]).document_id
            != (#[trigger] after[j]).document_id by {
            if j < before.len() {
                assert(before[i].document_id != before[j].document_id);
                assert(after[i].document_id == before[i].document_id);
                assert(after[j].document_id == before[j].document_id);
            } else {
                assert(after[i] == before[i]);
            }
        }
        assert forall|k: int| 0 <= k < docs.len() implies exists|i: int|
            0 <= i < after.len() && (#[trigger] after[i]).document_id == #[trigger] docs[k]
                && !is_above(scores[k].score, after[i].score.score) by {
            if k < head.len() {
                assert(head[k] == docs[k]);
                let i = choose|i: int|
                    0 <= i < before.len() && (#[trigger] before[i]).document_id == head[k]
                        && !is_above(scores[k].score, before[i].score.score);
                assert(after[i].document_id == docs[k]);
            } else {
                assert(after[at].document_id == docs[k]);
            }
        }
    }
}

/// Law: a ranking names each document once, comes best first, and where it is long enough to
/// hold all documents, it names every document, with a score that none of the document's chunks
/// is above.
pub proof fn law_ranking(docs: Seq<Seq<char>>, scores: Seq<Score>, max: int)
    requires
        docs.len() == scores.len(),
        0 <= max,
    ensures
        ({
            let r = ranking(docs, scores, max);
            &&& r.len() <= max
            &&& forall|i: int, j: int|
                0 <= i < j < r.len() ==> place((#[trigger] r[i]).score.score) >= place(
                    (#[trigger] r[j]).score.score,
                ) && r[i].document_id != r[j].document_id
            &&& max >= docs.len() ==> forall|k: int|
                0 <= k < docs.len() ==> exists|i: int|
                    0 <= i < r.len() && (#[trigger] r[i]).document_id == #[trigger] docs[k]
                        && !is_above(scores[k].score, r[i].score.score)
        }),
{
    broadcast use vstd::seq_lib::group_to_multiset_ensures;

    let b = best_ranks(docs, scores);
    lemma_best_ranks(docs, scores);
    lemma_best_ranks_len(docs, scores);
    assert(is_order(rank_order()));
    law_sorted_rows(b, rank_order());
    let s = sorted_rows(b, rank_order());
    let r = ranking(docs, scores, max);
    assert(in_order(s, rank_order()));
    assert forall|i: int, j: int| 0 <= i < j < s.len() implies place((#[trigger] s[i]).score.score)
        >= place((#[trigger] s[j]).score.score) by {
        assert(!rank_order()(s[j], s[i]));
    }
    lemma_distinct_permuted(b, s);
    if max >= docs.len() {
        assert(r =~= s);
        assert forall|k: int| 0 <= k < docs.len() implies exists|i: int|
            0 <= i < r.len() && (#[trigger] r[i]).document_id == #[trigger] docs[k] && !is_above(
                scores[k].score,
                r[i].score.score,
            ) by {
            let i = choose|i: int|
                0 <= i < b.len() && (#[trigger] b[i]).document_id == docs[k] && !is_above(
                    scores[k].score,
                    b[i].score.score,
                );
            assert(b.contains(b[i]));
            assert(b.to_multiset().count(b[i]) > 0);
            assert(s.contains(b[i]));
            let m = choose|m: int| 0 <= m < s.len() && s[m] == b[i];
            assert(r[m] == b[i]);
        }
    }
}

proof fn lemma_best_ranks_len(docs: Seq<Seq<char>>, scores: Seq<Score>)
    ensures
        best_ranks(docs, scores).len() <= docs.len(),
    decreases docs.len(),
{
    if docs.len() > 0 {
        lemma_best_ranks_len(docs.drop_last(), scores);
        lemma_rank_index(best_ranks(docs.drop_last(), scores), docs.last());
    }
}

proof fn lemma_distinct_permuted(a: Seq<Rank>, b: Seq<Rank>)
    requires
        a.to_multiset() == b.to_multiset(),
        forall|i: int, j: int|
            0 <= i < j < a.len() ==> (#[trigger] a[i]).document_id != (#[trigger] a[j]).document_id,
    ensures
        forall|i: int, j: int|
            0 <= i < j < b.len() ==> (#[trigger] b[i]).document_id != (#[trigger] b[j]).document_id,
{
    broadcast use vstd::seq_lib::group_to_multiset_ensures;

    assert(a.no_duplicates()) by {
        assert forall|i: int, j: int| 0 <= i < a.len() && 0 <= j < a.len() && i != j implies a[i]
            != a[j] by {
            if i < j {
                assert(a[i].document_id != a[j].document_id);
            } else {
                assert(a[j].document_id != a[i].document_id);
            }
        }
    }
    a.lemma_multiset_has_no_duplicates();
    b.lemma_multiset_has_no_duplicates_conv();
    assert forall|i: int, j: int| 0 <= i < j < b.len() implies (#[trigger] b[i]).document_id != (
    #[trigger] b[j]).document_id by {
        assert(b.contains(b[i]) && b.contains(b[j]));
        assert(a.to_multiset().count(b[i]) > 0 && a.to_multiset().count(b[j]) > 0);
        assert(a.contains(b[i]) && a.contains(b[j]));
        let x = choose|x: int| 0 <= x < a.len() && a[x] == b[i];
        let y = choose|y: int| 0 <= y < a.len() && a[y] == b[j];
        assert(b[i] != b[j]);
        if x < y {
            assert(a[x].document_id != a[y].document_id);
        } else {
            assert(a[y].document_id != a[x].document_id);
        }
    }
}

/// Whether a score is the one of some chunk of a document.
pub open spec fn scored_at(docs: Seq<Seq<char>>, scores: Seq<Score>, doc: Seq<char>, k: int) -> bool {
    0 <= k < docs.len() && docs[k] == doc && k < scores.len()
}

proof fn lemma_best_ranks_sound(docs: Seq<Seq<char>>, scores: Seq<Score>)
    requires
        docs.len() <= scores.len(),
    ensures
        forall|i: int|
            0 <= i < best_ranks(docs, scores).len() ==> {
                let b = #[trigger] best_ranks(docs, scores)[i];
                &&& is_number(b.score.score)
                &&& docs.contains(b.document_id)
                &&& b.score == (Score { score: LOWEST, vector: 0, keyword: 0, graph: 0 }) || exists|k: int|
                    #[trigger] scored_at(docs, scores, b.document_id, k) && scores[k] == b.score
                &&& forall|k: int| #[trigger]
                    scored_at(docs, scores, b.document_id, k) ==> !is_above(scores[k].score, b.score.score)
            },
    decreases docs.len(),
{
    if docs.len() > 0 {
        let head = docs.drop_last();
        lemma_best_ranks_sound(head, scores);
        let before = best_ranks(head, scores);
        let after = best_ranks(docs, scores);
        let doc = docs.last();
        let n = docs.len() - 1;
        let at = rank_index(before, doc);
        lemma_rank_index(before, doc);
        lemma_best_ranks(head, scores);
        assert forall|i: int| 0 <= i < after.len() implies {
            let b = #[trigger] after[i];
            &&& is_number(b.score.score)
            &&& docs.contains(b.document_id)
            &&& b.score == (Score { score: LOWEST, vector: 0, keyword: 0, graph: 0 }) || exists|k: int|
                #[trigger] scored_at(docs, scores, b.document_id, k) && scores[k] == b.score
            &&& forall|k: int| #[trigger]
                scored_at(docs, scores, b.document_id, k) ==> !is_above(scores[k].score, b.score.score)
        } by {
            let b = after[i];
            if i < before.len() {
                let a = before[i];
                assert(a.document_id == b.document_id);
                let z = choose|z: int| 0 <= z < head.len() && head[z] == a.document_id;
                assert(docs[z] == b.document_id);
                if a.score != (Score { score: LOWEST, vector: 0, keyword: 0, graph: 0 }) {
                    let k = choose|k: int| #[trigger]
                        scored_at(head, scores, a.document_id, k) && scores[k] == a.score;
                    assert(scored_at(docs, scores, b.document_id, k));
                }
                if i == at {
                    assert(scored_at(docs, scores, b.document_id, n));
                }
                assert forall|k: int| #[trigger] scored_at(docs, scores, b.document_id, k) implies !is_above(
                    scores[k].score,
                    b.score.score,
                ) by {
                    if k < n {
                        assert(head[k] == docs[k]);
                        assert(scored_at(head, scores, a.document_id, k));
                    } else {
                        assert(before[i].document_id == doc);
                        if at < before.len() && at != i {
                            if at < i {
                                assert(before[at].document_id != before[i].document_id);
                            } else {
                                assert(before[i].document_id != before[at].document_id);
                            }
                        }
                    }
                }
            } else {
                assert(docs[n] == b.document_id);
                assert(scored_at(docs, scores, b.document_id, n));
                assert forall|k: int| #[trigger] scored_at(docs, scores, b.document_id, k) implies !is_above(
                    scores[k].score,
                    b.score.score,
                ) by {
                    if k < n {
                        assert(head[k] == doc);
                        let z = choose|z: int|
                            0 <= z < before.len() && (#[trigger] before[z]).document_id == head[k]
                                && !is_above(scores[k].score, before[z].score.score);
                        assert(before[z].document_id == doc);
                    }
                }
            }
        }
    }
}

/// Law: a ranking names documents of the list only, each with the score of its best chunk, parts and
/// all: no chunk of the document scores above it. A ranking that leaves a document out is full, and none
/// of that document's chunks scores above any document that is named.
pub proof fn law_ranking_keeps_the_best(docs: Seq<Seq<char>>, scores: Seq<Score>, max: int)
    requires
        docs.len() == scores.len(),
        0 <= max,
    ensures
        ({
            let r = ranking(docs, scores, max);
            &&& forall|i: int|
                0 <= i < r.len() ==> docs.contains((#[trigger] r[i]).document_id) && (r[i].score == (Score {
                    score: LOWEST,
                    vector: 0,
                    keyword: 0,
                    graph: 0,
                }) || exists|k: int| #[trigger]
                    scored_at(docs, scores, r[i].document_id, k) && scores[k] == r[i].score)
            &&& forall|i: int, k: int|
                0 <= i < r.len() && 0 <= k < docs.len() && (#[trigger] r[i]).document_id == #[trigger] docs[k]
                    ==> !is_above(scores[k].score, r[i].score.score)
            &&& forall|k: int|
                0 <= k < docs.len() && (forall|i: int|
                    0 <= i < r.len() ==> (#[trigger] r[i]).document_id != docs[k]) ==> {
                    &&& r.len() == max
                    &&& forall|i: int|
                        0 <= i < r.len() ==> !is_above(
                            (#[trigger] scores[k]).score,
                            (#[trigger] r[i]).score.score,
                        )
                }
        }),
{
    broadcast use vstd::seq_lib::group_to_multiset_ensures;

    let b = best_ranks(docs, scores);
    let s = sorted_rows(b, rank_order());
    let r = ranking(docs, scores, max);
    lemma_best_ranks(docs, scores);
    lemma_best_ranks_sound(docs, scores);
    assert(is_order(rank_order()));
    law_sorted_rows(b, rank_order());
    assert forall|x: Rank| s.contains(x) <==> b.contains(x) by {
        assert(s.to_multiset().count(x) > 0 <==> s.contains(x));
        assert(b.to_multiset().count(x) > 0 <==> b.contains(x));
    }
    assert forall|i: int| 0 <= i < r.len() implies #[trigger] r[i] == s[i] && b.contains(r[i]) by {
        assert(s.contains(s[i]));
    }
    assert forall|i: int| 0 <= i < r.len() implies docs.contains((#[trigger] r[i]).document_id) && (r[i].score == (
    Score { score: LOWEST, vector: 0, keyword: 0, graph: 0 }) || exists|k: int| #[trigger]
        scored_at(docs, scores, r[i].document_id, k) && scores[k] == r[i].score) by {
        let z = choose|z: int| 0 <= z < b.len() && b[z] == r[i];
    }
    assert forall|i: int, k: int|
        0 <= i < r.len() && 0 <= k < docs.len() && (#[trigger] r[i]).document_id == #[trigger] docs[k] implies !is_above(
    scores[k].score, r[i].score.score) by {
        let z = choose|z: int| 0 <= z < b.len() && b[z] == r[i];
        assert(scored_at(docs, scores, b[z].document_id, k));
    }
    assert forall|k: int|
        0 <= k < docs.len() && (forall|i: int| 0 <= i < r.len() ==> (#[trigger] r[i]).document_id != docs[k]) implies {
        &&& r.len() == max
        &&& forall|i: int|
            0 <= i < r.len() ==> !is_above((#[trigger] scores[k]).score, (#[trigger] r[i]).score.score)
    } by {
        let z = choose|z: int|
            0 <= z < b.len() && (#[trigger] b[z]).document_id == docs[k] && !is_above(
                scores[k].score,
                b[z].score.score,
            );
        assert(b.contains(b[z]));
        assert(s.contains(b[z]));
        let y = choose|y: int| 0 <= y < s.len() && s[y] == b[z];
        if y < r.len() {
            assert(r[y].document_id == docs[k]);
        }
        assert forall|i: int| 0 <= i < r.len() implies !is_above(
            (#[trigger] scores[k]).score,
            (#[trigger] r[i]).score.score,
        ) by {
            assert(!rank_order()(s[y], s[i]));
        }
    }
}

/// Law: bits of floats are placed as the floats are ordered: of two that are not negative the greater bits come
/// higher, of two negative ones lower, and no negative one is above one that is not; the two zeros have one
/// place.
pub proof fn law_place(a: u64, b: u64)
    ensures
        a < 0x8000_0000_0000_0000 && b < 0x8000_0000_0000_0000 ==> (place(a) < place(b) <==> a < b),
        a >= 0x8000_0000_0000_0000 && b >= 0x8000_0000_0000_0000 ==> (place(a) < place(b) <==> a > b),
        a >= 0x8000_0000_0000_0000 && b < 0x8000_0000_0000_0000 ==> place(a) <= place(b),
        place(0x8000_0000_0000_0000) == place(0),
        is_above(0x3ff0_0000_0000_0000, 0),
        is_above(0, 0xbff0_0000_0000_0000),
        is_above(a, 0xffef_ffff_ffff_ffff) <==> is_number(a) && a != 0xffef_ffff_ffff_ffff && a
            != 0xfff0_0000_0000_0000,
{
}

/// Law: the weights make up a hundred. Where entities of the query are mentioned, mentions weigh most and words
/// least; where none is, mentions weigh nothing, and nearness weighs more than words.
pub proof fn law_weights(max_graph: nat)
    ensures
        weights_for(max_graph).graph + weights_for(max_graph).vector + weights_for(max_graph).keyword == 100,
        weights_for(max_graph).vector > weights_for(max_graph).keyword > 0,
        max_graph > 0 ==> weights_for(max_graph).graph == 55 && weights_for(max_graph).vector == 30,
        max_graph == 0 ==> weights_for(max_graph).graph == 0 && weights_for(max_graph).vector == 65,
{
}

} // verus!
