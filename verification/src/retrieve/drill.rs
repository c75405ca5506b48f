//! Drilling down a summary tree.

use super::rank::{place, ranks_before, ONE};
use super::{cosine_gives, Scorer};
use crate::embed::{embed_gives, Embedder};
use crate::model::{Doc, Error, MemoryDoc};
use crate::store::trees::{
    buffer_nodes, child_nodes, in_buffer, law_child_nodes, lemma_sorted_nodes, lemma_top_level, top_level,
    top_nodes,
};
use crate::store::{Link, Node, State, Store, TreeNode};
use crate::table::{
    first_rows, in_order, is_order, law_sorted_rows, lemma_rows_push, lemma_rows_where_contains,
    lemma_sorted_already, limit, rows, rows_where, sort, sorted_rows, Row,
};
use crate::text::{opt_text, same, trim, trim_text};
use vstd::prelude::*;

verus! {

/// A node of a summary tree with its score.
#[derive(Debug, Clone)]
pub struct TreeHit {
    pub node_id: String,
    pub tree_kind: String,
    pub tree_key: String,
    pub level: i64,
    pub label: Option<String>,
    pub body: String,
    pub doc_id: Option<String>,
    /// The bits of a float.
    pub score: u64,
}

/// What a scored node holds.
#[verifier::ext_equal]
pub struct NodeHit {
    pub node_id: Seq<char>,
    pub tree_kind: Seq<char>,
    pub tree_key: Seq<char>,
    pub level: i64,
    pub label: Option<Seq<char>>,
    pub body: Seq<char>,
    pub doc_id: Option<Seq<char>>,
    pub score: u64,
}

impl View for TreeHit {
    type V = NodeHit;

    open spec fn view(&self) -> NodeHit {
        NodeHit {
            node_id: self.node_id@,
            tree_kind: self.tree_kind@,
            tree_key: self.tree_key@,
            level: self.level,
            label: opt_text(self.label),
            body: self.body@,
            doc_id: opt_text(self.doc_id),
            score: self.score,
        }
    }
}

/// A stored digest as the result of a drill: a single node of kind `digest`, with the score 1.0.
pub open spec fn digest_of(d: Doc, key: Seq<char>) -> NodeHit {
    NodeHit {
        node_id: d.document_id,
        tree_kind: "digest"@,
        tree_key: key,
        level: 0,
        label: Some(key),
        body: d.content,
        doc_id: Some(d.document_id),
        score: ONE,
    }
}

/// Wraps a cached digest document, so that it has the shape of a drilled node.
pub fn digest_hit(doc: MemoryDoc, key: String) -> (r: TreeHit)
    ensures
        r@ == digest_of(doc@, key@),
{
    TreeHit {
        node_id: doc.document_id.clone(),
        tree_kind: "digest".to_owned(),
        tree_key: key.clone(),
        level: 0,
        label: Some(key),
        body: doc.content,
        doc_id: Some(doc.document_id),
        score: ONE,
    }
}

// ---------------------------------------------------------------------------------------------
// The nodes that a drill reaches.
// ---------------------------------------------------------------------------------------------

/// The nodes that the summaries of a level were made of.
pub open spec fn level_below(s: State, level: Seq<Node>) -> Seq<Node>
    decreases level.len(),
{
    if level.len() == 0 {
        Seq::empty()
    } else {
        level_below(s, level.drop_last()) + child_nodes(s, level.last().node_id)
    }
}

/// A level of a tree and what lies below it, down to `depth` levels.
pub open spec fn reached(s: State, level: Seq<Node>, depth: nat) -> Seq<Node>
    decreases depth,
{
    if level.len() == 0 || depth == 0 {
        level
    } else {
        level + reached(s, level_below(s, level), (depth - 1) as nat)
    }
}

/// The nodes of a drill: what is reached from the top of the tree, and, where the top is a
/// summary, the leaves that no summary has absorbed yet.
pub open spec fn drilled(s: State, ns: Seq<char>, kind: Seq<char>, key: Seq<char>, depth: nat) -> Seq<Node> {
    let below = reached(s, top_nodes(s, ns, kind, key), depth);
    if top_level(below) > 0 {
        below + buffer_nodes(s, ns, kind, key, 0)
    } else {
        below
    }
}

/// Whether the node at `i` is the latest of its document: no earlier place has one as recent, no
/// later place has one more recent. A summary belongs to no document and stands for itself.
pub open spec fn is_latest(nodes: Seq<Node>, i: int) -> bool {
    nodes[i].doc_id is None || forall|j: int|
        0 <= j < nodes.len() && j != i && (#[trigger] nodes[j]).doc_id == nodes[i].doc_id ==> if j < i {
            nodes[j].created_at < nodes[i].created_at
        } else {
            nodes[j].created_at <= nodes[i].created_at
        }
}

/// Of the first `n` nodes, the summaries and the latest leaf of each document.
pub open spec fn latest_among(nodes: Seq<Node>, n: int) -> Seq<Node>
    decreases n,
{
    if n <= 0 {
        Seq::empty()
    } else if is_latest(nodes, n - 1) {
        latest_among(nodes, n - 1).push(nodes[n - 1])
    } else {
        latest_among(nodes, n - 1)
    }
}

/// The nodes that a drill ranks.
pub open spec fn drill_nodes(s: State, ns: Seq<char>, kind: Seq<char>, key: Seq<char>, depth: nat) -> Seq<Node> {
    let all = drilled(s, ns, kind, key, depth);
    latest_among(all, all.len() as int)
}

fn append_nodes(out: &mut Vec<TreeNode>, more: &Vec<TreeNode>)
    ensures
        rows(final(out)@) == rows(old(out)@) + rows(more@),
{
    let ghost before = rows(out@);
    let ghost all = rows(more@);
    assert(before + all.take(0) =~= before);
    for i in 0..more.len()
        invariant
            all == rows(more@),
            rows(out@) == before + all.take(i as int),
    {
        let ghost out0 = out@;
        let n = more[i].copy();
        out.push(n);
        proof {
            lemma_rows_push(out0, n);
            assert(all.take(i + 1) =~= all.take(i as int).push(all[i as int]));
            assert(rows(out@) =~= before + all.take(i + 1));
        }
    }
    assert(all.take(all.len() as int) =~= all);
}

fn same_doc(a: &Option<String>, b: &Option<String>) -> (r: bool)
    ensures
        r == (opt_text(*a) == opt_text(*b)),
{
    match (a, b) {
        (Some(x), Some(y)) => same(x.as_str(), y.as_str()),
        (None, None) => true,
        _ => false,
    }
}

fn latest_at(nodes: &Vec<TreeNode>, i: usize) -> (r: bool)
    requires
        i < nodes@.len(),
    ensures
        r == is_latest(rows(nodes@), i as int),
{
    let ghost all = rows(nodes@);
    assert(all[i as int] == nodes@[i as int]@);
    if nodes[i].doc_id.is_none() {
        return true;
    }
    for j in 0..nodes.len()
        invariant
            i < nodes@.len(),
            all == rows(nodes@),
            all[i as int].doc_id is Some,
            forall|k: int|
                0 <= k < j && k != i && (#[trigger] all[k]).doc_id == all[i as int].doc_id
                    ==> if k < i {
                    all[k].created_at < all[i as int].created_at
                } else {
                    all[k].created_at <= all[i as int].created_at
                },
    {
        assert(all[j as int] == nodes@[j as int]@);
        assert(all[i as int] == nodes@[i as int]@);
        if j != i && same_doc(&nodes[j].doc_id, &nodes[i].doc_id) {
            let later: bool = if j < i {
                nodes[j].created_at < nodes[i].created_at
            } else {
                nodes[j].created_at <= nodes[i].created_at
            };
            if !later {
                return false;
            }
        }
    }
    true
}

/// The highest level among some nodes, or 0.
fn highest_level(nodes: &Vec<TreeNode>) -> (r: i64)
    ensures
        r == top_level(rows(nodes@)),
{
    let ghost all = rows(nodes@);
    if nodes.len() == 0 {
        return 0;
    }
    let mut m: i64 = nodes[0].level;
    assert(all.take(1)[0] == all[0]);
    for i in 1..nodes.len()
        invariant
            all == rows(nodes@),
            nodes@.len() > 0,
            m == top_level(all.take(i as int)),
    {
        proof {
            assert(all.take(i + 1).drop_last() =~= all.take(i as int));
            assert(all.take(i + 1).last() == all[i as int]);
        }
        if nodes[i].level > m {
            m = nodes[i].level;
        }
    }
    assert(all.take(all.len() as int) =~= all);
    m
}

/// The nodes of a tree that a drill ranks: from its top down to `max_depth` levels, with the
/// leaves that are not absorbed yet, and of each document the latest leaf.
pub fn drill_candidates(store: &Store, namespace: &str, kind: &str, key: &str, max_depth: usize) -> (r: Vec<
    TreeNode,
>)
    ensures
        rows(r@) == drill_nodes(store@, namespace@, kind@, key@, max_depth as nat),
{
    let ghost s = store@;
    let mut collected: Vec<TreeNode> = Vec::new();
    let mut frontier = store.tree_top_nodes(namespace, kind, key);
    let ghost whole = reached(s, rows(frontier@), max_depth as nat);
    let mut left: usize = max_depth;
    let mut done: bool = false;
    assert(rows(collected@) =~= Seq::<Node>::empty());
    assert(Seq::<Node>::empty() + whole =~= whole);
    while !done
        invariant
            s == store@,
            !done ==> rows(collected@) + reached(s, rows(frontier@), left as nat) == whole,
            done ==> rows(collected@) == whole,
        decreases
                left,
                (if done {
                    0int
                } else {
                    1int
                }),
    {
        append_nodes(&mut collected, &frontier);
        assert(rows(frontier@).len() == frontier@.len());
        if frontier.len() == 0 || left == 0 {
            done = true;
        } else {
            let mut next: Vec<TreeNode> = Vec::new();
            let ghost level = rows(frontier@);
            let ghost had = rows(collected@);
            assert(level.take(0) =~= Seq::<Node>::empty());
            assert(rows(next@) =~= Seq::<Node>::empty());
            for i in 0..frontier.len()
                invariant
                    s == store@,
                    level == rows(frontier@),
                    rows(next@) == level_below(s, level.take(i as int)),
            {
                proof {
                    assert(level.take(i + 1).drop_last() =~= level.take(i as int));
                    assert(level.take(i + 1).last() == level[i as int]);
                }
                let children = store.children_of(frontier[i].node_id.as_str());
                append_nodes(&mut next, &children);
            }
            assert(level.take(level.len() as int) =~= level);
            frontier = next;
            left -= 1;
            assert(had + reached(s, rows(frontier@), left as nat) =~= whole);
        }
    }
    if highest_level(&collected) > 0 {
        let fresh = store.unsealed_nodes(namespace, kind, key, 0);
        append_nodes(&mut collected, &fresh);
    }
    let ghost all = rows(collected@);
    let mut out: Vec<TreeNode> = Vec::new();
    assert(rows(out@) =~= Seq::<Node>::empty());
    for i in 0..collected.len()
        invariant
            all == rows(collected@),
            rows(out@) == latest_among(all, i as int),
    {
        if latest_at(&collected, i) {
            let ghost out0 = out@;
            let n = collected[i].copy();
            out.push(n);
            proof {
                lemma_rows_push(out0, n);
            }
        }
    }
    out
}

// ---------------------------------------------------------------------------------------------
// Ranking the nodes.
// ---------------------------------------------------------------------------------------------

/// A node with a score.
pub open spec fn node_hit(n: Node, score: u64) -> NodeHit {
    NodeHit {
        node_id: n.node_id,
        tree_kind: n.tree_kind,
        tree_key: n.tree_key,
        level: n.level,
        label: n.label,
        body: n.body,
        doc_id: n.doc_id,
        score,
    }
}

pub open spec fn node_hits(nodes: Seq<Node>, scores: Seq<u64>) -> Seq<NodeHit> {
    Seq::new(nodes.len(), |i: int| node_hit(nodes[i], scores[i]))
}

/// Higher scores come first.
pub open spec fn node_order() -> spec_fn(NodeHit, NodeHit) -> bool {
    |a: NodeHit, b: NodeHit| place(a.score) > place(b.score)
}

/// The `max` best nodes, best first; nodes with equal scores keep their order.
pub open spec fn node_ranking(nodes: Seq<Node>, scores: Seq<u64>, max: int) -> Seq<NodeHit> {
    first_rows(sorted_rows(node_hits(nodes, scores), node_order()), max)
}

/// Ranks nodes by their scores.
pub fn rank_nodes(nodes: Vec<TreeNode>, scores: &Vec<u64>, max: usize) -> (r: Vec<TreeHit>)
    requires
        nodes@.len() == scores@.len(),
    ensures
        rows(r@) == node_ranking(rows(nodes@), scores@, max as int),
{
    let mut out: Vec<TreeHit> = Vec::new();
    let ghost all = node_hits(rows(nodes@), scores@);
    assert(rows(out@) =~= all.take(0));
    for i in 0..nodes.len()
        invariant
            nodes@.len() == scores@.len(),
            all == node_hits(rows(nodes@), scores@),
            rows(out@) == all.take(i as int),
    {
        let ghost out0 = out@;
        let n = nodes[i].copy();
        let hit = TreeHit {
            node_id: n.node_id,
            tree_kind: n.tree_kind,
            tree_key: n.tree_key,
            level: n.level,
            label: n.label,
            body: n.body,
            doc_id: n.doc_id,
            score: scores[i],
        };
        out.push(hit);
        proof {
            lemma_rows_push(out0, hit);
            assert(hit@ == all[i as int]);
            assert(all.take(i + 1) =~= all.take(i as int).push(all[i as int]));
        }
    }
    assert(all.take(all.len() as int) =~= all);
    sort(
        &mut out,
        |a: &TreeHit, b: &TreeHit| -> (r: bool)
            ensures
                r == (place(a@.score) > place(b@.score))
        { ranks_before(a.score, b.score) },
        Ghost(node_order()),
    );
    limit(&mut out, max);
    out
}

/// What a drill gives without a query.
pub open spec fn digests(s: State, ns: Seq<char>, kind: Seq<char>, key: Seq<char>, depth: nat, max: int) -> Seq<
    NodeHit,
> {
    let nodes = drill_nodes(s, ns, kind, key, depth);
    node_ranking(nodes, Seq::new(nodes.len(), |i: int| 0u64), max)
}

/// Drills a tree without a query: every node has the score 0, and they come in the order of the
/// tree.
pub fn top_digests(store: &Store, namespace: &str, kind: &str, key: &str, max_depth: usize, max: usize) -> (r: Vec<
    TreeHit,
>)
    ensures
        rows(r@) == digests(store@, namespace@, kind@, key@, max_depth as nat, max as int),
{
    let nodes = drill_candidates(store, namespace, kind, key, max_depth);
    let mut scores: Vec<u64> = Vec::new();
    for i in 0..nodes.len()
        invariant
            scores@ == Seq::new(i as nat, |k: int| 0u64),
    {
        scores.push(0);
        assert(scores@ =~= Seq::new((i + 1) as nat, |k: int| 0u64));
    }
    assert(rows(nodes@).len() == nodes@.len());
    assert(scores@ =~= Seq::new(rows(nodes@).len(), |k: int| 0u64));
    rank_nodes(nodes, &scores, max)
}

/// The result of a drill for an embedded query.
pub open spec fn drill_answer<S: Scorer>(
    scorer: &S,
    query: Vec<u32>,
    nodes: Seq<Node>,
    scores: Seq<u64>,
    max: int,
    hits: Seq<NodeHit>,
) -> bool {
    &&& scores.len() == nodes.len()
    &&& forall|i: int|
        0 <= i < nodes.len() ==> cosine_gives(scorer, query, nodes[i].embedding, #[trigger] scores[i])
    &&& hits == node_ranking(nodes, scores, max)
}

/// The result of a drill whose query was embedded with this outcome.
pub open spec fn drill_result<S: Scorer>(
    scorer: &S,
    query: Result<Vec<u32>, Error>,
    nodes: Seq<Node>,
    max: int,
    r: Result<Vec<TreeHit>, Error>,
) -> bool {
    match query {
        Err(e) => r == Err::<Vec<TreeHit>, Error>(e),
        Ok(q) => r is Ok && exists|scores: Seq<u64>| #[trigger]
            drill_answer(scorer, q, nodes, scores, max, rows(r->Ok_0@)),
    }
}

/// The kind or key of a drill, which is `global` where none is given.
pub open spec fn or_global(name: Option<&str>) -> Seq<char> {
    match name {
        Some(n) => n@,
        None => "global"@,
    }
}

/// Whether a drill may have this outcome.
pub open spec fn drill_outcome<E: Embedder, S: Scorer>(
    embedder: &E,
    scorer: &S,
    s: State,
    ns: Seq<char>,
    query_text: &str,
    tree_kind: Option<&str>,
    tree_key: Option<&str>,
    max_depth: usize,
    limit: usize,
    r: Result<Vec<TreeHit>, Error>,
) -> bool {
    let kind = or_global(tree_kind);
    let key = or_global(tree_key);
    if trim_text(query_text@).len() == 0 {
        r is Ok && rows(r->Ok_0@) == digests(s, ns, kind, key, max_depth as nat, limit as int)
    } else {
        exists|q: Result<Vec<u32>, Error>|
            #[trigger] embed_gives(embedder, query_text, q) && drill_result(
                scorer,
                q,
                drill_nodes(s, ns, kind, key, max_depth as nat),
                limit as int,
                r,
            )
    }
}

/// Drills a summary tree from its top down to `max_depth` levels and ranks what it reaches by
/// similarity to the query. A blank query is not embedded: the nodes then come in the order of
/// the tree. Without a kind or key the tree is the namespace's global one.
pub fn drill_down<E: Embedder, S: Scorer>(
    store: &Store,
    embedder: &E,
    scorer: &S,
    namespace: &str,
    query_text: &str,
    tree_kind: Option<&str>,
    tree_key: Option<&str>,
    max_depth: usize,
    limit: usize,
) -> (r: Result<Vec<TreeHit>, Error>)
    ensures
        drill_outcome(
            embedder,
            scorer,
            store@,
            namespace@,
            query_text,
            tree_kind,
            tree_key,
            max_depth,
            limit,
            r,
        ),
{
    let kind = match tree_kind {
        Some(k) => k,
        None => "global",
    };
    let key = match tree_key {
        Some(k) => k,
        None => "global",
    };
    let t = trim(query_text);
    if t.as_str().is_empty() {
        return Ok(top_digests(store, namespace, kind, key, max_depth, limit));
    }
    let embedded = embedder.embed(query_text);
    let ghost outcome = embedded;
    assert(embed_gives(embedder, query_text, outcome));
    match embedded {
        Err(e) => Err(e),
        Ok(query) => {
            let nodes = drill_candidates(store, namespace, kind, key, max_depth);
            let ghost all = rows(nodes@);
            let mut scores: Vec<u64> = Vec::new();
            for i in 0..nodes.len()
                invariant
                    all == rows(nodes@),
                    scores@.len() == i,
                    forall|k: int|
                        0 <= k < i ==> cosine_gives(scorer, query, all[k].embedding, #[trigger] scores@[k]),
            {
                let v = &nodes[i].embedding;
                let s: u64 = scorer.cosine(&query, v);
                proof {
                    assert(v@ == all[i as int].embedding);
                    assert(call_ensures(S::cosine, (scorer, &query, v), s));
                    assert(cosine_gives(scorer, query, all[i as int].embedding, s));
                }
                scores.push(s);
            }
            assert(all.len() == nodes@.len());
            let hits = rank_nodes(nodes, &scores, limit);
            let r: Result<Vec<TreeHit>, Error> = Ok(hits);
            assert(drill_answer(scorer, query, all, scores@, limit as int, rows(r->Ok_0@)));
            assert(drill_result(scorer, outcome, all, limit as int, r));
            r
        },
    }
}

/// Law: without a query, a drill gives the nodes in the order of the tree.
pub proof fn law_drill_without_query(nodes: Seq<Node>, max: int)
    ensures
        node_ranking(nodes, Seq::new(nodes.len(), |i: int| 0u64), max) == first_rows(
            node_hits(nodes, Seq::new(nodes.len(), |i: int| 0u64)),
            max,
        ),
{
    let hits = node_hits(nodes, Seq::new(nodes.len(), |i: int| 0u64));
    assert(in_order(hits, node_order()));
    lemma_sorted_already(hits, node_order());
}

proof fn lemma_latest_among(nodes: Seq<Node>, n: int)
    requires
        0 <= n <= nodes.len(),
    ensures
        forall|x: Node|
            latest_among(nodes, n).contains(x) ==> exists|i: int|
                0 <= i < n && #[trigger] nodes[i] == x && is_latest(nodes, i),
        forall|i: int|
            0 <= i < n && is_latest(nodes, i) ==> latest_among(nodes, n).contains(#[trigger] nodes[i]),
        forall|a: int, b: int|
            0 <= a < b < latest_among(nodes, n).len() && (#[trigger] latest_among(nodes, n)[a]).doc_id
                is Some ==> latest_among(nodes, n)[a].doc_id != (#[trigger] latest_among(
                nodes,
                n,
            )[b]).doc_id,
    decreases n,
{
    if n > 0 {
        lemma_latest_among(nodes, n - 1);
        let before = latest_among(nodes, n - 1);
        let after = latest_among(nodes, n);
        if is_latest(nodes, n - 1) {
            assert forall|x: Node| after.contains(x) implies exists|i: int|
                0 <= i < n && #[trigger] nodes[i] == x && is_latest(nodes, i) by {
                let k = choose|k: int| 0 <= k < after.len() && after[k] == x;
                if k < before.len() {
                    assert(before[k] == x);
                    assert(before.contains(x));
                } else {
                    assert(nodes[n - 1] == x);
                }
            }
            assert(after[before.len() as int] == nodes[n - 1]);
            assert forall|i: int| 0 <= i < n && is_latest(nodes, i) implies after.contains(
                #[trigger] nodes[i],
            ) by {
                if i < n - 1 {
                    let k = choose|k: int| 0 <= k < before.len() && before[k] == nodes[i];
                    assert(after[k] == nodes[i]);
                }
            }
            assert forall|a: int, b: int|
                0 <= a < b < after.len() && (#[trigger] after[a]).doc_id is Some implies after[a].doc_id
                != (#[trigger] after[b]).doc_id by {
                assert(before[a] == after[a]);
                if b < before.len() {
                    assert(before[b] == after[b]);
                } else {
                    assert(before.contains(before[a]));
                    let i = choose|i: int|
                        0 <= i < n - 1 && #[trigger] nodes[i] == before[a] && is_latest(nodes, i);
                    if nodes[i].doc_id == nodes[n - 1].doc_id {
                        assert(nodes[n - 1].created_at <= nodes[i].created_at);
                        assert(nodes[i].created_at < nodes[n - 1].created_at);
                    }
                }
            }
        }
    }
}

/// Whether the node at `k` is the latest leaf of a document.
spec fn latest_of(nodes: Seq<Node>, doc: Seq<char>, k: int) -> bool {
    0 <= k < nodes.len() && nodes[k].doc_id == Some(doc) && is_latest(nodes, k)
}

proof fn lemma_has_latest(nodes: Seq<Node>, doc: Seq<char>)
    requires
        exists|i: int| 0 <= i < nodes.len() && (#[trigger] nodes[i]).doc_id == Some(doc),
    ensures
        exists|k: int| #[trigger] latest_of(nodes, doc, k),
    decreases nodes.len(),
{
    let head = nodes.drop_last();
    let n = nodes.len() - 1;
    let i = choose|i: int| 0 <= i < nodes.len() && (#[trigger] nodes[i]).doc_id == Some(doc);
    if exists|i: int| 0 <= i < head.len() && (#[trigger] head[i]).doc_id == Some(doc) {
        lemma_has_latest(head, doc);
        let k = choose|k: int| #[trigger] latest_of(head, doc, k);
        assert(forall|j: int| 0 <= j < n ==> head[j] == nodes[j]);
        if nodes[n].doc_id == Some(doc) && nodes[k].created_at < nodes[n].created_at {
            assert forall|j: int|
                0 <= j < nodes.len() && j != n && (#[trigger] nodes[j]).doc_id == nodes[n].doc_id implies nodes[j].created_at
                < nodes[n].created_at by {
                assert(head[j] == nodes[j]);
            }
            assert(latest_of(nodes, doc, n));
        } else {
            assert forall|j: int|
                0 <= j < nodes.len() && j != k && (#[trigger] nodes[j]).doc_id == nodes[k].doc_id implies if j
                < k {
                nodes[j].created_at < nodes[k].created_at
            } else {
                nodes[j].created_at <= nodes[k].created_at
            } by {
                if j < n {
                    assert(head[j] == nodes[j]);
                }
            }
            assert(latest_of(nodes, doc, k));
        }
    } else {
        assert forall|j: int| 0 <= j < n implies (#[trigger] nodes[j]).doc_id != Some(doc) by {
            assert(head[j] == nodes[j]);
        }
        assert(latest_of(nodes, doc, i));
    }
}

/// Law: of the leaves of one document a drill keeps one, the most recent, and it keeps every
/// summary.
pub proof fn law_latest_leaf_per_document(s: State, ns: Seq<char>, kind: Seq<char>, key: Seq<char>, depth: nat)
    ensures
        ({
            let all = drilled(s, ns, kind, key, depth);
            let kept = drill_nodes(s, ns, kind, key, depth);
            &&& forall|a: int, b: int|
                0 <= a < b < kept.len() && (#[trigger] kept[a]).doc_id is Some ==> kept[a].doc_id != (
                #[trigger] kept[b]).doc_id
            &&& forall|i: int|
                0 <= i < all.len() && (#[trigger] all[i]).doc_id is None ==> kept.contains(all[i])
            &&& forall|x: Node| kept.contains(x) ==> #[trigger] all.contains(x)
            &&& forall|i: int|
                0 <= i < all.len() && (#[trigger] all[i]).doc_id is Some ==> exists|a: int|
                    0 <= a < kept.len() && (#[trigger] kept[a]).doc_id == all[i].doc_id
            &&& forall|a: int, i: int|
                0 <= a < kept.len() && 0 <= i < all.len() && (#[trigger] kept[a]).doc_id is Some
                    && kept[a].doc_id == (#[trigger] all[i]).doc_id ==> all[i].created_at
                    <= kept[a].created_at
        }),
{
    let all = drilled(s, ns, kind, key, depth);
    let kept = drill_nodes(s, ns, kind, key, depth);
    lemma_latest_among(all, all.len() as int);
    assert forall|i: int| 0 <= i < all.len() && (#[trigger] all[i]).doc_id is Some implies exists|a: int|
        0 <= a < kept.len() && (#[trigger] kept[a]).doc_id == all[i].doc_id by {
        let doc = all[i].doc_id->0;
        lemma_has_latest(all, doc);
        let k = choose|k: int| #[trigger] latest_of(all, doc, k);
        assert(kept.contains(all[k]));
        let a = choose|a: int| 0 <= a < kept.len() && kept[a] == all[k];
        assert(kept[a].doc_id == all[i].doc_id);
    }
    assert forall|a: int, i: int|
        0 <= a < kept.len() && 0 <= i < all.len() && (#[trigger] kept[a]).doc_id is Some && kept[a].doc_id
            == (#[trigger] all[i]).doc_id implies all[i].created_at <= kept[a].created_at by {
        assert(kept.contains(kept[a]));
        let k = choose|k: int|
            0 <= k < all.len() && #[trigger] all[k] == kept[a] && is_latest(all, k);
    }
}

// ---------------------------------------------------------------------------------------------
// What a drill finds.
// ---------------------------------------------------------------------------------------------

/// Whether a node stands this many links below one of some nodes.
pub open spec fn below_by(s: State, level: Seq<Node>, n: Node, steps: nat) -> bool
    decreases steps,
{
    if steps == 0 {
        level.contains(n)
    } else {
        s.nodes.contains(n) && exists|p: Node| below_by(s, level, p, (steps - 1) as nat) && #[trigger] s.links.contains(
                Link { parent_id: p.node_id, child_id: n.node_id },
            )
    }
}

proof fn lemma_level_below(s: State, level: Seq<Node>)
    ensures
        forall|n: Node| #[trigger]
            level_below(s, level).contains(n) <==> exists|p: Node| #[trigger]
                level.contains(p) && child_nodes(s, p.node_id).contains(n),
    decreases level.len(),
{
    let below = level_below(s, level);
    if level.len() == 0 {
        assert(below =~= Seq::empty());
    } else {
        let head = level.drop_last();
        let last = level.last();
        lemma_level_below(s, head);
        let before = level_below(s, head);
        let kids = child_nodes(s, last.node_id);
        assert(below == before + kids);
        assert(level[level.len() - 1] == last);
        assert forall|n: Node| #[trigger] below.contains(n) <==> exists|p: Node| #[trigger]
            level.contains(p) && child_nodes(s, p.node_id).contains(n) by {
            if below.contains(n) {
                let k = choose|k: int| 0 <= k < below.len() && below[k] == n;
                if k < before.len() {
                    assert(before[k] == n);
                    assert(before.contains(n));
                    let p = choose|p: Node| #[trigger]
                        head.contains(p) && child_nodes(s, p.node_id).contains(n);
                    let z = choose|z: int| 0 <= z < head.len() && head[z] == p;
                    assert(level[z] == p);
                    assert(level.contains(p));
                } else {
                    assert(kids[k - before.len()] == n);
                    assert(level.contains(last));
                }
            }
            if exists|p: Node| #[trigger] level.contains(p) && child_nodes(s, p.node_id).contains(n) {
                let p = choose|p: Node| #[trigger] level.contains(p) && child_nodes(s, p.node_id).contains(n);
                let z = choose|z: int| 0 <= z < level.len() && level[z] == p;
                if z < head.len() {
                    assert(head[z] == p);
                    assert(head.contains(p));
                    assert(before.contains(n));
                    let k = choose|k: int| 0 <= k < before.len() && before[k] == n;
                    assert(below[k] == n);
                } else {
                    let k = choose|k: int| 0 <= k < kids.len() && kids[k] == n;
                    assert(below[before.len() + k] == n);
                }
            }
        }
    }
}

proof fn lemma_below_by(s: State, level: Seq<Node>, n: Node, steps: nat)
    ensures
        below_by(s, level_below(s, level), n, steps) <==> below_by(s, level, n, steps + 1),
    decreases steps,
{
    let next = level_below(s, level);
    if steps == 0 {
        lemma_level_below(s, level);
        if next.contains(n) {
            let p = choose|p: Node| #[trigger] level.contains(p) && child_nodes(s, p.node_id).contains(n);
            law_child_nodes(s, p.node_id, n);
            assert(below_by(s, level, p, 0));
        }
        if below_by(s, level, n, 1) {
            let p = choose|p: Node| below_by(s, level, p, 0) && #[trigger] s.links.contains(
                    Link { parent_id: p.node_id, child_id: n.node_id },
                );
            law_child_nodes(s, p.node_id, n);
            assert(level.contains(p));
        }
    } else {
        let less = (steps - 1) as nat;
        if below_by(s, next, n, steps) {
            let p = choose|p: Node| below_by(s, next, p, less) && #[trigger] s.links.contains(
                    Link { parent_id: p.node_id, child_id: n.node_id },
                );
            lemma_below_by(s, level, p, less);
            assert(below_by(s, level, p, steps));
        }
        if below_by(s, level, n, steps + 1) {
            let p = choose|p: Node| below_by(s, level, p, steps) && #[trigger] s.links.contains(
                    Link { parent_id: p.node_id, child_id: n.node_id },
                );
            lemma_below_by(s, level, p, less);
            assert(below_by(s, next, p, less));
        }
    }
}

proof fn lemma_below_nothing(s: State, n: Node, steps: nat)
    ensures
        !below_by(s, Seq::empty(), n, steps),
    decreases steps,
{
    if steps > 0 && below_by(s, Seq::empty(), n, steps) {
        let p = choose|p: Node| below_by(s, Seq::empty(), p, (steps - 1) as nat) && #[trigger] s.links.contains(
                Link { parent_id: p.node_id, child_id: n.node_id },
            );
        lemma_below_nothing(s, p, (steps - 1) as nat);
    }
}

/// Law: a walk down from some nodes reaches those nodes and every node that stands at most `depth` links
/// below them, and nothing else.
pub proof fn law_reached(s: State, level: Seq<Node>, depth: nat, n: Node)
    ensures
        reached(s, level, depth).contains(n) <==> exists|k: nat| k <= depth && #[trigger]
            below_by(s, level, n, k),
    decreases depth,
{
    let all = reached(s, level, depth);
    if level.len() == 0 {
        assert(level =~= Seq::empty());
        assert forall|k: nat| k <= depth implies !#[trigger] below_by(s, level, n, k) by {
            lemma_below_nothing(s, n, k);
        }
    } else if depth == 0 {
        assert(below_by(s, level, n, 0) <==> level.contains(n));
    } else {
        let next = level_below(s, level);
        let less = (depth - 1) as nat;
        let rest = reached(s, next, less);
        law_reached(s, next, less, n);
        if all.contains(n) {
            let i = choose|i: int| 0 <= i < all.len() && all[i] == n;
            if i < level.len() {
                assert(level[i] == n);
                assert(below_by(s, level, n, 0));
            } else {
                assert(rest[i - level.len()] == n);
                assert(rest.contains(n));
                let k = choose|k: nat| k <= less && #[trigger] below_by(s, next, n, k);
                lemma_below_by(s, level, n, k);
                assert(below_by(s, level, n, k + 1));
            }
        }
        if exists|k: nat| k <= depth && #[trigger] below_by(s, level, n, k) {
            let k = choose|k: nat| k <= depth && #[trigger] below_by(s, level, n, k);
            if k == 0 {
                let i = choose|i: int| 0 <= i < level.len() && level[i] == n;
                assert(all[i] == n);
            } else {
                lemma_below_by(s, level, n, (k - 1) as nat);
                assert(below_by(s, next, n, (k - 1) as nat));
                let i = choose|i: int| 0 <= i < rest.len() && rest[i] == n;
                assert(all[level.len() + i] == n);
            }
        }
    }
}

/// Law: a drill goes down from the top of the tree by at most `depth` links; where that shows a summary, the
/// leaves that no summary holds yet are shown too.
pub proof fn law_drilled(s: State, ns: Seq<char>, kind: Seq<char>, key: Seq<char>, depth: nat, n: Node)
    ensures
        drilled(s, ns, kind, key, depth).contains(n) <==> (exists|k: nat| k <= depth && #[trigger]
            below_by(s, top_nodes(s, ns, kind, key), n, k)) || (n.namespace == ns && n.tree_kind == kind
            && n.tree_key == key && n.level == 0 && !n.sealed && s.nodes.contains(n) && exists|m: Node| #[trigger]
            reached(s, top_nodes(s, ns, kind, key), depth).contains(m) && m.level > 0),
{
    let top = top_nodes(s, ns, kind, key);
    let below = reached(s, top, depth);
    let buf = buffer_nodes(s, ns, kind, key, 0);
    let all = drilled(s, ns, kind, key, depth);
    law_reached(s, top, depth, n);
    lemma_top_level(below);
    lemma_rows_where_contains(s.nodes, in_buffer(ns, kind, key, 0));
    lemma_sorted_nodes(rows_where(s.nodes, in_buffer(ns, kind, key, 0)));
    if top_level(below) > 0 {
        assert(below.len() > 0);
        let z = choose|z: int| 0 <= z < below.len() && (#[trigger] below[z]).level == top_level(below);
        assert(below.contains(below[z]));
        if all.contains(n) {
            let i = choose|i: int| 0 <= i < all.len() && all[i] == n;
            if i < below.len() {
                assert(below[i] == n);
            } else {
                assert(buf[i - below.len()] == n);
                assert(buf.contains(n));
            }
        }
        if below.contains(n) {
            let i = choose|i: int| 0 <= i < below.len() && below[i] == n;
            assert(all[i] == n);
        }
        if buf.contains(n) {
            let i = choose|i: int| 0 <= i < buf.len() && buf[i] == n;
            assert(all[below.len() + i] == n);
        }
    } else {
        assert forall|m: Node| #[trigger] below.contains(m) implies m.level <= 0 by {
            let i = choose|i: int| 0 <= i < below.len() && below[i] == m;
            assert(below[i].level <= top_level(below));
        }
    }
}

/// Whether a hit says what a node says.
pub open spec fn tells_node(h: NodeHit, n: Node) -> bool {
    h.node_id == n.node_id && h.tree_kind == n.tree_kind && h.tree_key == n.tree_key && h.level == n.level
        && h.label == n.label && h.body == n.body && h.doc_id == n.doc_id
}

/// Whether a hit tells a node of a list, with its score.
pub open spec fn is_listed(nodes: Seq<Node>, scores: Seq<u64>, h: NodeHit) -> bool {
    exists|k: int| 0 <= k < nodes.len() && tells_node(h, #[trigger] nodes[k]) && h.score == scores[k]
}

/// Whether some hits tell a node, with its score.
pub open spec fn is_told(hits: Seq<NodeHit>, n: Node, score: u64) -> bool {
    exists|i: int| 0 <= i < hits.len() && tells_node(#[trigger] hits[i], n) && hits[i].score == score
}

/// Law: a ranking of nodes tells nodes of the list, each with its score, the best first; where it leaves one
/// out, it is full, and that node scores no better than any that is told.
pub proof fn law_node_ranking(nodes: Seq<Node>, scores: Seq<u64>, max: int)
    requires
        nodes.len() == scores.len(),
        0 <= max,
    ensures
        ({
            let r = node_ranking(nodes, scores, max);
            &&& r.len() <= max
            &&& forall|i: int| 0 <= i < r.len() ==> is_listed(nodes, scores, #[trigger] r[i])
            &&& forall|i: int, j: int|
                0 <= i < j < r.len() ==> place((#[trigger] r[i]).score) >= place((#[trigger] r[j]).score)
            &&& forall|k: int|
                0 <= k < nodes.len() && !is_told(r, #[trigger] nodes[k], scores[k]) ==> r.len() == max
            &&& forall|k: int, i: int|
                0 <= k < nodes.len() && 0 <= i < r.len() && !is_told(r, #[trigger] nodes[k], scores[k]) ==> place(
                    (#[trigger] r[i]).score,
                ) >= place(scores[k])
        }),
{
    broadcast use vstd::seq_lib::group_to_multiset_ensures;

    let hits = node_hits(nodes, scores);
    let sorted = sorted_rows(hits, node_order());
    let r = node_ranking(nodes, scores, max);
    assert(is_order(node_order()));
    law_sorted_rows(hits, node_order());
    assert forall|i: int| 0 <= i < r.len() implies is_listed(nodes, scores, #[trigger] r[i]) by {
        let h = sorted[i];
        assert(sorted.to_multiset().count(h) > 0);
        assert(hits.to_multiset().count(h) > 0);
        assert(hits.contains(h));
        let k = choose|k: int| 0 <= k < hits.len() && hits[k] == h;
        assert(tells_node(r[i], nodes[k]));
    }
    assert forall|i: int, j: int| 0 <= i < j < r.len() implies place((#[trigger] r[i]).score) >= place(
        (#[trigger] r[j]).score,
    ) by {
        assert(!node_order()(sorted[j], sorted[i]));
    }
    assert forall|k: int| 0 <= k < nodes.len() && !is_told(r, #[trigger] nodes[k], scores[k]) implies r.len()
        == max && forall|i: int| 0 <= i < r.len() ==> place((#[trigger] r[i]).score) >= place(scores[k]) by {
        let h = hits[k];
        assert(hits.to_multiset().count(h) > 0);
        assert(sorted.contains(h));
        let z = choose|z: int| 0 <= z < sorted.len() && sorted[z] == h;
        if z < r.len() {
            assert(r[z] == h);
            assert(tells_node(r[z], nodes[k]));
        }
        assert forall|i: int| 0 <= i < r.len() implies place((#[trigger] r[i]).score) >= place(scores[k]) by {
            assert(!node_order()(sorted[z], sorted[i]));
        }
    }
}

/// Law: a stored digest is shown as it is: its text, under the key that was asked for, with its document and the
/// full score.
pub proof fn law_digest_shown(d: Doc, key: Seq<char>)
    ensures
        digest_of(d, key).body == d.content,
        digest_of(d, key).label == Some(key),
        digest_of(d, key).tree_key == key,
        digest_of(d, key).tree_kind == "digest"@,
        digest_of(d, key).doc_id == Some(d.document_id),
        digest_of(d, key).node_id == d.document_id,
        digest_of(d, key).score == 0x3ff0_0000_0000_0000,
{
}

/// Law: a drill without a tree goes down the global one.
pub proof fn law_global_by_default(name: &str)
    ensures
        or_global(None) == "global"@,
        or_global(Some(name)) == name@,
{
}

} // verus!
