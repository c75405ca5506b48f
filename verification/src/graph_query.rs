//! Who calls a symbol, and what a file calls: breadth-first walks over the code graph.

use crate::model::{edge_kind_text, Doc, EdgeKind};
use crate::store::docs::{doc_has_id, doc_is, edge_from};
use crate::store::edges::{edge_to, edges_from_doc, mentions_entity, raw_edge, resolved};
use crate::store::entities::doc_symbols;
use crate::store::{doc_id_key, doc_key, CodeEdge, Mention, State, Store};
use crate::table::{
    first_row, lemma_first_row, lemma_first_row_unique, lemma_rows_push, lemma_rows_where_contains, rows,
    rows_where,
};
use crate::text::{any_same, lemma_texts_push, texts};
use vstd::prelude::*;

verus! {

/// One hop of a walk.
#[derive(Debug, Clone)]
pub struct TraceHop {
    /// The path of the file: the key of its document.
    pub path: String,
    pub document_id: String,
    /// The symbol that the edge leads to.
    pub sym: String,
    /// The name of the edge's kind.
    pub edge_kind: String,
    /// In hundredths.
    pub confidence: u32,
    pub depth: usize,
}

/// What a hop holds.
#[verifier::ext_equal]
pub struct Hop {
    pub path: Seq<char>,
    pub document_id: Seq<char>,
    pub sym: Seq<char>,
    pub edge_kind: Seq<char>,
    pub confidence: u32,
    pub depth: usize,
}

impl View for TraceHop {
    type V = Hop;

    open spec fn view(&self) -> Hop {
        Hop {
            path: self.path@,
            document_id: self.document_id@,
            sym: self.sym@,
            edge_kind: self.edge_kind@,
            confidence: self.confidence,
            depth: self.depth,
        }
    }
}

/// How far a walk has come: the hops so far, the documents visited, what is still to be looked
/// at (with its depth), and whether the limit ended the look at the present item.
#[verifier::ext_equal]
pub struct Walk {
    pub hops: Seq<Hop>,
    pub visited: Seq<Seq<char>>,
    pub queue: Seq<(Seq<char>, usize)>,
    pub stopped: bool,
}

/// The path of a document: its key, or its id where there is no such document.
pub open spec fn path_of(s: State, ns: Seq<char>, doc: Seq<char>) -> Seq<char> {
    match first_row(s.docs, doc_has_id(ns, doc)) {
        Some(d) => d.key,
        None => doc,
    }
}

fn find_path(store: &Store, ns: &str, doc: &str) -> (r: String)
    ensures
        r@ == path_of(store@, ns@, doc@),
{
    match store.get_doc(ns, doc) {
        Some(d) => d.key,
        None => doc.to_owned(),
    }
}

/// Items with a depth.
pub open spec fn at_depth(items: Seq<Seq<char>>, depth: usize) -> Seq<(Seq<char>, usize)> {
    items.map_values(|t: Seq<char>| (t, depth))
}

/// The items that an executable queue holds from `head` on.
pub open spec fn queued(v: Seq<(String, usize)>, head: int) -> Seq<(Seq<char>, usize)> {
    Seq::new((v.len() - head) as nat, |i: int| (v[head + i].0@, v[head + i].1))
}

proof fn lemma_queued_push(v: Seq<(String, usize)>, head: int, x: (String, usize))
    requires
        0 <= head <= v.len(),
    ensures
        queued(v.push(x), head) == queued(v, head).push((x.0@, x.1)),
{
    assert(queued(v.push(x), head) =~= queued(v, head).push((x.0@, x.1)));
}

/// The rows of a table that lead to documents not visited yet.
pub open spec fn fresh_edges(visited: Seq<Seq<char>>) -> spec_fn(CodeEdge) -> bool {
    |e: CodeEdge| !visited.contains(e.src_doc_id)
}

pub open spec fn fresh_mentions(visited: Seq<Seq<char>>) -> spec_fn(Mention) -> bool {
    |m: Mention| !visited.contains(m.document_id)
}

pub proof fn lemma_fewer<V>(s: Seq<V>, p: spec_fn(V) -> bool, q: spec_fn(V) -> bool)
    requires
        forall|i: int| 0 <= i < s.len() && q(#[trigger] s[i]) ==> p(s[i]),
    ensures
        rows_where(s, q).len() <= rows_where(s, p).len(),
        (exists|i: int| 0 <= i < s.len() && p(#[trigger] s[i]) && !q(s[i])) ==> rows_where(
            s,
            q,
        ).len() < rows_where(s, p).len(),
    decreases s.len(),
{
    if s.len() > 0 {
        let t = s.drop_last();
        assert forall|i: int| 0 <= i < t.len() && q(#[trigger] t[i]) implies p(t[i]) by {
            assert(s[i] == t[i]);
        }
        lemma_fewer(t, p, q);
        assert(q(s[s.len() - 1]) ==> p(s[s.len() - 1]));
        if exists|i: int| 0 <= i < s.len() && p(#[trigger] s[i]) && !q(s[i]) {
            let i = choose|i: int| 0 <= i < s.len() && p(#[trigger] s[i]) && !q(s[i]);
            if i < t.len() {
                assert(t[i] == s[i]);
            }
        }
    }
}

// ---------------------------------------------------------------------------------------------
// Callers.
// ---------------------------------------------------------------------------------------------

/// The walk after one more edge that leads to `target`: a call from a document that was not
/// visited yet is a hop, and unless the walk is at its depth or limit, the symbols of that
/// document are to be looked at next.
pub open spec fn caller_step(
    s: State,
    ns: Seq<char>,
    max_depth: usize,
    limit: usize,
    target: Seq<char>,
    depth: usize,
    e: CodeEdge,
    w: Walk,
) -> Walk {
    if w.stopped || e.edge_kind != EdgeKind::Calls || w.visited.contains(e.src_doc_id) {
        w
    } else {
        let hops = w.hops.push(
            Hop {
                path: path_of(s, ns, e.src_doc_id),
                document_id: e.src_doc_id,
                sym: target,
                edge_kind: edge_kind_text(e.edge_kind),
                confidence: e.confidence,
                depth,
            },
        );
        let stopped = hops.len() >= limit;
        Walk {
            hops,
            visited: w.visited.push(e.src_doc_id),
            queue: if !stopped && depth < max_depth {
                w.queue + at_depth(doc_symbols(s, ns, e.src_doc_id), (depth + 1) as usize)
            } else {
                w.queue
            },
            stopped,
        }
    }
}

/// The walk after the edges `edges` that lead to `target`.
pub open spec fn caller_steps(
    s: State,
    ns: Seq<char>,
    max_depth: usize,
    limit: usize,
    target: Seq<char>,
    depth: usize,
    edges: Seq<CodeEdge>,
    w: Walk,
) -> Walk
    decreases edges.len(),
{
    if edges.len() == 0 {
        w
    } else {
        caller_step(
            s,
            ns,
            max_depth,
            limit,
            target,
            depth,
            edges.last(),
            caller_steps(s, ns, max_depth, limit, target, depth, edges.drop_last(), w),
        )
    }
}

/// The walk after the first item of its queue was looked at.
pub open spec fn caller_round(s: State, ns: Seq<char>, max_depth: usize, limit: usize, w: Walk) -> Walk {
    let (target, depth) = w.queue[0];
    caller_steps(
        s,
        ns,
        max_depth,
        limit,
        target,
        depth,
        rows_where(s.edges, edge_to(ns, target)),
        Walk { queue: w.queue.skip(1), stopped: false, ..w },
    )
}

/// Whether a walk is over: nothing is left to be looked at, or what is left is too deep, or
/// there are enough hops.
pub open spec fn walk_over(max_depth: usize, limit: usize, w: Walk) -> bool {
    w.queue.len() == 0 || w.queue[0].1 > max_depth || w.hops.len() >= limit
}

pub proof fn lemma_caller_steps(
    s: State,
    ns: Seq<char>,
    max_depth: usize,
    limit: usize,
    target: Seq<char>,
    depth: usize,
    edges: Seq<CodeEdge>,
    w: Walk,
)
    requires
        forall|i: int| 0 <= i < edges.len() ==> s.edges.contains(#[trigger] edges[i]),
    ensures
        ({
            let r = caller_steps(s, ns, max_depth, limit, target, depth, edges, w);
            ||| r.visited == w.visited && r.queue == w.queue
            ||| rows_where(s.edges, fresh_edges(r.visited)).len() < rows_where(
                s.edges,
                fresh_edges(w.visited),
            ).len()
        }),
    decreases edges.len(),
{
    if edges.len() > 0 {
        let head = edges.drop_last();
        assert forall|i: int| 0 <= i < head.len() implies s.edges.contains(#[trigger] head[i]) by {
            assert(head[i] == edges[i]);
        }
        lemma_caller_steps(s, ns, max_depth, limit, target, depth, head, w);
        let m = caller_steps(s, ns, max_depth, limit, target, depth, head, w);
        let e = edges.last();
        let r = caller_step(s, ns, max_depth, limit, target, depth, e, m);
        if r.visited != m.visited {
            assert(s.edges.contains(edges[edges.len() - 1]));
            let i = choose|i: int| 0 <= i < s.edges.len() && s.edges[i] == e;
            assert(r.visited == m.visited.push(e.src_doc_id));
            assert(r.visited[m.visited.len() as int] == e.src_doc_id);
            assert forall|x: Seq<char>| m.visited.contains(x) implies r.visited.contains(x) by {
                let k = choose|k: int| 0 <= k < m.visited.len() && m.visited[k] == x;
                assert(r.visited[k] == x);
            }
            assert(fresh_edges(m.visited)(s.edges[i]) && !fresh_edges(r.visited)(s.edges[i]));
            lemma_fewer(s.edges, fresh_edges(m.visited), fresh_edges(r.visited));
        }
    }
}

/// The hops of a walk that goes on until it is over.
pub open spec fn callers_from(s: State, ns: Seq<char>, max_depth: usize, limit: usize, w: Walk) -> Seq<Hop>
    decreases rows_where(s.edges, fresh_edges(w.visited)).len(), w.queue.len(),
{
    if walk_over(max_depth, limit, w) {
        w.hops
    } else {
        proof {
            let target = w.queue[0].0;
            lemma_rows_where_contains(s.edges, edge_to(ns, target));
            let es = rows_where(s.edges, edge_to(ns, target));
            assert forall|i: int| 0 <= i < es.len() implies s.edges.contains(#[trigger] es[i]) by {
                assert(es.contains(es[i]));
            }
            lemma_caller_steps(
                s,
                ns,
                max_depth,
                limit,
                target,
                w.queue[0].1,
                es,
                Walk { queue: w.queue.skip(1), stopped: false, ..w },
            );
        }
        callers_from(s, ns, max_depth, limit, caller_round(s, ns, max_depth, limit, w))
    }
}

/// The calls of a symbol, and the calls of what calls it, up to a depth and a number of hops.
pub open spec fn callers_of(s: State, ns: Seq<char>, sym: Seq<char>, max_depth: usize, limit: usize) -> Seq<Hop> {
    callers_from(
        s,
        ns,
        max_depth,
        limit,
        Walk {
            hops: Seq::empty(),
            visited: Seq::empty(),
            queue: seq![(sym, 1usize)],
            stopped: false,
        },
    )
}

/// Appends items to a queue at a depth.
fn enqueue_all(queue: &mut Vec<(String, usize)>, items: &Vec<String>, depth: usize, Ghost(head): Ghost<int>)
    requires
        0 <= head <= old(queue)@.len(),
    ensures
        queued(final(queue)@, head) == queued(old(queue)@, head) + at_depth(texts(items@), depth),
        final(queue)@.len() >= old(queue)@.len(),
{
    let ghost before = queued(queue@, head);
    let ghost n0 = queue@.len();
    let ghost all = at_depth(texts(items@), depth);
    assert(before + all.take(0) =~= before);
    for i in 0..items.len()
        invariant
            0 <= head <= n0 <= queue@.len(),
            all == at_depth(texts(items@), depth),
            queued(queue@, head) == before + all.take(i as int),
    {
        let ghost q0 = queue@;
        let x = (items[i].clone(), depth);
        queue.push(x);
        proof {
            lemma_queued_push(q0, head, x);
            assert(all.take(i + 1) =~= all.take(i as int).push(all[i as int]));
            assert(queued(queue@, head) =~= before + all.take(i + 1));
        }
    }
    assert(all.take(all.len() as int) =~= all);
}

/// Who calls a symbol: a breadth-first walk over the calls that lead to it. The symbols of a
/// calling document are looked at in turn, so that its callers are found too, up to `max_depth`;
/// the walk ends after `limit` hops. Each document is visited once.
pub fn callers(store: &Store, ns: &str, sym: &str, max_depth: usize, limit: usize) -> (r: Vec<TraceHop>)
    ensures
        rows(r@) == callers_of(store@, ns@, sym@, max_depth, limit),
{
    let ghost s = store@;
    let mut hops: Vec<TraceHop> = Vec::new();
    let mut visited: Vec<String> = Vec::new();
    let mut queue: Vec<(String, usize)> = Vec::new();
    let mut head: usize = 0;
    queue.push((sym.to_owned(), 1));
    let ghost mut w = Walk {
        hops: Seq::empty(),
        visited: Seq::empty(),
        queue: seq![(sym@, 1usize)],
        stopped: false,
    };
    assert(rows(hops@) =~= w.hops);
    assert(texts(visited@) =~= w.visited);
    assert(queued(queue@, 0) =~= w.queue);
    while head < queue.len() && queue[head].1 <= max_depth && hops.len() < limit
        invariant
            s == store@,
            head <= queue@.len(),
            rows(hops@) == w.hops,
            texts(visited@) == w.visited,
            queued(queue@, head as int) == w.queue,
            callers_from(s, ns@, max_depth, limit, w) == callers_of(
                s,
                ns@,
                sym@,
                max_depth,
                limit,
            ),
        decreases rows_where(s.edges, fresh_edges(w.visited)).len(), w.queue.len(),
    {
        let target = queue[head].0.clone();
        let depth: usize = queue[head].1;
        let ghost w0 = w;
        assert(w.queue[0] == (target@, depth));
        assert(rows(hops@).len() == hops@.len());
        head += 1;
        let inbound = store.edges_to_sym(ns, target.as_str());
        let ghost es = rows_where(s.edges, edge_to(ns@, target@));
        let ghost start = Walk { queue: w.queue.skip(1), stopped: false, ..w };
        assert(queued(queue@, head as int) =~= w.queue.skip(1));
        assert(es.take(0) =~= Seq::<CodeEdge>::empty());
        let mut stopped: bool = false;
        for i in 0..inbound.len()
            invariant
                s == store@,
                head <= queue@.len(),
                depth <= max_depth,
                es == rows_where(s.edges, edge_to(ns@, target@)),
                inbound@.len() == es.len(),
                forall|k: int|
                    0 <= k < es.len() ==> (#[trigger] inbound@[k]).0@ == es[k].src_doc_id
                        && inbound@[k].1@ == raw_edge(es[k]),
                rows(hops@) == caller_steps(
                    s,
                    ns@,
                    max_depth,
                    limit,
                    target@,
                    depth,
                    es.take(i as int),
                    start,
                ).hops,
                texts(visited@) == caller_steps(
                    s,
                    ns@,
                    max_depth,
                    limit,
                    target@,
                    depth,
                    es.take(i as int),
                    start,
                ).visited,
                queued(queue@, head as int) == caller_steps(
                    s,
                    ns@,
                    max_depth,
                    limit,
                    target@,
                    depth,
                    es.take(i as int),
                    start,
                ).queue,
                stopped == caller_steps(
                    s,
                    ns@,
                    max_depth,
                    limit,
                    target@,
                    depth,
                    es.take(i as int),
                    start,
                ).stopped,
        {
            proof {
                assert(es.take(i + 1).drop_last() =~= es.take(i as int));
                assert(es.take(i + 1).last() == es[i as int]);
            }
            let src = inbound[i].0.as_str();
            let edge = &inbound[i].1;
            assert(edge@ == raw_edge(es[i as int]));
            if !stopped && edge.edge_kind == EdgeKind::Calls && !any_same(&visited, src) {
                let ghost hops0 = hops@;
                let ghost visited0 = visited@;
                let v = src.to_owned();
                visited.push(v);
                let hop = TraceHop {
                    path: find_path(store, ns, src),
                    document_id: src.to_owned(),
                    sym: target.clone(),
                    edge_kind: edge.edge_kind.as_str().to_owned(),
                    confidence: edge.confidence,
                    depth,
                };
                hops.push(hop);
                proof {
                    lemma_texts_push(visited0, v);
                    lemma_rows_push(hops0, hop);
                    assert(rows(hops@).len() == hops@.len());
                }
                if hops.len() >= limit {
                    stopped = true;
                } else if depth < max_depth {
                    let syms = store.sym_entities_for_doc(ns, src);
                    enqueue_all(&mut queue, &syms, depth + 1, Ghost(head as int));
                }
            }
        }
        proof {
            assert(es.take(es.len() as int) =~= es);
            w = caller_round(s, ns@, max_depth, limit, w0);
            lemma_rows_where_contains(s.edges, edge_to(ns@, target@));
            assert forall|i: int| 0 <= i < es.len() implies s.edges.contains(#[trigger] es[i]) by {
                assert(es.contains(es[i]));
            }
            lemma_caller_steps(s, ns@, max_depth, limit, target@, depth, es, start);
        }
    }
    assert(rows(hops@).len() == hops@.len());
    assert(walk_over(max_depth, limit, w)) by {
        if head < queue@.len() {
            assert(w.queue[0] == (queue@[head as int].0@, queue@[head as int].1));
        }
    }
    hops
}

// ---------------------------------------------------------------------------------------------
// Callees.
// ---------------------------------------------------------------------------------------------

/// The walk after one more edge of the document that is looked at. A call of a symbol that no
/// document mentions is a hop that leads nowhere; a call that leads to a document not visited yet
/// is a hop, and unless the walk is at its depth or limit, that document is to be looked at.
pub open spec fn callee_step(
    s: State,
    ns: Seq<char>,
    max_depth: usize,
    limit: usize,
    depth: usize,
    e: CodeEdge,
    w: Walk,
) -> Walk {
    if w.stopped || e.edge_kind != EdgeKind::Calls {
        w
    } else {
        match resolved(s, ns, e.dst_sym) {
            None => {
                let hops = w.hops.push(
                    Hop {
                        path: e.dst_sym,
                        document_id: ""@,
                        sym: e.dst_sym,
                        edge_kind: edge_kind_text(e.edge_kind),
                        confidence: e.confidence,
                        depth,
                    },
                );
                Walk { hops, stopped: hops.len() >= limit, ..w }
            },
            Some(doc) => if w.visited.contains(doc) {
                w
            } else {
                let hops = w.hops.push(
                    Hop {
                        path: path_of(s, ns, doc),
                        document_id: doc,
                        sym: e.dst_sym,
                        edge_kind: edge_kind_text(e.edge_kind),
                        confidence: e.confidence,
                        depth,
                    },
                );
                let stopped = hops.len() >= limit;
                Walk {
                    hops,
                    visited: w.visited.push(doc),
                    queue: if !stopped && depth < max_depth {
                        w.queue.push((doc, (depth + 1) as usize))
                    } else {
                        w.queue
                    },
                    stopped,
                }
            },
        }
    }
}

/// The walk after the edges `edges` of the document that is looked at.
pub open spec fn callee_steps(
    s: State,
    ns: Seq<char>,
    max_depth: usize,
    limit: usize,
    depth: usize,
    edges: Seq<CodeEdge>,
    w: Walk,
) -> Walk
    decreases edges.len(),
{
    if edges.len() == 0 {
        w
    } else {
        callee_step(
            s,
            ns,
            max_depth,
            limit,
            depth,
            edges.last(),
            callee_steps(s, ns, max_depth, limit, depth, edges.drop_last(), w),
        )
    }
}

/// The walk after the first document of its queue was looked at.
pub open spec fn callee_round(s: State, ns: Seq<char>, max_depth: usize, limit: usize, w: Walk) -> Walk {
    let (doc, depth) = w.queue[0];
    callee_steps(
        s,
        ns,
        max_depth,
        limit,
        depth,
        rows_where(s.edges, edge_from(ns, doc)),
        Walk { queue: w.queue.skip(1), stopped: false, ..w },
    )
}

pub proof fn lemma_callee_steps(
    s: State,
    ns: Seq<char>,
    max_depth: usize,
    limit: usize,
    depth: usize,
    edges: Seq<CodeEdge>,
    w: Walk,
)
    ensures
        ({
            let r = callee_steps(s, ns, max_depth, limit, depth, edges, w);
            ||| r.visited == w.visited && r.queue == w.queue
            ||| rows_where(s.mentions, fresh_mentions(r.visited)).len() < rows_where(
                s.mentions,
                fresh_mentions(w.visited),
            ).len()
        }),
    decreases edges.len(),
{
    if edges.len() > 0 {
        let head = edges.drop_last();
        lemma_callee_steps(s, ns, max_depth, limit, depth, head, w);
        let m = callee_steps(s, ns, max_depth, limit, depth, head, w);
        let e = edges.last();
        let r = callee_step(s, ns, max_depth, limit, depth, e, m);
        if r.visited != m.visited {
            let doc = resolved(s, ns, e.dst_sym)->0;
            lemma_first_row(s.mentions, mentions_entity(ns, e.dst_sym));
            let mention = first_row(s.mentions, mentions_entity(ns, e.dst_sym))->0;
            let i = choose|i: int| 0 <= i < s.mentions.len() && #[trigger] s.mentions[i] == mention;
            assert(r.visited == m.visited.push(doc));
            assert(r.visited[m.visited.len() as int] == doc);
            assert forall|x: Seq<char>| m.visited.contains(x) implies r.visited.contains(x) by {
                let k = choose|k: int| 0 <= k < m.visited.len() && m.visited[k] == x;
                assert(r.visited[k] == x);
            }
            assert(fresh_mentions(m.visited)(s.mentions[i]) && !fresh_mentions(r.visited)(
                s.mentions[i],
            ));
            lemma_fewer(s.mentions, fresh_mentions(m.visited), fresh_mentions(r.visited));
        }
    }
}

/// The hops of a walk that goes on until it is over.
pub open spec fn callees_from(s: State, ns: Seq<char>, max_depth: usize, limit: usize, w: Walk) -> Seq<Hop>
    decreases rows_where(s.mentions, fresh_mentions(w.visited)).len(), w.queue.len(),
{
    if walk_over(max_depth, limit, w) {
        w.hops
    } else {
        proof {
            lemma_callee_steps(
                s,
                ns,
                max_depth,
                limit,
                w.queue[0].1,
                rows_where(s.edges, edge_from(ns, w.queue[0].0)),
                Walk { queue: w.queue.skip(1), stopped: false, ..w },
            );
        }
        callees_from(s, ns, max_depth, limit, callee_round(s, ns, max_depth, limit, w))
    }
}

/// What a file calls, and what is called there in turn, up to a depth and a number of hops.
pub open spec fn callees_of(s: State, ns: Seq<char>, path: Seq<char>, max_depth: usize, limit: usize) -> Seq<Hop> {
    match first_row(s.docs, doc_is(ns, path)) {
        Some(d) => callees_from(
            s,
            ns,
            max_depth,
            limit,
            Walk {
                hops: Seq::empty(),
                visited: seq![d.document_id],
                queue: seq![(d.document_id, 1usize)],
                stopped: false,
            },
        ),
        None => Seq::empty(),
    }
}

/// What a file calls: a breadth-first walk over the calls that start from it. A call of a symbol
/// that no document mentions is shown and leads no further; other calls are followed up to
/// `max_depth`, and the walk ends once there are `limit` hops. Each document is visited once.
pub fn callees(store: &Store, ns: &str, path: &str, max_depth: usize, limit: usize) -> (r: Vec<TraceHop>)
    ensures
        rows(r@) == callees_of(store@, ns@, path@, max_depth, limit),
{
    let ghost s = store@;
    let mut hops: Vec<TraceHop> = Vec::new();
    assert(rows(hops@) =~= Seq::<Hop>::empty());
    let src_doc = match store.get_by_key(ns, path) {
        Some(d) => d,
        None => {
            return hops;
        },
    };
    let mut visited: Vec<String> = Vec::new();
    let mut queue: Vec<(String, usize)> = Vec::new();
    let mut head: usize = 0;
    queue.push((src_doc.document_id.clone(), 1));
    visited.push(src_doc.document_id.clone());
    let ghost id = src_doc.document_id@;
    let ghost mut w = Walk {
        hops: Seq::empty(),
        visited: seq![id],
        queue: seq![(id, 1usize)],
        stopped: false,
    };
    assert(texts(visited@) =~= w.visited);
    assert(queued(queue@, 0) =~= w.queue);
    while head < queue.len() && queue[head].1 <= max_depth && hops.len() < limit
        invariant
            s == store@,
            head <= queue@.len(),
            rows(hops@) == w.hops,
            texts(visited@) == w.visited,
            queued(queue@, head as int) == w.queue,
            callees_from(s, ns@, max_depth, limit, w) == callees_of(
                s,
                ns@,
                path@,
                max_depth,
                limit,
            ),
        decreases rows_where(s.mentions, fresh_mentions(w.visited)).len(), w.queue.len(),
    {
        let doc_id = queue[head].0.clone();
        let depth: usize = queue[head].1;
        let ghost w0 = w;
        assert(w.queue[0] == (doc_id@, depth));
        assert(rows(hops@).len() == hops@.len());
        head += 1;
        let outbound = store.edges_from(ns, doc_id.as_str());
        let ghost es = rows_where(s.edges, edge_from(ns@, doc_id@));
        let ghost start = Walk { queue: w.queue.skip(1), stopped: false, ..w };
        assert(queued(queue@, head as int) =~= w.queue.skip(1));
        assert(es.take(0) =~= Seq::<CodeEdge>::empty());
        let mut stopped: bool = false;
        assert(rows(outbound@).len() == es.len());
        for i in 0..outbound.len()
            invariant
                s == store@,
                head <= queue@.len(),
                depth <= max_depth,
                es == rows_where(s.edges, edge_from(ns@, doc_id@)),
                rows(outbound@) == edges_from_doc(s, ns@, doc_id@),
                outbound@.len() == es.len(),
                rows(hops@) == callee_steps(
                    s,
                    ns@,
                    max_depth,
                    limit,
                    depth,
                    es.take(i as int),
                    start,
                ).hops,
                texts(visited@) == callee_steps(
                    s,
                    ns@,
                    max_depth,
                    limit,
                    depth,
                    es.take(i as int),
                    start,
                ).visited,
                queued(queue@, head as int) == callee_steps(
                    s,
                    ns@,
                    max_depth,
                    limit,
                    depth,
                    es.take(i as int),
                    start,
                ).queue,
                stopped == callee_steps(
                    s,
                    ns@,
                    max_depth,
                    limit,
                    depth,
                    es.take(i as int),
                    start,
                ).stopped,
        {
            proof {
                assert(es.take(i + 1).drop_last() =~= es.take(i as int));
                assert(es.take(i + 1).last() == es[i as int]);
                assert(rows(outbound@)[i as int] == raw_edge(es[i as int]));
            }
            let edge = &outbound[i];
            assert(edge@ == raw_edge(es[i as int]));
            if !stopped && edge.edge_kind == EdgeKind::Calls {
                let ghost hops0 = hops@;
                match store.resolve_dst_doc(ns, edge.dst_sym.as_str()) {
                    None => {
                        let hop = TraceHop {
                            path: edge.dst_sym.clone(),
                            document_id: "".to_owned(),
                            sym: edge.dst_sym.clone(),
                            edge_kind: edge.edge_kind.as_str().to_owned(),
                            confidence: edge.confidence,
                            depth,
                        };
                        hops.push(hop);
                        proof {
                            lemma_rows_push(hops0, hop);
                            assert(rows(hops@).len() == hops@.len());
                        }
                        if hops.len() >= limit {
                            stopped = true;
                        }
                    },
                    Some(dst) => {
                        if !any_same(&visited, dst.as_str()) {
                            let ghost visited0 = visited@;
                            let v = dst.clone();
                            visited.push(v);
                            let hop = TraceHop {
                                path: find_path(store, ns, dst.as_str()),
                                document_id: dst.clone(),
                                sym: edge.dst_sym.clone(),
                                edge_kind: edge.edge_kind.as_str().to_owned(),
                                confidence: edge.confidence,
                                depth,
                            };
                            hops.push(hop);
                            proof {
                                lemma_texts_push(visited0, v);
                                lemma_rows_push(hops0, hop);
                                assert(rows(hops@).len() == hops@.len());
                            }
                            if hops.len() >= limit {
                                stopped = true;
                            } else if depth < max_depth {
                                let ghost q0 = queue@;
                                let x = (dst, depth + 1);
                                queue.push(x);
                                proof {
                                    lemma_queued_push(q0, head as int, x);
                                }
                            }
                        }
                    },
                }
            }
        }
        proof {
            assert(es.take(es.len() as int) =~= es);
            w = callee_round(s, ns@, max_depth, limit, w0);
            lemma_callee_steps(s, ns@, max_depth, limit, depth, es, start);
        }
    }
    assert(rows(hops@).len() == hops@.len());
    assert(walk_over(max_depth, limit, w)) by {
        if head < queue@.len() {
            assert(w.queue[0] == (queue@[head as int].0@, queue@[head as int].1));
        }
    }
    hops
}

// ---------------------------------------------------------------------------------------------
// What holds of every walk.
// ---------------------------------------------------------------------------------------------

/// A call in the code graph that a hop of `callers` stands for.
pub open spec fn call_of_hop(s: State, ns: Seq<char>, h: Hop, e: CodeEdge) -> bool {
    &&& s.edges.contains(e)
    &&& e.namespace == ns
    &&& e.edge_kind == EdgeKind::Calls
    &&& e.src_doc_id == h.document_id
    &&& e.dst_sym == h.sym
    &&& e.confidence == h.confidence
}

/// The hops so far are calls at permitted depths, one for each document visited.
spec fn callers_sound(s: State, ns: Seq<char>, max_depth: usize, limit: usize, w: Walk) -> bool {
    &&& w.hops.len() == w.visited.len()
    &&& w.visited.no_duplicates()
    &&& w.hops.len() <= limit
    &&& forall|i: int|
        0 <= i < w.hops.len() ==> (#[trigger] w.hops[i]).document_id == w.visited[i]
            && 1 <= w.hops[i].depth <= max_depth
            && exists|e: CodeEdge| #[trigger] call_of_hop(s, ns, w.hops[i], e)
    &&& forall|i: int| 0 <= i < w.queue.len() ==> 1 <= (#[trigger] w.queue[i]).1
}

proof fn lemma_caller_steps_sound(
    s: State,
    ns: Seq<char>,
    max_depth: usize,
    limit: usize,
    target: Seq<char>,
    depth: usize,
    edges: Seq<CodeEdge>,
    w: Walk,
)
    requires
        callers_sound(s, ns, max_depth, limit, w),
        w.hops.len() < limit,
        !w.stopped,
        1 <= depth <= max_depth,
        forall|i: int|
            0 <= i < edges.len() ==> s.edges.contains(#[trigger] edges[i]) && edge_to(ns, target)(
                edges[i],
            ),
    ensures
        ({
            let r = caller_steps(s, ns, max_depth, limit, target, depth, edges, w);
            callers_sound(s, ns, max_depth, limit, r) && (r.stopped || r.hops.len() < limit)
        }),
    decreases edges.len(),
{
    if edges.len() > 0 {
        let head = edges.drop_last();
        assert forall|i: int| 0 <= i < head.len() implies s.edges.contains(#[trigger] head[i])
            && edge_to(ns, target)(head[i]) by {
            assert(head[i] == edges[i]);
        }
        lemma_caller_steps_sound(s, ns, max_depth, limit, target, depth, head, w);
        let m = caller_steps(s, ns, max_depth, limit, target, depth, head, w);
        let e = edges.last();
        let r = caller_step(s, ns, max_depth, limit, target, depth, e, m);
        assert(edges[edges.len() - 1] == e);
        if r.visited != m.visited {
            let n = m.hops.len() as int;
            assert(call_of_hop(s, ns, r.hops[n], e));
            assert forall|i: int| 0 <= i < r.hops.len() implies (#[trigger] r.hops[i]).document_id
                == r.visited[i] && 1 <= r.hops[i].depth <= max_depth && exists|e: CodeEdge| #[trigger]
                call_of_hop(s, ns, r.hops[i], e) by {
                if i < n {
                    assert(r.hops[i] == m.hops[i]);
                    assert(r.visited[i] == m.visited[i]);
                }
            }
            assert forall|i: int, j: int| 0 <= i < r.visited.len() && 0 <= j < r.visited.len() && i
                != j implies r.visited[i] != r.visited[j] by {
                if i < n && j < n {
                    assert(m.visited[i] != m.visited[j]);
                } else if i < n {
                    assert(m.visited.contains(m.visited[i]));
                } else {
                    assert(m.visited.contains(m.visited[j]));
                }
            }
        }
    }
}

proof fn lemma_callers_sound(s: State, ns: Seq<char>, max_depth: usize, limit: usize, w: Walk)
    requires
        callers_sound(s, ns, max_depth, limit, w),
    ensures
        exists|v: Walk|
            #[trigger] callers_sound(s, ns, max_depth, limit, v) && v.hops == callers_from(
                s,
                ns,
                max_depth,
                limit,
                w,
            ),
    decreases rows_where(s.edges, fresh_edges(w.visited)).len(), w.queue.len(),
{
    if !walk_over(max_depth, limit, w) {
        let (target, depth) = w.queue[0];
        let es = rows_where(s.edges, edge_to(ns, target));
        let start = Walk { queue: w.queue.skip(1), stopped: false, ..w };
        lemma_rows_where_contains(s.edges, edge_to(ns, target));
        assert forall|i: int| 0 <= i < es.len() implies s.edges.contains(#[trigger] es[i])
            && edge_to(ns, target)(es[i]) by {
            assert(es.contains(es[i]));
        }
        assert forall|i: int| 0 <= i < start.queue.len() implies 1 <= (#[trigger] start.queue[i]).1 by {
            assert(start.queue[i] == w.queue[i + 1]);
        }
        assert(callers_sound(s, ns, max_depth, limit, start));
        lemma_caller_steps_sound(s, ns, max_depth, limit, target, depth, es, start);
        lemma_caller_steps(s, ns, max_depth, limit, target, depth, es, start);
        lemma_callers_sound(s, ns, max_depth, limit, caller_round(s, ns, max_depth, limit, w));
    }
}

/// Whether the hops come in the order of their depths.
pub open spec fn depths_in_order(hops: Seq<Hop>) -> bool {
    forall|i: int, j: int|
        0 <= i < j < hops.len() ==> (#[trigger] hops[i]).depth <= (#[trigger] hops[j]).depth
}

/// Whether a document is among the hops, at most `depth` deep.
pub open spec fn reached(hops: Seq<Hop>, doc: Seq<char>, depth: int) -> bool {
    exists|i: int|
        0 <= i < hops.len() && (#[trigger] hops[i]).document_id == doc && hops[i].depth <= depth
}

/// Whether every document that calls `target` is among the hops, at most `depth` deep.
pub open spec fn callers_reached(
    s: State,
    ns: Seq<char>,
    hops: Seq<Hop>,
    target: Seq<char>,
    depth: int,
) -> bool {
    forall|e: CodeEdge| #[trigger]
        s.edges.contains(e) && e.namespace == ns && e.dst_sym == target && e.edge_kind
            == EdgeKind::Calls ==> reached(hops, e.src_doc_id, depth)
}

/// What is still to be looked at comes in the order of depths, at `depth` or one deeper, and no
/// hop is deeper than `depth`.
spec fn in_layers(w: Walk, depth: int) -> bool {
    &&& depths_in_order(w.hops)
    &&& forall|i: int| 0 <= i < w.hops.len() ==> (#[trigger] w.hops[i]).depth <= depth
    &&& forall|i: int| 0 <= i < w.queue.len() ==> depth <= (#[trigger] w.queue[i]).1 <= depth + 1
    &&& forall|i: int, j: int|
        0 <= i < j < w.queue.len() ==> (#[trigger] w.queue[i]).1 <= (#[trigger] w.queue[j]).1
}

/// Whether one walk goes on from another.
spec fn goes_on(w: Walk, r: Walk) -> bool {
    &&& w.hops.len() <= r.hops.len()
    &&& forall|i: int| 0 <= i < w.hops.len() ==> #[trigger] r.hops[i] == w.hops[i]
    &&& forall|x: (Seq<char>, usize)| #[trigger] w.queue.contains(x) ==> r.queue.contains(x)
    &&& forall|x: Seq<char>| #[trigger] w.visited.contains(x) ==> r.visited.contains(x)
}

proof fn lemma_callers_reached_on(
    s: State,
    ns: Seq<char>,
    w: Walk,
    r: Walk,
    target: Seq<char>,
    depth: int,
)
    requires
        goes_on(w, r),
        callers_reached(s, ns, w.hops, target, depth),
    ensures
        callers_reached(s, ns, r.hops, target, depth),
{
    assert forall|e: CodeEdge| #[trigger]
        s.edges.contains(e) && e.namespace == ns && e.dst_sym == target && e.edge_kind
            == EdgeKind::Calls implies reached(r.hops, e.src_doc_id, depth) by {
        let i = choose|i: int|
            0 <= i < w.hops.len() && (#[trigger] w.hops[i]).document_id == e.src_doc_id
                && w.hops[i].depth <= depth;
        assert(r.hops[i] == w.hops[i]);
    }
}

/// The hops from `from` on are `depth` deep, and unless that is deep enough, the symbols of their
/// documents are to be looked at.
spec fn callers_queued(s: State, ns: Seq<char>, max_depth: usize, from: int, depth: int, w: Walk) -> bool {
    forall|i: int|
        from <= i < w.hops.len() ==> (#[trigger] w.hops[i]).depth == depth && (depth < max_depth
            ==> forall|t: Seq<char>| #[trigger]
            doc_symbols(s, ns, w.hops[i].document_id).contains(t) ==> w.queue.contains(
                (t, (depth + 1) as usize),
            ))
}

proof fn lemma_caller_steps_layered(
    s: State,
    ns: Seq<char>,
    max_depth: usize,
    limit: usize,
    target: Seq<char>,
    depth: usize,
    edges: Seq<CodeEdge>,
    w: Walk,
)
    requires
        in_layers(w, depth as int),
        depth <= max_depth,
        !w.stopped,
    ensures
        ({
            let r = caller_steps(s, ns, max_depth, limit, target, depth, edges, w);
            &&& in_layers(r, depth as int)
            &&& goes_on(w, r)
            &&& r.stopped ==> r.hops.len() >= limit
            &&& !r.stopped ==> callers_queued(s, ns, max_depth, w.hops.len() as int, depth as int, r)
            &&& !r.stopped ==> forall|i: int|
                0 <= i < edges.len() && (#[trigger] edges[i]).edge_kind == EdgeKind::Calls
                    ==> r.visited.contains(edges[i].src_doc_id)
        }),
    decreases edges.len(),
{
    if edges.len() > 0 {
        let head = edges.drop_last();
        lemma_caller_steps_layered(s, ns, max_depth, limit, target, depth, head, w);
        let m = caller_steps(s, ns, max_depth, limit, target, depth, head, w);
        let e = edges.last();
        let r = caller_step(s, ns, max_depth, limit, target, depth, e, m);
        let n = m.hops.len() as int;
        if r.hops.len() > n {
            let syms = doc_symbols(s, ns, e.src_doc_id);
            let more = at_depth(syms, (depth + 1) as usize);
            assert(forall|i: int| 0 <= i < n ==> r.hops[i] == m.hops[i]);
            assert(r.visited[m.visited.len() as int] == e.src_doc_id);
            assert forall|x: Seq<char>| #[trigger] m.visited.contains(x) implies r.visited.contains(x) by {
                let k = choose|k: int| 0 <= k < m.visited.len() && m.visited[k] == x;
                assert(r.visited[k] == x);
            }
            assert forall|x: (Seq<char>, usize)| #[trigger] m.queue.contains(x) implies r.queue.contains(
            x) by {
                let k = choose|k: int| 0 <= k < m.queue.len() && m.queue[k] == x;
                assert(r.queue[k] == x);
            }
            if !r.stopped && depth < max_depth {
                assert forall|t: Seq<char>| #[trigger] syms.contains(t) implies r.queue.contains(
                    (t, (depth + 1) as usize),
                ) by {
                    let k = choose|k: int| 0 <= k < syms.len() && syms[k] == t;
                    assert(more[k] == (t, (depth + 1) as usize));
                    assert(r.queue[m.queue.len() + k] == more[k]);
                }
            }
        }
        if !r.stopped {
            assert forall|i: int|
                0 <= i < edges.len() && (#[trigger] edges[i]).edge_kind == EdgeKind::Calls implies r.visited.contains(
            edges[i].src_doc_id) by {
                if i < head.len() {
                    assert(head[i] == edges[i]);
                    assert(m.visited.contains(head[i].src_doc_id));
                } else {
                    assert(edges[i] == e);
                }
            }
        }
    }
}

/// A symbol is done, or still to be looked at.
spec fn pursued(s: State, ns: Seq<char>, w: Walk, target: Seq<char>, depth: int) -> bool {
    callers_reached(s, ns, w.hops, target, depth) || w.queue.contains((target, depth as usize))
}

/// The symbol that was asked about, and those of every document among the hops that is not too
/// deep, are done or still to be looked at.
spec fn callers_pursued(s: State, ns: Seq<char>, sym: Seq<char>, max_depth: usize, w: Walk) -> bool {
    &&& pursued(s, ns, w, sym, 1)
    &&& forall|i: int, t: Seq<char>|
        #![trigger doc_symbols(s, ns, w.hops[i].document_id).contains(t)]
        0 <= i < w.hops.len() && w.hops[i].depth < max_depth && doc_symbols(
            s,
            ns,
            w.hops[i].document_id,
        ).contains(t) ==> pursued(s, ns, w, t, w.hops[i].depth + 1)
}

/// Whether a walk from `sym` left nothing out: every document that calls `sym` is among the hops,
/// one deep, and every document that calls a symbol of a hop's document is among them too, at
/// most one deeper than that hop, unless it would be too deep.
pub open spec fn callers_complete(
    s: State,
    ns: Seq<char>,
    sym: Seq<char>,
    max_depth: usize,
    hops: Seq<Hop>,
) -> bool {
    &&& max_depth >= 1 ==> callers_reached(s, ns, hops, sym, 1)
    &&& forall|i: int, t: Seq<char>|
        #![trigger doc_symbols(s, ns, hops[i].document_id).contains(t)]
        0 <= i < hops.len() && hops[i].depth < max_depth && doc_symbols(
            s,
            ns,
            hops[i].document_id,
        ).contains(t) ==> callers_reached(s, ns, hops, t, hops[i].depth + 1)
}

proof fn lemma_pursued_on(
    s: State,
    ns: Seq<char>,
    w: Walk,
    start: Walk,
    r: Walk,
    target: Seq<char>,
    depth: int,
    t: Seq<char>,
    d: int,
)
    requires
        w.queue.len() > 0,
        w.queue[0] == (target, depth as usize),
        0 <= depth <= usize::MAX,
        0 <= d <= usize::MAX,
        start.hops == w.hops,
        start.queue == w.queue.skip(1),
        goes_on(start, r),
        callers_reached(s, ns, r.hops, target, depth),
        pursued(s, ns, w, t, d),
    ensures
        pursued(s, ns, r, t, d),
{
    if callers_reached(s, ns, w.hops, t, d) {
        lemma_callers_reached_on(s, ns, start, r, t, d);
    } else {
        let k = choose|k: int| 0 <= k < w.queue.len() && w.queue[k] == (t, d as usize);
        if k > 0 {
            assert(start.queue[k - 1] == w.queue[k]);
            assert(start.queue.contains((t, d as usize)));
        }
    }
}

proof fn lemma_callers_layered(
    s: State,
    ns: Seq<char>,
    sym: Seq<char>,
    max_depth: usize,
    limit: usize,
    w: Walk,
)
    requires
        callers_sound(s, ns, max_depth, limit, w),
        depths_in_order(w.hops),
        w.queue.len() > 0 ==> in_layers(w, w.queue[0].1 as int),
        w.hops.len() < limit ==> callers_pursued(s, ns, sym, max_depth, w),
    ensures
        ({
            let r = callers_from(s, ns, max_depth, limit, w);
            &&& depths_in_order(r)
            &&& r.len() < limit ==> callers_complete(s, ns, sym, max_depth, r)
        }),
    decreases rows_where(s.edges, fresh_edges(w.visited)).len(), w.queue.len(),
{
    if walk_over(max_depth, limit, w) {
        if w.hops.len() < limit {
            assert forall|t: Seq<char>, d: int|
                1 <= d <= max_depth && #[trigger] pursued(s, ns, w, t, d) implies callers_reached(
                s,
                ns,
                w.hops,
                t,
                d,
            ) by {
                if w.queue.contains((t, d as usize)) {
                    let k = choose|k: int| 0 <= k < w.queue.len() && w.queue[k] == (t, d as usize);
                    assert(w.queue[0].1 <= w.queue[k].1);
                }
            }
            assert forall|i: int, t: Seq<char>|
                #![trigger doc_symbols(s, ns, w.hops[i].document_id).contains(t)]
                0 <= i < w.hops.len() && w.hops[i].depth < max_depth && doc_symbols(
                    s,
                    ns,
                    w.hops[i].document_id,
                ).contains(t) implies callers_reached(s, ns, w.hops, t, w.hops[i].depth + 1) by {
                assert(pursued(s, ns, w, t, w.hops[i].depth + 1));
            }
        }
    } else {
        let (target, depth) = w.queue[0];
        let es = rows_where(s.edges, edge_to(ns, target));
        let start = Walk { queue: w.queue.skip(1), stopped: false, ..w };
        let r = caller_round(s, ns, max_depth, limit, w);
        lemma_rows_where_contains(s.edges, edge_to(ns, target));
        assert forall|i: int| 0 <= i < es.len() implies s.edges.contains(#[trigger] es[i])
            && edge_to(ns, target)(es[i]) by {
            assert(es.contains(es[i]));
        }
        assert(forall|i: int| 0 <= i < start.queue.len() ==> start.queue[i] == w.queue[i + 1]);
        assert(callers_sound(s, ns, max_depth, limit, start));
        assert(in_layers(start, depth as int));
        lemma_caller_steps_sound(s, ns, max_depth, limit, target, depth, es, start);
        lemma_caller_steps(s, ns, max_depth, limit, target, depth, es, start);
        lemma_caller_steps_layered(s, ns, max_depth, limit, target, depth, es, start);
        if r.hops.len() < limit {
            assert(callers_reached(s, ns, r.hops, target, depth as int)) by {
                assert forall|e: CodeEdge| #[trigger]
                    s.edges.contains(e) && e.namespace == ns && e.dst_sym == target && e.edge_kind
                        == EdgeKind::Calls implies reached(r.hops, e.src_doc_id, depth as int) by {
                    assert(es.contains(e));
                    let k = choose|k: int| 0 <= k < es.len() && es[k] == e;
                    assert(r.visited.contains(es[k].src_doc_id));
                    let j = choose|j: int| 0 <= j < r.visited.len() && r.visited[j] == e.src_doc_id;
                    assert(r.hops[j].document_id == r.visited[j]);
                }
            }
            lemma_pursued_on(s, ns, w, start, r, target, depth as int, sym, 1);
            assert forall|i: int, t: Seq<char>|
                #![trigger doc_symbols(s, ns, r.hops[i].document_id).contains(t)]
                0 <= i < r.hops.len() && r.hops[i].depth < max_depth && doc_symbols(
                    s,
                    ns,
                    r.hops[i].document_id,
                ).contains(t) implies pursued(s, ns, r, t, r.hops[i].depth + 1) by {
                if i < w.hops.len() {
                    assert(r.hops[i] == w.hops[i]);
                    assert(doc_symbols(s, ns, w.hops[i].document_id).contains(t));
                    lemma_pursued_on(s, ns, w, start, r, target, depth as int, t, w.hops[i].depth + 1);
                } else {
                    assert(r.hops[i].depth == depth);
                }
            }
        }
        lemma_callers_layered(s, ns, sym, max_depth, limit, r);
    }
}

/// Every hop of `callers` is a call in the code graph, from the hop's document to the hop's
/// symbol, at a depth from one to `max_depth`; no document comes twice, and there are at most
/// `limit` hops. The hops come in the order of their depths, and unless there are `limit` of
/// them, no document that calls in within the depth is left out.
pub proof fn law_callers(s: State, ns: Seq<char>, sym: Seq<char>, max_depth: usize, limit: usize)
    ensures
        ({
            let r = callers_of(s, ns, sym, max_depth, limit);
            &&& r.len() <= limit
            &&& forall|i: int|
                0 <= i < r.len() ==> 1 <= (#[trigger] r[i]).depth <= max_depth
                    && exists|e: CodeEdge| #[trigger] call_of_hop(s, ns, r[i], e)
            &&& forall|i: int, j: int|
                0 <= i < j < r.len() ==> (#[trigger] r[i]).document_id != (#[trigger] r[j]).document_id
            &&& depths_in_order(r)
            &&& r.len() < limit ==> callers_complete(s, ns, sym, max_depth, r)
        }),
{
    let w = Walk {
        hops: Seq::empty(),
        visited: Seq::empty(),
        queue: seq![(sym, 1usize)],
        stopped: false,
    };
    assert(callers_sound(s, ns, max_depth, limit, w));
    lemma_callers_sound(s, ns, max_depth, limit, w);
    assert(w.queue[0] == (sym, 1usize));
    assert(pursued(s, ns, w, sym, 1));
    lemma_callers_layered(s, ns, sym, max_depth, limit, w);
    let v = choose|v: Walk|
        #[trigger] callers_sound(s, ns, max_depth, limit, v) && v.hops == callers_from(
            s,
            ns,
            max_depth,
            limit,
            w,
        );
    let r = callers_of(s, ns, sym, max_depth, limit);
    assert(r == v.hops);
    assert forall|i: int, j: int| 0 <= i < j < r.len() implies (#[trigger] r[i]).document_id != (
    #[trigger] r[j]).document_id by {
        assert(v.hops[i].document_id == v.visited[i]);
        assert(v.hops[j].document_id == v.visited[j]);
    }
}

/// A call in the code graph that a hop of `callees` stands for: its document is the one that the
/// called symbol leads to, where there is one.
pub open spec fn called_by_hop(s: State, ns: Seq<char>, h: Hop, e: CodeEdge) -> bool {
    &&& s.edges.contains(e)
    &&& e.namespace == ns
    &&& e.edge_kind == EdgeKind::Calls
    &&& e.dst_sym == h.sym
    &&& e.confidence == h.confidence
    &&& h.document_id == match resolved(s, ns, h.sym) {
        Some(doc) => doc,
        None => ""@,
    }
}

/// The hops so far are calls at permitted depths, and those that lead to a document lead to one
/// that was visited, each to another.
spec fn callees_sound(s: State, ns: Seq<char>, max_depth: usize, source: Seq<char>, w: Walk) -> bool {
    &&& w.visited.contains(source)
    &&& forall|i: int|
        0 <= i < w.hops.len() ==> 1 <= (#[trigger] w.hops[i]).depth <= max_depth
            && exists|e: CodeEdge| #[trigger] called_by_hop(s, ns, w.hops[i], e)
    &&& forall|i: int|
        0 <= i < w.hops.len() && resolved(s, ns, (#[trigger] w.hops[i]).sym) is Some
            ==> w.visited.contains(w.hops[i].document_id) && w.hops[i].document_id != source
    &&& forall|i: int, j: int|
        0 <= i < j < w.hops.len() && resolved(s, ns, (#[trigger] w.hops[i]).sym) is Some && resolved(
            s,
            ns,
            (#[trigger] w.hops[j]).sym,
        ) is Some ==> w.hops[i].document_id != w.hops[j].document_id
    &&& forall|i: int| 0 <= i < w.queue.len() ==> 1 <= (#[trigger] w.queue[i]).1
}

#[verifier::rlimit(30)]
proof fn lemma_callee_steps_sound(
    s: State,
    ns: Seq<char>,
    max_depth: usize,
    limit: usize,
    source: Seq<char>,
    depth: usize,
    edges: Seq<CodeEdge>,
    w: Walk,
)
    requires
        callees_sound(s, ns, max_depth, source, w),
        1 <= depth <= max_depth,
        forall|i: int|
            0 <= i < edges.len() ==> s.edges.contains(#[trigger] edges[i]) && edges[i].namespace == ns,
    ensures
        callees_sound(s, ns, max_depth, source, callee_steps(s, ns, max_depth, limit, depth, edges, w)),
    decreases edges.len(),
{
    if edges.len() > 0 {
        let head = edges.drop_last();
        assert forall|i: int| 0 <= i < head.len() implies s.edges.contains(#[trigger] head[i])
            && head[i].namespace == ns by {
            assert(head[i] == edges[i]);
        }
        lemma_callee_steps_sound(s, ns, max_depth, limit, source, depth, head, w);
        let m = callee_steps(s, ns, max_depth, limit, depth, head, w);
        let e = edges.last();
        let r = callee_step(s, ns, max_depth, limit, depth, e, m);
        assert(edges[edges.len() - 1] == e);
        if r.hops.len() == m.hops.len() {
            assert(r == m);
        } else {
            let n = m.hops.len() as int;
            assert(called_by_hop(s, ns, r.hops[n], e));
            assert(forall|i: int| 0 <= i < n ==> r.hops[i] == m.hops[i]);
            assert forall|x: Seq<char>| m.visited.contains(x) implies r.visited.contains(x) by {
                let k = choose|k: int| 0 <= k < m.visited.len() && m.visited[k] == x;
                assert(r.visited[k] == x);
            }
            if resolved(s, ns, e.dst_sym) is Some {
                assert(r.visited[m.visited.len() as int] == resolved(s, ns, e.dst_sym)->0);
            }
            assert forall|i: int| 0 <= i < r.queue.len() implies 1 <= (#[trigger] r.queue[i]).1 by {
                if i < m.queue.len() {
                    assert(r.queue[i] == m.queue[i]);
                }
            }
            assert forall|i: int| 0 <= i < r.hops.len() implies 1 <= (#[trigger] r.hops[i]).depth
                <= max_depth && exists|e: CodeEdge| #[trigger] called_by_hop(s, ns, r.hops[i], e) by {
                if i < n {
                    assert(r.hops[i] == m.hops[i]);
                }
            }
            assert forall|i: int|
                0 <= i < r.hops.len() && resolved(s, ns, (#[trigger] r.hops[i]).sym) is Some implies r.visited.contains(
            r.hops[i].document_id) && r.hops[i].document_id != source by {
                if i < n {
                    assert(r.hops[i] == m.hops[i]);
                }
            }
            assert forall|i: int, j: int|
                0 <= i < j < r.hops.len() && resolved(s, ns, (#[trigger] r.hops[i]).sym) is Some
                    && resolved(s, ns, (#[trigger] r.hops[j]).sym) is Some implies r.hops[i].document_id
                != r.hops[j].document_id by {
                assert(r.hops[i] == m.hops[i]);
                if j < n {
                    assert(r.hops[j] == m.hops[j]);
                } else {
                    assert(m.visited.contains(m.hops[i].document_id));
                }
            }
        }
    }
}

proof fn lemma_callees_sound(
    s: State,
    ns: Seq<char>,
    max_depth: usize,
    limit: usize,
    source: Seq<char>,
    w: Walk,
)
    requires
        callees_sound(s, ns, max_depth, source, w),
    ensures
        exists|v: Walk|
            #[trigger] callees_sound(s, ns, max_depth, source, v) && v.hops == callees_from(
                s,
                ns,
                max_depth,
                limit,
                w,
            ),
    decreases rows_where(s.mentions, fresh_mentions(w.visited)).len(), w.queue.len(),
{
    if !walk_over(max_depth, limit, w) {
        let (doc, depth) = w.queue[0];
        let es = rows_where(s.edges, edge_from(ns, doc));
        let start = Walk { queue: w.queue.skip(1), stopped: false, ..w };
        lemma_rows_where_contains(s.edges, edge_from(ns, doc));
        assert forall|i: int| 0 <= i < es.len() implies s.edges.contains(#[trigger] es[i])
            && es[i].namespace == ns by {
            assert(es.contains(es[i]));
        }
        assert forall|i: int| 0 <= i < start.queue.len() implies 1 <= (#[trigger] start.queue[i]).1 by {
            assert(start.queue[i] == w.queue[i + 1]);
        }
        assert(callees_sound(s, ns, max_depth, source, start));
        lemma_callee_steps_sound(s, ns, max_depth, limit, source, depth, es, start);
        lemma_callee_steps(s, ns, max_depth, limit, depth, es, start);
        lemma_callees_sound(s, ns, max_depth, limit, source, callee_round(s, ns, max_depth, limit, w));
    }
}

proof fn lemma_callee_steps_limit(
    s: State,
    ns: Seq<char>,
    max_depth: usize,
    limit: usize,
    depth: usize,
    edges: Seq<CodeEdge>,
    w: Walk,
)
    requires
        w.hops.len() < limit,
        !w.stopped,
    ensures
        ({
            let r = callee_steps(s, ns, max_depth, limit, depth, edges, w);
            r.hops.len() <= limit && (r.stopped || r.hops.len() < limit)
        }),
    decreases edges.len(),
{
    if edges.len() > 0 {
        lemma_callee_steps_limit(s, ns, max_depth, limit, depth, edges.drop_last(), w);
    }
}

proof fn lemma_callees_limit(s: State, ns: Seq<char>, max_depth: usize, limit: usize, w: Walk)
    requires
        w.hops.len() <= limit,
    ensures
        callees_from(s, ns, max_depth, limit, w).len() <= limit,
    decreases rows_where(s.mentions, fresh_mentions(w.visited)).len(), w.queue.len(),
{
    if !walk_over(max_depth, limit, w) {
        let (doc, depth) = w.queue[0];
        let es = rows_where(s.edges, edge_from(ns, doc));
        let start = Walk { queue: w.queue.skip(1), stopped: false, ..w };
        lemma_callee_steps_limit(s, ns, max_depth, limit, depth, es, start);
        lemma_callee_steps(s, ns, max_depth, limit, depth, es, start);
        lemma_callees_limit(s, ns, max_depth, limit, callee_round(s, ns, max_depth, limit, w));
    }
}

/// Whether a call is among the hops, at most `depth` deep: a call of a symbol that no document
/// mentions as a hop of its own, any other as a hop that leads to the same document, unless that
/// is the file asked about.
pub open spec fn call_shown(
    s: State,
    ns: Seq<char>,
    source: Seq<char>,
    hops: Seq<Hop>,
    e: CodeEdge,
    depth: int,
) -> bool {
    match resolved(s, ns, e.dst_sym) {
        None => exists|i: int|
            0 <= i < hops.len() && (#[trigger] hops[i]).sym == e.dst_sym && hops[i].confidence
                == e.confidence && hops[i].depth <= depth,
        Some(doc) => doc == source || reached(hops, doc, depth),
    }
}

/// Whether every call that starts from a document is among the hops, at most `depth` deep.
pub open spec fn calls_shown(
    s: State,
    ns: Seq<char>,
    source: Seq<char>,
    hops: Seq<Hop>,
    doc: Seq<char>,
    depth: int,
) -> bool {
    forall|e: CodeEdge| #[trigger]
        s.edges.contains(e) && e.namespace == ns && e.src_doc_id == doc && e.edge_kind
            == EdgeKind::Calls ==> call_shown(s, ns, source, hops, e, depth)
}

/// Whether a walk from a file left nothing out: every call from the file is among the hops, one
/// deep, and every call from a document that a hop leads to is among them too, at most one deeper
/// than that hop, unless it would be too deep.
pub open spec fn callees_complete(
    s: State,
    ns: Seq<char>,
    source: Seq<char>,
    max_depth: usize,
    hops: Seq<Hop>,
) -> bool {
    &&& max_depth >= 1 ==> calls_shown(s, ns, source, hops, source, 1)
    &&& forall|i: int|
        0 <= i < hops.len() && (#[trigger] hops[i]).depth < max_depth && resolved(s, ns, hops[i].sym)
            is Some ==> calls_shown(s, ns, source, hops, hops[i].document_id, hops[i].depth + 1)
}

/// Every document visited is the one asked about or among the hops.
spec fn visits_shown(source: Seq<char>, w: Walk, depth: int) -> bool {
    forall|x: Seq<char>| #[trigger] w.visited.contains(x) ==> x == source || reached(w.hops, x, depth)
}

/// The hops from `from` on are `depth` deep, and unless that is deep enough, the documents that
/// they lead to are to be looked at.
spec fn callees_queued(s: State, ns: Seq<char>, max_depth: usize, from: int, depth: int, w: Walk) -> bool {
    forall|i: int|
        from <= i < w.hops.len() ==> (#[trigger] w.hops[i]).depth == depth && (depth < max_depth
            && resolved(s, ns, w.hops[i].sym) is Some ==> w.queue.contains(
            (w.hops[i].document_id, (depth + 1) as usize),
        ))
}

proof fn lemma_call_shown_on(
    s: State,
    ns: Seq<char>,
    source: Seq<char>,
    w: Walk,
    r: Walk,
    e: CodeEdge,
    depth: int,
)
    requires
        goes_on(w, r),
        call_shown(s, ns, source, w.hops, e, depth),
    ensures
        call_shown(s, ns, source, r.hops, e, depth),
{
    match resolved(s, ns, e.dst_sym) {
        None => {
            let i = choose|i: int|
                0 <= i < w.hops.len() && (#[trigger] w.hops[i]).sym == e.dst_sym && w.hops[i].confidence
                    == e.confidence && w.hops[i].depth <= depth;
            assert(r.hops[i] == w.hops[i]);
        },
        Some(doc) => {
            if doc != source {
                let i = choose|i: int|
                    0 <= i < w.hops.len() && (#[trigger] w.hops[i]).document_id == doc && w.hops[i].depth
                        <= depth;
                assert(r.hops[i] == w.hops[i]);
            }
        },
    }
}

#[verifier::rlimit(30)]
proof fn lemma_callee_steps_layered(
    s: State,
    ns: Seq<char>,
    max_depth: usize,
    limit: usize,
    source: Seq<char>,
    depth: usize,
    edges: Seq<CodeEdge>,
    w: Walk,
)
    requires
        in_layers(w, depth as int),
        visits_shown(source, w, depth as int),
        depth <= max_depth,
        !w.stopped,
    ensures
        ({
            let r = callee_steps(s, ns, max_depth, limit, depth, edges, w);
            &&& in_layers(r, depth as int)
            &&& visits_shown(source, r, depth as int)
            &&& goes_on(w, r)
            &&& r.stopped ==> r.hops.len() >= limit
            &&& !r.stopped ==> callees_queued(s, ns, max_depth, w.hops.len() as int, depth as int, r)
            &&& !r.stopped ==> forall|i: int|
                0 <= i < edges.len() && (#[trigger] edges[i]).edge_kind == EdgeKind::Calls ==> call_shown(
                    s,
                    ns,
                    source,
                    r.hops,
                    edges[i],
                    depth as int,
                )
        }),
    decreases edges.len(),
{
    if edges.len() > 0 {
        let head = edges.drop_last();
        lemma_callee_steps_layered(s, ns, max_depth, limit, source, depth, head, w);
        let m = callee_steps(s, ns, max_depth, limit, depth, head, w);
        let e = edges.last();
        let r = callee_step(s, ns, max_depth, limit, depth, e, m);
        let n = m.hops.len() as int;
        if r.hops.len() > n {
            assert(forall|i: int| 0 <= i < n ==> r.hops[i] == m.hops[i]);
            assert forall|x: Seq<char>| #[trigger] m.visited.contains(x) implies r.visited.contains(x) by {
                let k = choose|k: int| 0 <= k < m.visited.len() && m.visited[k] == x;
                assert(r.visited[k] == x);
            }
            assert forall|x: (Seq<char>, usize)| #[trigger] m.queue.contains(x) implies r.queue.contains(
            x) by {
                let k = choose|k: int| 0 <= k < m.queue.len() && m.queue[k] == x;
                assert(r.queue[k] == x);
            }
            assert forall|x: Seq<char>| #[trigger] r.visited.contains(x) implies x == source || reached(
                r.hops,
                x,
                depth as int,
            ) by {
                let k = choose|k: int| 0 <= k < r.visited.len() && r.visited[k] == x;
                if k < m.visited.len() {
                    assert(m.visited[k] == x);
                    assert(m.visited.contains(x));
                    if x != source {
                        let i = choose|i: int|
                            0 <= i < m.hops.len() && (#[trigger] m.hops[i]).document_id == x
                                && m.hops[i].depth <= depth;
                        assert(r.hops[i] == m.hops[i]);
                    }
                } else {
                    assert(r.hops[n].document_id == x);
                }
            }
            if !r.stopped && depth < max_depth && resolved(s, ns, e.dst_sym) is Some {
                assert(r.queue[m.queue.len() as int] == (r.hops[n].document_id, (depth + 1) as usize));
            }
        }
        if !r.stopped {
            assert(goes_on(m, r));
            assert forall|i: int|
                0 <= i < edges.len() && (#[trigger] edges[i]).edge_kind == EdgeKind::Calls implies call_shown(
                s,
                ns,
                source,
                r.hops,
                edges[i],
                depth as int,
            ) by {
                if i < head.len() {
                    assert(head[i] == edges[i]);
                    lemma_call_shown_on(s, ns, source, m, r, head[i], depth as int);
                } else {
                    assert(edges[i] == e);
                    if resolved(s, ns, e.dst_sym) is None {
                        assert(r.hops[n].sym == e.dst_sym);
                    } else {
                        let doc = resolved(s, ns, e.dst_sym)->0;
                        if r.hops.len() > n {
                            assert(r.hops[n].document_id == doc);
                        } else {
                            assert(m.visited.contains(doc));
                        }
                    }
                }
            }
        }
    }
}

/// The calls of a document are among the hops, or it is still to be looked at.
spec fn followed(s: State, ns: Seq<char>, source: Seq<char>, w: Walk, doc: Seq<char>, depth: int) -> bool {
    calls_shown(s, ns, source, w.hops, doc, depth) || w.queue.contains((doc, depth as usize))
}

/// The file asked about, and every document among the hops that is not too deep, was looked at or
/// is still to be.
spec fn callees_followed(s: State, ns: Seq<char>, source: Seq<char>, max_depth: usize, w: Walk) -> bool {
    &&& followed(s, ns, source, w, source, 1)
    &&& forall|i: int|
        0 <= i < w.hops.len() && (#[trigger] w.hops[i]).depth < max_depth && resolved(
            s,
            ns,
            w.hops[i].sym,
        ) is Some ==> followed(s, ns, source, w, w.hops[i].document_id, w.hops[i].depth + 1)
}

proof fn lemma_followed_on(
    s: State,
    ns: Seq<char>,
    source: Seq<char>,
    w: Walk,
    start: Walk,
    r: Walk,
    target: Seq<char>,
    depth: int,
    doc: Seq<char>,
    d: int,
)
    requires
        w.queue.len() > 0,
        w.queue[0] == (target, depth as usize),
        0 <= depth <= usize::MAX,
        0 <= d <= usize::MAX,
        start.hops == w.hops,
        start.queue == w.queue.skip(1),
        goes_on(start, r),
        calls_shown(s, ns, source, r.hops, target, depth),
        followed(s, ns, source, w, doc, d),
    ensures
        followed(s, ns, source, r, doc, d),
{
    if calls_shown(s, ns, source, w.hops, doc, d) {
        assert forall|e: CodeEdge| #[trigger]
            s.edges.contains(e) && e.namespace == ns && e.src_doc_id == doc && e.edge_kind
                == EdgeKind::Calls implies call_shown(s, ns, source, r.hops, e, d) by {
            lemma_call_shown_on(s, ns, source, start, r, e, d);
        }
    } else {
        let k = choose|k: int| 0 <= k < w.queue.len() && w.queue[k] == (doc, d as usize);
        if k > 0 {
            assert(start.queue[k - 1] == w.queue[k]);
            assert(start.queue.contains((doc, d as usize)));
        }
    }
}

proof fn lemma_callees_layered(
    s: State,
    ns: Seq<char>,
    source: Seq<char>,
    max_depth: usize,
    limit: usize,
    w: Walk,
)
    requires
        depths_in_order(w.hops),
        w.queue.len() > 0 ==> in_layers(w, w.queue[0].1 as int) && visits_shown(
            source,
            w,
            w.queue[0].1 as int,
        ),
        w.hops.len() < limit ==> callees_followed(s, ns, source, max_depth, w),
    ensures
        ({
            let r = callees_from(s, ns, max_depth, limit, w);
            &&& depths_in_order(r)
            &&& r.len() < limit ==> callees_complete(s, ns, source, max_depth, r)
        }),
    decreases rows_where(s.mentions, fresh_mentions(w.visited)).len(), w.queue.len(),
{
    if walk_over(max_depth, limit, w) {
        if w.hops.len() < limit {
            assert forall|doc: Seq<char>, d: int|
                1 <= d <= max_depth && #[trigger] followed(s, ns, source, w, doc, d) implies calls_shown(
                s,
                ns,
                source,
                w.hops,
                doc,
                d,
            ) by {
                if w.queue.contains((doc, d as usize)) {
                    let k = choose|k: int| 0 <= k < w.queue.len() && w.queue[k] == (doc, d as usize);
                    assert(w.queue[0].1 <= w.queue[k].1);
                }
            }
        }
    } else {
        let (target, depth) = w.queue[0];
        let es = rows_where(s.edges, edge_from(ns, target));
        let start = Walk { queue: w.queue.skip(1), stopped: false, ..w };
        let r = callee_round(s, ns, max_depth, limit, w);
        lemma_rows_where_contains(s.edges, edge_from(ns, target));
        assert(forall|i: int| 0 <= i < start.queue.len() ==> start.queue[i] == w.queue[i + 1]);
        assert(in_layers(start, depth as int));
        lemma_callee_steps(s, ns, max_depth, limit, depth, es, start);
        lemma_callee_steps_layered(s, ns, max_depth, limit, source, depth, es, start);
        if r.hops.len() < limit {
            assert forall|e: CodeEdge| #[trigger]
                s.edges.contains(e) && e.namespace == ns && e.src_doc_id == target && e.edge_kind
                    == EdgeKind::Calls implies call_shown(s, ns, source, r.hops, e, depth as int) by {
                assert(es.contains(e));
                let k = choose|k: int| 0 <= k < es.len() && es[k] == e;
                assert(es[k].edge_kind == EdgeKind::Calls);
            }
            lemma_followed_on(s, ns, source, w, start, r, target, depth as int, source, 1);
            assert forall|i: int|
                0 <= i < r.hops.len() && (#[trigger] r.hops[i]).depth < max_depth && resolved(
                    s,
                    ns,
                    r.hops[i].sym,
                ) is Some implies followed(
                s,
                ns,
                source,
                r,
                r.hops[i].document_id,
                r.hops[i].depth + 1,
            ) by {
                if i < w.hops.len() {
                    assert(r.hops[i] == w.hops[i]);
                    lemma_followed_on(
                        s,
                        ns,
                        source,
                        w,
                        start,
                        r,
                        target,
                        depth as int,
                        w.hops[i].document_id,
                        w.hops[i].depth + 1,
                    );
                } else {
                    assert(r.hops[i].depth == depth);
                }
            }
        }
        if r.queue.len() > 0 {
            let next = r.queue[0].1 as int;
            assert(depth <= next);
            assert forall|x: Seq<char>| #[trigger] r.visited.contains(x) implies x == source || reached(
                r.hops,
                x,
                next,
            ) by {
                if x != source {
                    let i = choose|i: int|
                        0 <= i < r.hops.len() && (#[trigger] r.hops[i]).document_id == x && r.hops[i].depth
                            <= depth;
                    assert(r.hops[i].depth <= next);
                }
            }
        }
        lemma_callees_layered(s, ns, source, max_depth, limit, r);
    }
}

/// Every hop of `callees` is a call in the code graph, at a depth from one to `max_depth`, that
/// leads to the document the called symbol leads to; a hop that leads to a document never leads
/// back to the file asked about, and no two lead to the same document. There are at most `limit`
/// hops, in the order of their depths, and unless there are `limit` of them, no call within the
/// depth is left out.
pub proof fn law_callees(s: State, ns: Seq<char>, path: Seq<char>, max_depth: usize, limit: usize)
    ensures
        ({
            let r = callees_of(s, ns, path, max_depth, limit);
            &&& r.len() <= limit
            &&& forall|i: int|
                0 <= i < r.len() ==> 1 <= (#[trigger] r[i]).depth <= max_depth
                    && exists|e: CodeEdge| #[trigger] called_by_hop(s, ns, r[i], e)
            &&& forall|i: int|
                0 <= i < r.len() && resolved(s, ns, (#[trigger] r[i]).sym) is Some
                    ==> r[i].document_id != (first_row(s.docs, doc_is(ns, path))->0).document_id
            &&& forall|i: int, j: int|
                0 <= i < j < r.len() && resolved(s, ns, (#[trigger] r[i]).sym) is Some && resolved(
                    s,
                    ns,
                    (#[trigger] r[j]).sym,
                ) is Some ==> r[i].document_id != r[j].document_id
            &&& depths_in_order(r)
            &&& r.len() < limit && first_row(s.docs, doc_is(ns, path)) is Some ==> callees_complete(
                s,
                ns,
                (first_row(s.docs, doc_is(ns, path))->0).document_id,
                max_depth,
                r,
            )
        }),
{
    match first_row(s.docs, doc_is(ns, path)) {
        Some(d) => {
            let w = Walk {
                hops: Seq::empty(),
                visited: seq![d.document_id],
                queue: seq![(d.document_id, 1usize)],
                stopped: false,
            };
            assert(w.visited[0] == d.document_id);
            assert(callees_sound(s, ns, max_depth, d.document_id, w));
            lemma_callees_sound(s, ns, max_depth, limit, d.document_id, w);
            lemma_callees_limit(s, ns, max_depth, limit, w);
            assert(w.queue[0] == (d.document_id, 1usize));
            assert(followed(s, ns, d.document_id, w, d.document_id, 1));
            lemma_callees_layered(s, ns, d.document_id, max_depth, limit, w);
        },
        None => {},
    }
}

// ---------------------------------------------------------------------------------------------
// How each hop is come by.
// ---------------------------------------------------------------------------------------------

/// Whether a walk that asks who calls `sym` gets to ask who calls `t` at this depth: it is what was asked for,
/// or a symbol of a document one step less deep.
pub open spec fn asked_for(
    s: State,
    ns: Seq<char>,
    sym: Seq<char>,
    hops: Seq<Hop>,
    t: Seq<char>,
    depth: int,
) -> bool {
    ||| depth == 1 && t == sym
    ||| exists|j: int|
        0 <= j < hops.len() && (#[trigger] hops[j]).depth == depth - 1 && doc_symbols(
            s,
            ns,
            hops[j].document_id,
        ).contains(t)
}

/// Whether a hop tells the file of its document and the kind of a call.
pub open spec fn names_file(s: State, ns: Seq<char>, h: Hop) -> bool {
    &&& h.edge_kind == "CALLS"@
    &&& forall|k: int|
        0 <= k < s.docs.len() && (#[trigger] s.docs[k]).namespace == ns && s.docs[k].document_id == h.document_id
            ==> h.path == s.docs[k].key
}

/// Whether each hop names its file, and the symbol that it calls was to be asked for.
pub open spec fn told_by_callers(s: State, ns: Seq<char>, sym: Seq<char>, hops: Seq<Hop>) -> bool {
    forall|i: int|
        0 <= i < hops.len() ==> names_file(s, ns, #[trigger] hops[i]) && asked_for(
            s,
            ns,
            sym,
            hops,
            hops[i].sym,
            hops[i].depth as int,
        )
}

spec fn callers_linked(s: State, ns: Seq<char>, sym: Seq<char>, w: Walk) -> bool {
    &&& forall|i: int|
        0 <= i < w.queue.len() ==> asked_for(
            s,
            ns,
            sym,
            w.hops,
            (#[trigger] w.queue[i]).0,
            w.queue[i].1 as int,
        )
    &&& told_by_callers(s, ns, sym, w.hops)
}

proof fn lemma_asked_on(
    s: State,
    ns: Seq<char>,
    sym: Seq<char>,
    hops: Seq<Hop>,
    h: Hop,
    t: Seq<char>,
    depth: int,
)
    requires
        asked_for(s, ns, sym, hops, t, depth),
    ensures
        asked_for(s, ns, sym, hops.push(h), t, depth),
{
    if !(depth == 1 && t == sym) {
        let j = choose|j: int|
            0 <= j < hops.len() && (#[trigger] hops[j]).depth == depth - 1 && doc_symbols(
                s,
                ns,
                hops[j].document_id,
            ).contains(t);
        assert(hops.push(h)[j] == hops[j]);
    }
}

proof fn lemma_names_file(s: State, ns: Seq<char>, h: Hop)
    requires
        s.wf(),
        h.edge_kind == edge_kind_text(EdgeKind::Calls),
        h.path == path_of(s, ns, h.document_id),
    ensures
        names_file(s, ns, h),
{
    let q = doc_has_id(ns, h.document_id);
    lemma_first_row(s.docs, q);
    assert forall|k: int|
        0 <= k < s.docs.len() && (#[trigger] s.docs[k]).namespace == ns && s.docs[k].document_id
            == h.document_id implies h.path == s.docs[k].key by {
        assert(q(s.docs[k]));
        let i = choose|i: int|
            0 <= i < s.docs.len() && #[trigger] s.docs[i] == first_row(s.docs, q)->0 && q(s.docs[i]);
        if i < k {
            assert(doc_id_key()(s.docs[i]) != doc_id_key()(s.docs[k]));
        } else if k < i {
            assert(doc_id_key()(s.docs[k]) != doc_id_key()(s.docs[i]));
        }
    }
}

proof fn lemma_caller_steps_linked(
    s: State,
    ns: Seq<char>,
    sym: Seq<char>,
    max_depth: usize,
    limit: usize,
    target: Seq<char>,
    depth: usize,
    edges: Seq<CodeEdge>,
    w: Walk,
)
    requires
        s.wf(),
        callers_linked(s, ns, sym, w),
        asked_for(s, ns, sym, w.hops, target, depth as int),
    ensures
        ({
            let r = caller_steps(s, ns, max_depth, limit, target, depth, edges, w);
            callers_linked(s, ns, sym, r) && asked_for(s, ns, sym, r.hops, target, depth as int)
        }),
    decreases edges.len(),
{
    if edges.len() > 0 {
        lemma_caller_steps_linked(s, ns, sym, max_depth, limit, target, depth, edges.drop_last(), w);
        let m = caller_steps(s, ns, max_depth, limit, target, depth, edges.drop_last(), w);
        let e = edges.last();
        let r = caller_step(s, ns, max_depth, limit, target, depth, e, m);
        if !(m.stopped || e.edge_kind != EdgeKind::Calls || m.visited.contains(e.src_doc_id)) {
            let h = r.hops.last();
            let n = m.hops.len() as int;
            assert(r.hops == m.hops.push(h));
            assert(r.hops[n] == h);
            lemma_names_file(s, ns, h);
            lemma_asked_on(s, ns, sym, m.hops, h, target, depth as int);
            assert forall|i: int| 0 <= i < r.queue.len() implies asked_for(
                s,
                ns,
                sym,
                r.hops,
                (#[trigger] r.queue[i]).0,
                r.queue[i].1 as int,
            ) by {
                if i < m.queue.len() {
                    assert(r.queue[i] == m.queue[i]);
                    lemma_asked_on(s, ns, sym, m.hops, h, m.queue[i].0, m.queue[i].1 as int);
                } else {
                    let syms = doc_symbols(s, ns, e.src_doc_id);
                    let k = i - m.queue.len();
                    assert(r.queue[i] == at_depth(syms, (depth + 1) as usize)[k]);
                    assert(syms.contains(syms[k]));
                    assert(r.hops[n].depth == depth + 1 - 1);
                }
            }
            assert forall|i: int| 0 <= i < r.hops.len() implies names_file(s, ns, #[trigger] r.hops[i])
                && asked_for(s, ns, sym, r.hops, r.hops[i].sym, r.hops[i].depth as int) by {
                if i < n {
                    assert(r.hops[i] == m.hops[i]);
                    lemma_asked_on(s, ns, sym, m.hops, h, m.hops[i].sym, m.hops[i].depth as int);
                }
            }
        }
    }
}

proof fn lemma_callers_linked(
    s: State,
    ns: Seq<char>,
    sym: Seq<char>,
    max_depth: usize,
    limit: usize,
    w: Walk,
)
    requires
        s.wf(),
        callers_linked(s, ns, sym, w),
    ensures
        told_by_callers(s, ns, sym, callers_from(s, ns, max_depth, limit, w)),
    decreases rows_where(s.edges, fresh_edges(w.visited)).len(), w.queue.len(),
{
    if !walk_over(max_depth, limit, w) {
        let (target, depth) = w.queue[0];
        let es = rows_where(s.edges, edge_to(ns, target));
        let start = Walk { queue: w.queue.skip(1), stopped: false, ..w };
        lemma_rows_where_contains(s.edges, edge_to(ns, target));
        assert forall|i: int| 0 <= i < es.len() implies s.edges.contains(#[trigger] es[i]) by {
            assert(es.contains(es[i]));
        }
        assert forall|i: int| 0 <= i < start.queue.len() implies asked_for(
            s,
            ns,
            sym,
            start.hops,
            (#[trigger] start.queue[i]).0,
            start.queue[i].1 as int,
        ) by {
            assert(start.queue[i] == w.queue[i + 1]);
        }
        lemma_caller_steps_linked(s, ns, sym, max_depth, limit, target, depth, es, start);
        lemma_caller_steps(s, ns, max_depth, limit, target, depth, es, start);
        lemma_callers_linked(s, ns, sym, max_depth, limit, caller_round(s, ns, max_depth, limit, w));
    }
}

/// Law: who calls a symbol is told hop by hop: a document that calls it at depth one, and deeper a document
/// that calls a symbol of a document one step less deep; each hop names the file of its document.
pub proof fn law_callers_hop_by_hop(s: State, ns: Seq<char>, sym: Seq<char>, max_depth: usize, limit: usize)
    requires
        s.wf(),
    ensures
        told_by_callers(s, ns, sym, callers_of(s, ns, sym, max_depth, limit)),
{
    let w = Walk {
        hops: Seq::empty(),
        visited: Seq::empty(),
        queue: seq![(sym, 1usize)],
        stopped: false,
    };
    assert(callers_linked(s, ns, sym, w));
    lemma_callers_linked(s, ns, sym, max_depth, limit, w);
}

/// Whether a walk that asks what `source` calls gets to ask what `doc` calls at this depth: it is the source
/// itself, or the document of a hop one step less deep.
pub open spec fn asked_of(source: Seq<char>, hops: Seq<Hop>, doc: Seq<char>, depth: int) -> bool {
    ||| depth == 1 && doc == source
    ||| exists|j: int|
        0 <= j < hops.len() && (#[trigger] hops[j]).depth == depth - 1 && hops[j].document_id == doc
}

/// Whether a call stands for a hop, and comes from a document that was to be asked.
pub open spec fn asked_call(s: State, ns: Seq<char>, source: Seq<char>, hops: Seq<Hop>, h: Hop, e: CodeEdge) -> bool {
    called_by_hop(s, ns, h, e) && asked_of(source, hops, e.src_doc_id, h.depth as int)
}

/// Whether a hop names the file that it leads to, or, where it leads to none, the symbol.
pub open spec fn names_callee(s: State, ns: Seq<char>, h: Hop) -> bool {
    if exists|m: int| 0 <= m < s.mentions.len() && (#[trigger] s.mentions[m]).namespace == ns
        && s.mentions[m].entity_id == h.sym {
        names_file(s, ns, h)
    } else {
        h.edge_kind == "CALLS"@ && h.path == h.sym && h.document_id == ""@
    }
}

/// Whether each hop names its file and stands for a call of a document that was to be asked.
pub open spec fn told_by_callees(s: State, ns: Seq<char>, source: Seq<char>, hops: Seq<Hop>) -> bool {
    forall|i: int|
        0 <= i < hops.len() ==> names_callee(s, ns, #[trigger] hops[i]) && exists|e: CodeEdge| #[trigger]
            asked_call(s, ns, source, hops, hops[i], e)
}

spec fn callees_linked(s: State, ns: Seq<char>, source: Seq<char>, w: Walk) -> bool {
    &&& forall|i: int|
        0 <= i < w.queue.len() ==> asked_of(
            source,
            w.hops,
            (#[trigger] w.queue[i]).0,
            w.queue[i].1 as int,
        )
    &&& told_by_callees(s, ns, source, w.hops)
}

proof fn lemma_asked_of_on(source: Seq<char>, hops: Seq<Hop>, h: Hop, doc: Seq<char>, depth: int)
    requires
        asked_of(source, hops, doc, depth),
    ensures
        asked_of(source, hops.push(h), doc, depth),
{
    if !(depth == 1 && doc == source) {
        let j = choose|j: int|
            0 <= j < hops.len() && (#[trigger] hops[j]).depth == depth - 1 && hops[j].document_id == doc;
        assert(hops.push(h)[j] == hops[j]);
    }
}

proof fn lemma_callee_steps_linked(
    s: State,
    ns: Seq<char>,
    source: Seq<char>,
    max_depth: usize,
    limit: usize,
    doc: Seq<char>,
    depth: usize,
    edges: Seq<CodeEdge>,
    w: Walk,
)
    requires
        s.wf(),
        callees_linked(s, ns, source, w),
        asked_of(source, w.hops, doc, depth as int),
        forall|i: int|
            0 <= i < edges.len() ==> s.edges.contains(#[trigger] edges[i]) && edge_from(ns, doc)(edges[i]),
    ensures
        ({
            let r = callee_steps(s, ns, max_depth, limit, depth, edges, w);
            callees_linked(s, ns, source, r) && asked_of(source, r.hops, doc, depth as int)
        }),
    decreases edges.len(),
{
    if edges.len() > 0 {
        let head = edges.drop_last();
        assert forall|i: int| 0 <= i < head.len() implies s.edges.contains(#[trigger] head[i]) && edge_from(
            ns,
            doc,
        )(head[i]) by {
            assert(head[i] == edges[i]);
        }
        lemma_callee_steps_linked(s, ns, source, max_depth, limit, doc, depth, head, w);
        let m = callee_steps(s, ns, max_depth, limit, depth, head, w);
        let e = edges.last();
        assert(edges[edges.len() - 1] == e);
        let r = callee_step(s, ns, max_depth, limit, depth, e, m);
        let n = m.hops.len() as int;
        assert(r.hops.len() == m.hops.len() ==> r == m);
        if r.hops.len() != m.hops.len() {
            let h = r.hops.last();
            assert(r.hops == m.hops.push(h));
            assert(r.hops[n] == h);
            let q = mentions_entity(ns, e.dst_sym);
            lemma_first_row(s.mentions, q);
            if resolved(s, ns, e.dst_sym) is Some {
                let k = choose|k: int|
                    0 <= k < s.mentions.len() && #[trigger] s.mentions[k] == first_row(s.mentions, q)->0 && q(
                        s.mentions[k],
                    );
                assert(s.mentions[k].entity_id == h.sym);
                lemma_names_file(s, ns, h);
            } else {
                assert forall|k: int| 0 <= k < s.mentions.len() implies !((#[trigger] s.mentions[k]).namespace
                    == ns && s.mentions[k].entity_id == h.sym) by {
                    assert(!q(s.mentions[k]));
                }
            }
            assert(names_callee(s, ns, h));
            lemma_asked_of_on(source, m.hops, h, doc, depth as int);
            assert(asked_call(s, ns, source, r.hops, h, e));
            assert forall|i: int| 0 <= i < r.queue.len() implies asked_of(
                source,
                r.hops,
                (#[trigger] r.queue[i]).0,
                r.queue[i].1 as int,
            ) by {
                if i < m.queue.len() {
                    assert(r.queue[i] == m.queue[i]);
                    lemma_asked_of_on(source, m.hops, h, m.queue[i].0, m.queue[i].1 as int);
                } else {
                    assert(r.hops[n].depth == depth + 1 - 1);
                }
            }
            assert forall|i: int| 0 <= i < r.hops.len() implies names_callee(s, ns, #[trigger] r.hops[i])
                && exists|x: CodeEdge| #[trigger] asked_call(s, ns, source, r.hops, r.hops[i], x) by {
                if i < n {
                    assert(r.hops[i] == m.hops[i]);
                    let x = choose|x: CodeEdge| #[trigger] asked_call(s, ns, source, m.hops, m.hops[i], x);
                    lemma_asked_of_on(source, m.hops, h, x.src_doc_id, m.hops[i].depth as int);
                    assert(asked_call(s, ns, source, r.hops, r.hops[i], x));
                }
            }
            assert(told_by_callees(s, ns, source, r.hops));
            assert(callees_linked(s, ns, source, r));
        }
    }
}

proof fn lemma_callees_linked(
    s: State,
    ns: Seq<char>,
    source: Seq<char>,
    max_depth: usize,
    limit: usize,
    w: Walk,
)
    requires
        s.wf(),
        callees_linked(s, ns, source, w),
    ensures
        told_by_callees(s, ns, source, callees_from(s, ns, max_depth, limit, w)),
    decreases rows_where(s.mentions, fresh_mentions(w.visited)).len(), w.queue.len(),
{
    if !walk_over(max_depth, limit, w) {
        let (doc, depth) = w.queue[0];
        let es = rows_where(s.edges, edge_from(ns, doc));
        let start = Walk { queue: w.queue.skip(1), stopped: false, ..w };
        lemma_rows_where_contains(s.edges, edge_from(ns, doc));
        assert forall|i: int| 0 <= i < es.len() implies s.edges.contains(#[trigger] es[i]) && edge_from(
            ns,
            doc,
        )(es[i]) by {
            assert(es.contains(es[i]));
        }
        assert forall|i: int| 0 <= i < start.queue.len() implies asked_of(
            source,
            start.hops,
            (#[trigger] start.queue[i]).0,
            start.queue[i].1 as int,
        ) by {
            assert(start.queue[i] == w.queue[i + 1]);
        }
        lemma_callee_steps_linked(s, ns, source, max_depth, limit, doc, depth, es, start);
        lemma_callee_steps(s, ns, max_depth, limit, depth, es, start);
        lemma_callees_linked(s, ns, source, max_depth, limit, callee_round(s, ns, max_depth, limit, w));
    }
}

/// Law: what a file calls is told hop by hop: at depth one a call of that file, and deeper a call of the
/// document of a hop one step less deep; each hop names the file that it leads to.
pub proof fn law_callees_hop_by_hop(
    s: State,
    ns: Seq<char>,
    path: Seq<char>,
    d: Doc,
    max_depth: usize,
    limit: usize,
)
    requires
        s.wf(),
        s.docs.contains(d),
        d.namespace == ns,
        d.key == path,
    ensures
        told_by_callees(s, ns, d.document_id, callees_of(s, ns, path, max_depth, limit)),
{
    let k = choose|k: int| 0 <= k < s.docs.len() && s.docs[k] == d;
    assert forall|j: int| 0 <= j < s.docs.len() && doc_is(ns, path)(#[trigger] s.docs[j]) implies j == k by {
        if j < k {
            assert(doc_key()(s.docs[j]) != doc_key()(s.docs[k]));
        } else if k < j {
            assert(doc_key()(s.docs[k]) != doc_key()(s.docs[j]));
        }
    }
    lemma_first_row_unique(s.docs, doc_is(ns, path), k);
    let w = Walk {
        hops: Seq::empty(),
        visited: seq![d.document_id],
        queue: seq![(d.document_id, 1usize)],
        stopped: false,
    };
    assert(callees_linked(s, ns, d.document_id, w));
    lemma_callees_linked(s, ns, d.document_id, max_depth, limit, w);
}

/// Law: nothing is called by a file that is not stored.
pub proof fn law_no_callees(s: State, ns: Seq<char>, path: Seq<char>, max_depth: usize, limit: usize)
    requires
        forall|k: int|
            0 <= k < s.docs.len() ==> !((#[trigger] s.docs[k]).namespace == ns && s.docs[k].key == path),
    ensures
        callees_of(s, ns, path, max_depth, limit).len() == 0,
{
    lemma_first_row(s.docs, doc_is(ns, path));
}

/// Law: a symbol leads to the document of its first mention.
pub proof fn law_resolved(s: State, ns: Seq<char>, sym: Seq<char>, k: int)
    requires
        0 <= k < s.mentions.len(),
        s.mentions[k].namespace == ns,
        s.mentions[k].entity_id == sym,
        forall|j: int|
            0 <= j < k ==> !((#[trigger] s.mentions[j]).namespace == ns && s.mentions[j].entity_id == sym),
    ensures
        resolved(s, ns, sym) == Some(s.mentions[k].document_id),
{
    let q = mentions_entity(ns, sym);
    lemma_first_row(s.mentions, q);
    assert(q(s.mentions[k]));
    let i = choose|i: int|
        0 <= i < s.mentions.len() && #[trigger] s.mentions[i] == first_row(s.mentions, q)->0 && q(
            s.mentions[i],
        ) && (forall|j: int| 0 <= j < i ==> !q(#[trigger] s.mentions[j]));
    if i < k {
        assert(!(s.mentions[i].namespace == ns && s.mentions[i].entity_id == sym));
    }
}

} // verus!
