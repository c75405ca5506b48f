//! The edges of the code graph.

use super::docs::edge_from;
use super::{edge_key, CodeEdge, Mention, State, Store, StoredEdge, StoredMention};
use crate::model::{Edge, RawEdge};
use crate::table::{
    distinct_by, except, find, first_row, lemma_distinct_push, lemma_distinct_where, lemma_rows_push,
    lemma_rows_where_contains, remove_where, rows, rows_where, select,
};
use crate::text::same;
use vstd::prelude::*;

verus! {

/// The edge with these ends and this kind.
pub open spec fn edge_is(e: CodeEdge) -> spec_fn(CodeEdge) -> bool {
    |x: CodeEdge|
        x.namespace == e.namespace && x.src_doc_id == e.src_doc_id && x.dst_sym == e.dst_sym
            && x.edge_kind == e.edge_kind
}

/// The edges that lead to a symbol.
pub open spec fn edge_to(ns: Seq<char>, dst_sym: Seq<char>) -> spec_fn(CodeEdge) -> bool {
    |e: CodeEdge| e.namespace == ns && e.dst_sym == dst_sym
}

/// An extracted edge as it is stored: its target document is resolved when it is asked for.
pub open spec fn stored_edge(ns: Seq<char>, src: Seq<char>, e: Edge) -> CodeEdge {
    CodeEdge {
        namespace: ns,
        src_doc_id: src,
        dst_sym: e.dst_sym,
        dst_doc_id: None,
        edge_kind: e.edge_kind,
        src_line: e.src_line,
        confidence: e.confidence,
    }
}

/// A stored edge as it was extracted.
pub open spec fn raw_edge(e: CodeEdge) -> Edge {
    Edge {
        dst_sym: e.dst_sym,
        edge_kind: e.edge_kind,
        src_line: e.src_line,
        confidence: e.confidence,
    }
}

/// The edges after one more; it takes the place of the one with its ends and kind.
pub open spec fn edge_put(s: Seq<CodeEdge>, e: CodeEdge) -> Seq<CodeEdge> {
    rows_where(s, except(edge_is(e))).push(e)
}

/// The edges after all of `edges` were put in.
pub open spec fn edges_put(s: Seq<CodeEdge>, ns: Seq<char>, src: Seq<char>, edges: Seq<Edge>) -> Seq<
    CodeEdge,
>
    decreases edges.len(),
{
    if edges.len() == 0 {
        s
    } else {
        edge_put(
            edges_put(s, ns, src, edges.drop_last()),
            stored_edge(ns, src, edges.last()),
        )
    }
}

/// The edges after those of a document were replaced.
pub open spec fn edges_replaced(
    s: Seq<CodeEdge>,
    ns: Seq<char>,
    src: Seq<char>,
    edges: Seq<Edge>,
) -> Seq<CodeEdge> {
    edges_put(rows_where(s, except(edge_from(ns, src))), ns, src, edges)
}

/// The mentions of an entity in a namespace.
pub open spec fn mentions_entity(ns: Seq<char>, entity: Seq<char>) -> spec_fn(Mention) -> bool {
    |m: Mention| m.namespace == ns && m.entity_id == entity
}

/// The document that a symbol is resolved to: the first that mentions it.
pub open spec fn resolved(s: State, ns: Seq<char>, dst_sym: Seq<char>) -> Option<Seq<char>> {
    match first_row(s.mentions, mentions_entity(ns, dst_sym)) {
        Some(m) => Some(m.document_id),
        None => None,
    }
}

/// The edges that start from a document, as extracted.
pub open spec fn edges_from_doc(s: State, ns: Seq<char>, src: Seq<char>) -> Seq<Edge> {
    rows_where(s.edges, edge_from(ns, src)).map_values(|e: CodeEdge| raw_edge(e))
}

pub proof fn lemma_edge_put(s: Seq<CodeEdge>, e: CodeEdge)
    requires
        distinct_by(s, edge_key()),
    ensures
        distinct_by(edge_put(s, e), edge_key()),
{
    let kept = rows_where(s, except(edge_is(e)));
    lemma_distinct_where(s, except(edge_is(e)), edge_key());
    lemma_rows_where_contains(s, except(edge_is(e)));
    assert forall|i: int| 0 <= i < kept.len() implies edge_key()(#[trigger] kept[i]) != edge_key()(
        e,
    ) by {
        assert(except(edge_is(e))(kept[i]));
    }
    lemma_distinct_push(kept, e, edge_key());
}

/// Replaces the edges of a document in a table of edges.
pub(crate) fn replace_edges(v: &mut Vec<StoredEdge>, ns: &str, src_doc_id: &str, edges: &Vec<RawEdge>)
    requires
        distinct_by(rows(old(v)@), edge_key()),
    ensures
        distinct_by(rows(final(v)@), edge_key()),
        rows(final(v)@) == edges_replaced(rows(old(v)@), ns@, src_doc_id@, rows(edges@)),
{
    let ghost before = rows(v@);
    remove_where(
        v,
        |e: &StoredEdge| -> (b: bool)
            ensures
                b == (e@.namespace == ns@ && e@.src_doc_id == src_doc_id@)
        { same(e.namespace.as_str(), ns) && same(e.src_doc_id.as_str(), src_doc_id) },
        Ghost(edge_from(ns@, src_doc_id@)),
    );
    let ghost base = rows(v@);
    proof {
        lemma_distinct_where(before, except(edge_from(ns@, src_doc_id@)), edge_key());
        assert(rows(edges@).take(0) =~= Seq::<Edge>::empty());
    }
    for i in 0..edges.len()
        invariant
            distinct_by(rows(v@), edge_key()),
            rows(v@) == edges_put(base, ns@, src_doc_id@, rows(edges@).take(i as int)),
    {
        let ghost cur = rows(v@);
        let e = &edges[i];
        let row = StoredEdge {
            namespace: ns.to_owned(),
            src_doc_id: src_doc_id.to_owned(),
            dst_sym: e.dst_sym.clone(),
            dst_doc_id: None,
            edge_kind: e.edge_kind,
            src_line: e.src_line,
            confidence: e.confidence,
        };
        proof {
            assert(rows(edges@).take(i + 1).drop_last() =~= rows(edges@).take(i as int));
            assert(rows(edges@).take(i + 1).last() == e@);
            assert(row@ == stored_edge(ns@, src_doc_id@, e@));
            lemma_edge_put(cur, row@);
        }
        remove_where(
            v,
            |x: &StoredEdge| -> (b: bool)
                ensures
                    b == (x@.namespace == row@.namespace && x@.src_doc_id == row@.src_doc_id
                        && x@.dst_sym == row@.dst_sym && x@.edge_kind == row@.edge_kind)
            {
                same(x.namespace.as_str(), row.namespace.as_str()) && same(
                    x.src_doc_id.as_str(),
                    row.src_doc_id.as_str(),
                ) && same(x.dst_sym.as_str(), row.dst_sym.as_str()) && x.edge_kind
                    == row.edge_kind
            },
            Ghost(edge_is(row@)),
        );
        let ghost v0 = v@;
        v.push(row);
        proof {
            lemma_rows_push(v0, row);
        }
    }
    assert(rows(edges@).take(edges@.len() as int) =~= rows(edges@));
}

impl Store {
    /// The edges that start from a document.
    pub fn edges_from(&self, ns: &str, src_doc_id: &str) -> (r: Vec<RawEdge>)
        ensures
            rows(r@) == edges_from_doc(self@, ns@, src_doc_id@),
    {
        let sel = select(
            &self.edges,
            |e: &StoredEdge| -> (b: bool)
                ensures
                    b == (e@.namespace == ns@ && e@.src_doc_id == src_doc_id@)
            { same(e.namespace.as_str(), ns) && same(e.src_doc_id.as_str(), src_doc_id) },
            Ghost(edge_from(ns@, src_doc_id@)),
        );
        let mut out: Vec<RawEdge> = Vec::new();
        for i in 0..sel.len()
            invariant
                out@.len() == i,
                forall|j: int| 0 <= j < i ==> (#[trigger] out@[j])@ == raw_edge(rows(sel@)[j]),
        {
            out.push(
                RawEdge {
                    dst_sym: sel[i].dst_sym.clone(),
                    edge_kind: sel[i].edge_kind,
                    src_line: sel[i].src_line,
                    confidence: sel[i].confidence,
                },
            );
        }
        assert(rows(out@) =~= edges_from_doc(self@, ns@, src_doc_id@));
        out
    }

    /// The edges that lead to a symbol, each with the document that it starts from.
    pub fn edges_to_sym(&self, ns: &str, dst_sym: &str) -> (r: Vec<(String, RawEdge)>)
        ensures
            ({
                let sel = rows_where(self@.edges, edge_to(ns@, dst_sym@));
                &&& r@.len() == sel.len()
                &&& forall|i: int|
                    0 <= i < sel.len() ==> (#[trigger] r@[i]).0@ == sel[i].src_doc_id && r@[i].1@
                        == raw_edge(sel[i])
            }),
    {
        let sel = select(
            &self.edges,
            |e: &StoredEdge| -> (b: bool)
                ensures
                    b == (e@.namespace == ns@ && e@.dst_sym == dst_sym@)
            { same(e.namespace.as_str(), ns) && same(e.dst_sym.as_str(), dst_sym) },
            Ghost(edge_to(ns@, dst_sym@)),
        );
        let mut out: Vec<(String, RawEdge)> = Vec::new();
        for i in 0..sel.len()
            invariant
                out@.len() == i,
                forall|j: int|
                    0 <= j < i ==> (#[trigger] out@[j]).0@ == rows(sel@)[j].src_doc_id
                        && out@[j].1@ == raw_edge(rows(sel@)[j]),
        {
            let e = RawEdge {
                dst_sym: sel[i].dst_sym.clone(),
                edge_kind: sel[i].edge_kind,
                src_line: sel[i].src_line,
                confidence: sel[i].confidence,
            };
            out.push((sel[i].src_doc_id.clone(), e));
        }
        out
    }

    /// The document that a symbol is resolved to: the first in the namespace that mentions it.
    pub fn resolve_dst_doc(&self, ns: &str, dst_sym: &str) -> (r: Option<String>)
        ensures
            crate::text::opt_text(r) == resolved(self@, ns@, dst_sym@),
    {
        let at = find(
            &self.mentions,
            |m: &StoredMention| -> (b: bool)
                ensures
                    b == (m@.namespace == ns@ && m@.entity_id == dst_sym@)
            { same(m.namespace.as_str(), ns) && same(m.entity_id.as_str(), dst_sym) },
            Ghost(mentions_entity(ns@, dst_sym@)),
        );
        match at {
            Some(i) => Some(self.mentions[i].document_id.clone()),
            None => None,
        }
    }
}

} // verus!
