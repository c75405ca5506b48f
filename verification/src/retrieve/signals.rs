//! The graph signal: how many of a query's entities the documents of a namespace mention.

use crate::store::entities::{
    document_ids, entity_ids, mention_among, mention_count, mention_in_doc, mentioning_docs, once_each,
};
use crate::store::{State, Store};
use crate::table::{lemma_rows_where_contains, rows_where};
use crate::text::{same, texts};
use vstd::prelude::*;

verus! {

/// The greatest of some numbers, or 0.
pub open spec fn greatest(counts: Seq<nat>) -> nat
    decreases counts.len(),
{
    if counts.len() == 0 {
        0
    } else if counts.last() > greatest(counts.drop_last()) {
        counts.last()
    } else {
        greatest(counts.drop_last())
    }
}

/// How many of the entities each document mentions that mentions any.
pub open spec fn mention_counts(s: State, ns: Seq<char>, entities: Seq<Seq<char>>) -> Seq<nat> {
    mentioning_docs(s, ns, entities).map_values(
        |d: Seq<char>| mention_count(s, ns, d, entities),
    )
}

/// The most of the entities that any document mentions.
pub open spec fn most_mentions(s: State, ns: Seq<char>, entities: Seq<Seq<char>>) -> nat {
    greatest(mention_counts(s, ns, entities))
}

/// The counts of the documents that mention an entity, and the highest of them.
pub struct GraphCounts {
    pub counts: Vec<(String, usize)>,
    pub highest: usize,
}

/// Whether the counts are those of `entities`.
pub open spec fn counts_match(g: GraphCounts, s: State, ns: Seq<char>, entities: Seq<Seq<char>>) -> bool {
    let docs = mentioning_docs(s, ns, entities);
    &&& g.highest == most_mentions(s, ns, entities)
    &&& g.counts@.len() == docs.len()
    &&& forall|i: int|
        0 <= i < docs.len() ==> (#[trigger] g.counts@[i]).0@ == docs[i] && g.counts@[i].1
            == mention_count(s, ns, docs[i], entities)
}

/// Counts the entities that the documents of a namespace mention.
pub fn count_graph(store: &Store, namespace: &str, entities: &Vec<String>) -> (r: GraphCounts)
    ensures
        counts_match(r, store@, namespace@, texts(entities@)),
{
    let counts = store.docs_with_entities(namespace, entities);
    let ghost docs = mentioning_docs(store@, namespace@, texts(entities@));
    let ghost all = mention_counts(store@, namespace@, texts(entities@));
    let mut highest: usize = 0;
    assert(all.take(0) =~= Seq::<nat>::empty());
    for i in 0..counts.len()
        invariant
            docs == mentioning_docs(store@, namespace@, texts(entities@)),
            all == mention_counts(store@, namespace@, texts(entities@)),
            counts@.len() == docs.len(),
            forall|i: int|
                0 <= i < docs.len() ==> (#[trigger] counts@[i]).0@ == docs[i] && counts@[i].1
                    == mention_count(store@, namespace@, docs[i], texts(entities@)),
            highest == greatest(all.take(i as int)),
    {
        proof {
            assert(all.take(i + 1).drop_last() =~= all.take(i as int));
            assert(all.take(i + 1).last() == all[i as int]);
        }
        if counts[i].1 > highest {
            highest = counts[i].1;
        }
    }
    assert(all.take(all.len() as int) =~= all);
    GraphCounts { counts, highest }
}

proof fn lemma_once_each_keeps(s: Seq<Seq<char>>)
    ensures
        forall|x: Seq<char>| s.contains(x) ==> #[trigger] once_each(s).contains(x),
    decreases s.len(),
{
    if s.len() > 0 {
        let head = s.drop_last();
        lemma_once_each_keeps(head);
        let before = once_each(head);
        let after = once_each(s);
        assert forall|x: Seq<char>| s.contains(x) implies #[trigger] after.contains(x) by {
            let i = choose|i: int| 0 <= i < s.len() && s[i] == x;
            if i < head.len() {
                assert(head[i] == x);
                assert(head.contains(x));
                assert(before.contains(x));
                let k = choose|k: int| 0 <= k < before.len() && before[k] == x;
                assert(after[k] == x);
            } else if !before.contains(x) {
                assert(after[before.len() as int] == x);
            }
        }
    }
}

/// A document that is not among those that mention an entity mentions none.
proof fn lemma_no_mentions(s: State, ns: Seq<char>, doc: Seq<char>, entities: Seq<Seq<char>>)
    requires
        !mentioning_docs(s, ns, entities).contains(doc),
    ensures
        mention_count(s, ns, doc, entities) == 0,
{
    let among = rows_where(s.mentions, mention_among(ns, entities));
    let here = rows_where(s.mentions, mention_in_doc(ns, doc, entities));
    lemma_rows_where_contains(s.mentions, mention_among(ns, entities));
    lemma_rows_where_contains(s.mentions, mention_in_doc(ns, doc, entities));
    lemma_once_each_keeps(document_ids(among));
    if here.len() > 0 {
        let m = here[0];
        assert(here.contains(m));
        assert(s.mentions.contains(m));
        assert(mention_among(ns, entities)(m));
        assert(among.contains(m));
        let k = choose|k: int| 0 <= k < among.len() && among[k] == m;
        assert(document_ids(among)[k] == doc);
        assert(document_ids(among).contains(doc));
    }
    assert(entity_ids(here) =~= Seq::<Seq<char>>::empty());
}

impl GraphCounts {
    /// The count of a document, which is 0 where it mentions none of the entities.
    pub(crate) fn count_for(
        &self,
        doc: &str,
        Ghost(s): Ghost<State>,
        Ghost(ns): Ghost<Seq<char>>,
        Ghost(entities): Ghost<Seq<Seq<char>>>,
    ) -> (r: usize)
        requires
            counts_match(*self, s, ns, entities),
        ensures
            r == mention_count(s, ns, doc@, entities),
    {
        let ghost docs = mentioning_docs(s, ns, entities);
        for i in 0..self.counts.len()
            invariant
                counts_match(*self, s, ns, entities),
                docs == mentioning_docs(s, ns, entities),
                forall|k: int| 0 <= k < i ==> #[trigger] docs[k] != doc@,
        {
            assert(self.counts@[i as int].0@ == docs[i as int]);
            if same(self.counts[i].0.as_str(), doc) {
                return self.counts[i].1;
            }
        }
        proof {
            lemma_no_mentions(s, ns, doc@, entities);
        }
        0
    }
}

proof fn lemma_greatest(counts: Seq<nat>)
    ensures
        forall|i: int| 0 <= i < counts.len() ==> #[trigger] counts[i] <= greatest(counts),
        greatest(counts) > 0 ==> counts.contains(greatest(counts)),
    decreases counts.len(),
{
    if counts.len() > 0 {
        let head = counts.drop_last();
        lemma_greatest(head);
        assert(counts[counts.len() - 1] == counts.last());
        assert forall|i: int| 0 <= i < counts.len() implies #[trigger] counts[i] <= greatest(counts) by {
            if i < head.len() {
                assert(head[i] == counts[i]);
            }
        }
        if counts.last() <= greatest(head) && greatest(head) > 0 {
            let k = choose|k: int| 0 <= k < head.len() && head[k] == greatest(head);
            assert(counts[k] == greatest(counts));
        }
    }
}

/// Law: no document mentions more of the entities than the highest count says, and some document mentions
/// as many.
pub proof fn law_most_mentions(s: State, ns: Seq<char>, entities: Seq<Seq<char>>)
    ensures
        forall|d: Seq<char>| #[trigger] mention_count(s, ns, d, entities) <= most_mentions(s, ns, entities),
        most_mentions(s, ns, entities) > 0 ==> exists|d: Seq<char>| #[trigger]
            mention_count(s, ns, d, entities) == most_mentions(s, ns, entities),
{
    let docs = mentioning_docs(s, ns, entities);
    let counts = mention_counts(s, ns, entities);
    lemma_greatest(counts);
    assert forall|d: Seq<char>| #[trigger] mention_count(s, ns, d, entities) <= most_mentions(s, ns, entities) by {
        if docs.contains(d) {
            let k = choose|k: int| 0 <= k < docs.len() && docs[k] == d;
            assert(counts[k] == mention_count(s, ns, d, entities));
        } else {
            lemma_no_mentions(s, ns, d, entities);
        }
    }
    if most_mentions(s, ns, entities) > 0 {
        let k = choose|k: int| 0 <= k < counts.len() && counts[k] == greatest(counts);
        assert(mention_count(s, ns, docs[k], entities) == most_mentions(s, ns, entities));
    }
}

} // verus!
