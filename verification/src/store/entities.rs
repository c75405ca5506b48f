//! The entities that chunks mention.

use super::{mention_key, Mention, State, Store, StoredMention};
use crate::table::{
    any_row, distinct_by, find, lemma_distinct_push, lemma_rows_push, lemma_rows_where_contains, rows,
    rows_where, select,
};
use crate::text::{any_same, has_prefix, lemma_texts_push, same, starts_with, texts};
use vstd::prelude::*;

verus! {

pub open spec fn mention_is(ns: Seq<char>, chunk_id: Seq<char>, entity: Seq<char>) -> spec_fn(Mention) -> bool {
    |m: Mention| m.namespace == ns && m.chunk_id == chunk_id && m.entity_id == entity
}

/// The mentions after one more; a mention that is already there is not repeated.
pub open spec fn mention_added(s: Seq<Mention>, m: Mention) -> Seq<Mention> {
    if any_row(s, mention_is(m.namespace, m.chunk_id, m.entity_id)) {
        s
    } else {
        s.push(m)
    }
}

/// The mentions after all of `entities` were recorded for a chunk.
pub open spec fn mentions_recorded(
    s: Seq<Mention>,
    ns: Seq<char>,
    chunk_id: Seq<char>,
    document_id: Seq<char>,
    entities: Seq<Seq<char>>,
) -> Seq<Mention>
    decreases entities.len(),
{
    if entities.len() == 0 {
        s
    } else {
        mention_added(
            mentions_recorded(s, ns, chunk_id, document_id, entities.drop_last()),
            Mention { namespace: ns, chunk_id, document_id, entity_id: entities.last() },
        )
    }
}

/// The texts of `s`, each once, in the order in which they first occur.
pub open spec fn once_each(s: Seq<Seq<char>>) -> Seq<Seq<char>>
    decreases s.len(),
{
    if s.len() == 0 {
        Seq::empty()
    } else {
        let before = once_each(s.drop_last());
        if before.contains(s.last()) {
            before
        } else {
            before.push(s.last())
        }
    }
}

/// The mentions of symbols in a document.
pub open spec fn symbol_of(ns: Seq<char>, document_id: Seq<char>) -> spec_fn(Mention) -> bool {
    |m: Mention|
        m.namespace == ns && m.document_id == document_id && has_prefix(m.entity_id, "sym:"@)
}

pub open spec fn entity_ids(s: Seq<Mention>) -> Seq<Seq<char>> {
    s.map_values(|m: Mention| m.entity_id)
}

pub open spec fn document_ids(s: Seq<Mention>) -> Seq<Seq<char>> {
    s.map_values(|m: Mention| m.document_id)
}

/// The symbols that a document mentions, each once.
pub open spec fn doc_symbols(s: State, ns: Seq<char>, document_id: Seq<char>) -> Seq<Seq<char>> {
    once_each(entity_ids(rows_where(s.mentions, symbol_of(ns, document_id))))
}

/// The mentions of any of `entities` in a namespace.
pub open spec fn mention_among(ns: Seq<char>, entities: Seq<Seq<char>>) -> spec_fn(Mention) -> bool {
    |m: Mention| m.namespace == ns && entities.contains(m.entity_id)
}

/// The mentions of any of `entities` in a document.
pub open spec fn mention_in_doc(
    ns: Seq<char>,
    document_id: Seq<char>,
    entities: Seq<Seq<char>>,
) -> spec_fn(Mention) -> bool {
    |m: Mention|
        m.namespace == ns && m.document_id == document_id && entities.contains(m.entity_id)
}

/// How many different ones of `entities` a document mentions.
pub open spec fn mention_count(
    s: State,
    ns: Seq<char>,
    document_id: Seq<char>,
    entities: Seq<Seq<char>>,
) -> nat {
    once_each(entity_ids(rows_where(s.mentions, mention_in_doc(ns, document_id, entities)))).len()
}

/// The documents that mention any of `entities`, each once.
pub open spec fn mentioning_docs(s: State, ns: Seq<char>, entities: Seq<Seq<char>>) -> Seq<Seq<char>> {
    once_each(document_ids(rows_where(s.mentions, mention_among(ns, entities))))
}

pub proof fn lemma_mention_added(s: Seq<Mention>, m: Mention)
    requires
        distinct_by(s, mention_key()),
    ensures
        distinct_by(mention_added(s, m), mention_key()),
{
    if !any_row(s, mention_is(m.namespace, m.chunk_id, m.entity_id)) {
        assert forall|i: int| 0 <= i < s.len() implies mention_key()(#[trigger] s[i])
            != mention_key()(m) by {
            assert(!mention_is(m.namespace, m.chunk_id, m.entity_id)(s[i]));
        }
        lemma_distinct_push(s, m, mention_key());
    }
}

/// Keeps each text once, in the order in which they first occur.
pub fn keep_once(v: &Vec<String>) -> (r: Vec<String>)
    ensures
        texts(r@) == once_each(texts(v@)),
{
    let mut out: Vec<String> = Vec::new();
    assert(texts(v@).take(0) =~= Seq::<Seq<char>>::empty());
    assert(texts(out@) =~= Seq::<Seq<char>>::empty());
    for i in 0..v.len()
        invariant
            texts(out@) == once_each(texts(v@).take(i as int)),
    {
        assert(texts(v@).take(i + 1).drop_last() =~= texts(v@).take(i as int));
        assert(texts(v@).take(i + 1).last() == v@[i as int]@);
        if !any_same(&out, v[i].as_str()) {
            let ghost out0 = out@;
            let s = v[i].clone();
            out.push(s);
            proof {
                lemma_texts_push(out0, s);
            }
        }
    }
    assert(texts(v@).take(v@.len() as int) =~= texts(v@));
    out
}

/// The entity ids of a list of mentions.
fn entities_of(v: &Vec<StoredMention>) -> (r: Vec<String>)
    ensures
        texts(r@) == entity_ids(rows(v@)),
{
    let mut out: Vec<String> = Vec::new();
    for i in 0..v.len()
        invariant
            out@.len() == i,
            forall|j: int| 0 <= j < i ==> (#[trigger] out@[j])@ == rows(v@)[j].entity_id,
    {
        out.push(v[i].entity_id.clone());
    }
    assert(texts(out@) =~= entity_ids(rows(v@)));
    out
}

/// The document ids of a list of mentions.
fn documents_of(v: &Vec<StoredMention>) -> (r: Vec<String>)
    ensures
        texts(r@) == document_ids(rows(v@)),
{
    let mut out: Vec<String> = Vec::new();
    for i in 0..v.len()
        invariant
            out@.len() == i,
            forall|j: int| 0 <= j < i ==> (#[trigger] out@[j])@ == rows(v@)[j].document_id,
    {
        out.push(v[i].document_id.clone());
    }
    assert(texts(out@) =~= document_ids(rows(v@)));
    out
}

/// Adds a mention to a table, unless it is already there.
pub(crate) fn add_mention(
    v: &mut Vec<StoredMention>,
    namespace: &str,
    chunk_id: &str,
    document_id: &str,
    entity: &str,
)
    requires
        distinct_by(rows(old(v)@), mention_key()),
    ensures
        distinct_by(rows(final(v)@), mention_key()),
        rows(final(v)@) == mention_added(
            rows(old(v)@),
            Mention {
                namespace: namespace@,
                chunk_id: chunk_id@,
                document_id: document_id@,
                entity_id: entity@,
            },
        ),
{
    let ghost before = rows(v@);
    proof {
        lemma_mention_added(
            before,
            Mention {
                namespace: namespace@,
                chunk_id: chunk_id@,
                document_id: document_id@,
                entity_id: entity@,
            },
        );
    }
    let at = find(
        v,
        |m: &StoredMention| -> (b: bool)
            ensures
                b == (m@.namespace == namespace@ && m@.chunk_id == chunk_id@ && m@.entity_id
                    == entity@)
        {
            same(m.namespace.as_str(), namespace) && same(m.chunk_id.as_str(), chunk_id) && same(
                m.entity_id.as_str(),
                entity,
            )
        },
        Ghost(mention_is(namespace@, chunk_id@, entity@)),
    );
    if at.is_some() {
        assert(mention_is(namespace@, chunk_id@, entity@)(before[at->0 as int]));
    } else {
        let row = StoredMention {
            namespace: namespace.to_owned(),
            chunk_id: chunk_id.to_owned(),
            document_id: document_id.to_owned(),
            entity_id: entity.to_owned(),
        };
        let ghost v0 = v@;
        v.push(row);
        proof {
            lemma_rows_push(v0, row);
        }
    }
}

/// Records all of `entities` for a chunk.
pub(crate) fn add_mentions(
    v: &mut Vec<StoredMention>,
    namespace: &str,
    chunk_id: &str,
    document_id: &str,
    entities: &Vec<String>,
)
    requires
        distinct_by(rows(old(v)@), mention_key()),
    ensures
        distinct_by(rows(final(v)@), mention_key()),
        rows(final(v)@) == mentions_recorded(
            rows(old(v)@),
            namespace@,
            chunk_id@,
            document_id@,
            texts(entities@),
        ),
{
    let ghost before = rows(v@);
    assert(texts(entities@).take(0) =~= Seq::<Seq<char>>::empty());
    for i in 0..entities.len()
        invariant
            distinct_by(rows(v@), mention_key()),
            rows(v@) == mentions_recorded(
                before,
                namespace@,
                chunk_id@,
                document_id@,
                texts(entities@).take(i as int),
            ),
    {
        assert(texts(entities@).take(i + 1).drop_last() =~= texts(entities@).take(i as int));
        assert(texts(entities@).take(i + 1).last() == entities@[i as int]@);
        add_mention(v, namespace, chunk_id, document_id, entities[i].as_str());
    }
    assert(texts(entities@).take(entities@.len() as int) =~= texts(entities@));
}

impl Store {
    /// Records the entities that a chunk mentions.
    pub fn record_entities(
        &mut self,
        namespace: &str,
        chunk_id: &str,
        document_id: &str,
        entity_ids: &Vec<String>,
    )
        requires
            old(self)@.wf(),
        ensures
            final(self)@.wf(),
            final(self)@ == (State {
                mentions: mentions_recorded(
                    old(self)@.mentions,
                    namespace@,
                    chunk_id@,
                    document_id@,
                    texts(entity_ids@),
                ),
                ..old(self)@
            }),
    {
        add_mentions(&mut self.mentions, namespace, chunk_id, document_id, entity_ids);
    }

    /// The symbols (`sym:` entities) that a document mentions, each once.
    pub fn sym_entities_for_doc(&self, ns: &str, doc_id: &str) -> (r: Vec<String>)
        ensures
            texts(r@) == doc_symbols(self@, ns@, doc_id@),
    {
        let sel = select(
            &self.mentions,
            |m: &StoredMention| -> (b: bool)
                ensures
                    b == (m@.namespace == ns@ && m@.document_id == doc_id@ && has_prefix(
                        m@.entity_id,
                        "sym:"@,
                    ))
            {
                same(m.namespace.as_str(), ns) && same(m.document_id.as_str(), doc_id)
                    && starts_with(m.entity_id.as_str(), "sym:")
            },
            Ghost(symbol_of(ns@, doc_id@)),
        );
        keep_once(&entities_of(&sel))
    }

    /// For each document of the namespace that mentions any of `entity_ids`: how many different
    /// ones of them it mentions.
    pub fn docs_with_entities(&self, namespace: &str, entity_ids: &Vec<String>) -> (r: Vec<
        (String, usize),
    >)
        ensures
            ({
                let docs = mentioning_docs(self@, namespace@, texts(entity_ids@));
                &&& r@.len() == docs.len()
                &&& forall|i: int|
                    0 <= i < docs.len() ==> (#[trigger] r@[i]).0@ == docs[i] && r@[i].1
                        == mention_count(self@, namespace@, docs[i], texts(entity_ids@))
            }),
    {
        let sel = select(
            &self.mentions,
            |m: &StoredMention| -> (b: bool)
                ensures
                    b == (m@.namespace == namespace@ && texts(entity_ids@).contains(m@.entity_id))
            { same(m.namespace.as_str(), namespace) && any_same(entity_ids, m.entity_id.as_str()) },
            Ghost(mention_among(namespace@, texts(entity_ids@))),
        );
        let docs = keep_once(&documents_of(&sel));
        let mut out: Vec<(String, usize)> = Vec::new();
        for i in 0..docs.len()
            invariant
                texts(docs@) == mentioning_docs(self@, namespace@, texts(entity_ids@)),
                out@.len() == i,
                forall|j: int|
                    0 <= j < i ==> (#[trigger] out@[j]).0@ == texts(docs@)[j] && out@[j].1
                        == mention_count(self@, namespace@, texts(docs@)[j], texts(entity_ids@)),
        {
            let n: usize = self.count_mentions(namespace, docs[i].as_str(), entity_ids);
            out.push((docs[i].clone(), n));
        }
        out
    }

    /// How many different ones of `entity_ids` a document mentions.
    fn count_mentions(&self, namespace: &str, document_id: &str, entity_ids: &Vec<String>) -> (n:
        usize)
        ensures
            n == mention_count(self@, namespace@, document_id@, texts(entity_ids@)),
    {
        let sel = select(
            &self.mentions,
            |m: &StoredMention| -> (b: bool)
                ensures
                    b == (m@.namespace == namespace@ && m@.document_id == document_id@ && texts(
                        entity_ids@,
                    ).contains(m@.entity_id))
            {
                same(m.namespace.as_str(), namespace) && same(
                    m.document_id.as_str(),
                    document_id,
                ) && any_same(entity_ids, m.entity_id.as_str())
            },
            Ghost(mention_in_doc(namespace@, document_id@, texts(entity_ids@))),
        );
        let once = keep_once(&entities_of(&sel));
        assert(texts(once@).len() == once@.len());
        once.len()
    }
}

/// Law: keeping each text once keeps every text, adds none, and repeats none.
pub proof fn law_once_each(s: Seq<Seq<char>>)
    ensures
        forall|x: Seq<char>| #[trigger] once_each(s).contains(x) <==> s.contains(x),
        once_each(s).no_duplicates(),
    decreases s.len(),
{
    if s.len() > 0 {
        let head = s.drop_last();
        law_once_each(head);
        let before = once_each(head);
        let after = once_each(s);
        assert(s[s.len() - 1] == s.last());
        assert forall|x: Seq<char>| #[trigger] after.contains(x) <==> s.contains(x) by {
            assert(s.contains(x) <==> head.contains(x) || x == s.last()) by {
                if s.contains(x) {
                    let k = choose|k: int| 0 <= k < s.len() && s[k] == x;
                    if k < head.len() {
                        assert(head[k] == x);
                    }
                }
                if head.contains(x) {
                    let k = choose|k: int| 0 <= k < head.len() && head[k] == x;
                    assert(s[k] == x);
                }
            }
            assert(after.contains(x) <==> before.contains(x) || x == s.last()) by {
                if after.contains(x) {
                    let k = choose|k: int| 0 <= k < after.len() && after[k] == x;
                    if k < before.len() {
                        assert(before[k] == x);
                    }
                }
                if before.contains(x) {
                    let k = choose|k: int| 0 <= k < before.len() && before[k] == x;
                    assert(after[k] == x);
                }
                if !before.contains(s.last()) {
                    assert(after[before.len() as int] == s.last());
                }
            }
        }
        assert forall|i: int, j: int| 0 <= i < after.len() && 0 <= j < after.len() && i != j implies after[i]
            != after[j] by {
            if i < before.len() && j < before.len() {
                assert(before[i] != before[j]);
            } else if i < before.len() {
                assert(before.contains(before[i]));
            } else if j < before.len() {
                assert(before.contains(before[j]));
            }
        }
    }
}

/// Law: the documents that mention an entity are those with a mention of it in the namespace; a document
/// counts one for each different entity that it mentions, however often it does.
pub proof fn law_mentions_counted(s: State, ns: Seq<char>, entities: Seq<Seq<char>>)
    ensures
        forall|d: Seq<char>| #[trigger]
            mentioning_docs(s, ns, entities).contains(d) <==> exists|i: int|
                0 <= i < s.mentions.len() && (#[trigger] s.mentions[i]).namespace == ns
                    && s.mentions[i].document_id == d && entities.contains(s.mentions[i].entity_id),
        mentioning_docs(s, ns, entities).no_duplicates(),
        forall|d: Seq<char>, found: Set<Seq<char>>|
            (forall|e: Seq<char>| #[trigger]
                found.contains(e) <==> entities.contains(e) && exists|i: int|
                    0 <= i < s.mentions.len() && (#[trigger] s.mentions[i]).namespace == ns
                        && s.mentions[i].document_id == d && s.mentions[i].entity_id == e)
                ==> #[trigger] mention_count(s, ns, d, entities) == #[trigger] found.len(),
{
    let among = rows_where(s.mentions, mention_among(ns, entities));
    crate::table::lemma_rows_where_contains(s.mentions, mention_among(ns, entities));
    law_once_each(document_ids(among));
    assert forall|d: Seq<char>| #[trigger]
        mentioning_docs(s, ns, entities).contains(d) <==> exists|i: int|
            0 <= i < s.mentions.len() && (#[trigger] s.mentions[i]).namespace == ns && s.mentions[i].document_id
                == d && entities.contains(s.mentions[i].entity_id) by {
        if document_ids(among).contains(d) {
            let k = choose|k: int| 0 <= k < document_ids(among).len() && document_ids(among)[k] == d;
            assert(among.contains(among[k]));
            let i = choose|i: int| 0 <= i < s.mentions.len() && s.mentions[i] == among[k];
            assert(s.mentions[i].document_id == d);
        }
        if exists|i: int|
            0 <= i < s.mentions.len() && (#[trigger] s.mentions[i]).namespace == ns && s.mentions[i].document_id
                == d && entities.contains(s.mentions[i].entity_id) {
            let i = choose|i: int|
                0 <= i < s.mentions.len() && (#[trigger] s.mentions[i]).namespace == ns
                    && s.mentions[i].document_id == d && entities.contains(s.mentions[i].entity_id);
            assert(s.mentions.contains(s.mentions[i]));
            assert(among.contains(s.mentions[i]));
            let k = choose|k: int| 0 <= k < among.len() && among[k] == s.mentions[i];
            assert(document_ids(among)[k] == d);
        }
    }
    assert forall|d: Seq<char>, found: Set<Seq<char>>|
        (forall|e: Seq<char>| #[trigger]
            found.contains(e) <==> entities.contains(e) && exists|i: int|
                0 <= i < s.mentions.len() && (#[trigger] s.mentions[i]).namespace == ns
                    && s.mentions[i].document_id == d && s.mentions[i].entity_id == e) implies #[trigger] mention_count(
    s, ns, d, entities) == #[trigger] found.len() by {
        let here = rows_where(s.mentions, mention_in_doc(ns, d, entities));
        let ids = once_each(entity_ids(here));
        crate::table::lemma_rows_where_contains(s.mentions, mention_in_doc(ns, d, entities));
        law_once_each(entity_ids(here));
        assert forall|e: Seq<char>| ids.contains(e) <==> found.contains(e) by {
            if entity_ids(here).contains(e) {
                let k = choose|k: int| 0 <= k < entity_ids(here).len() && entity_ids(here)[k] == e;
                assert(here.contains(here[k]));
                let i = choose|i: int| 0 <= i < s.mentions.len() && s.mentions[i] == here[k];
                assert(s.mentions[i].entity_id == e);
            }
            if found.contains(e) {
                let i = choose|i: int|
                    0 <= i < s.mentions.len() && (#[trigger] s.mentions[i]).namespace == ns
                        && s.mentions[i].document_id == d && s.mentions[i].entity_id == e;
                assert(s.mentions.contains(s.mentions[i]));
                assert(here.contains(s.mentions[i]));
                let k = choose|k: int| 0 <= k < here.len() && here[k] == s.mentions[i];
                assert(entity_ids(here)[k] == e);
            }
        }
        assert(ids.to_set() =~= found);
        ids.unique_seq_to_set();
    }
}

/// Law: the symbols of a document are the entities under `sym:` that one of its mentions names, each once.
pub proof fn law_doc_symbols(s: State, ns: Seq<char>, document_id: Seq<char>, e: Seq<char>)
    ensures
        doc_symbols(s, ns, document_id).contains(e) <==> has_prefix(e, "sym:"@) && exists|m: int|
            0 <= m < s.mentions.len() && (#[trigger] s.mentions[m]).namespace == ns && s.mentions[m].document_id
                == document_id && s.mentions[m].entity_id == e,
        doc_symbols(s, ns, document_id).no_duplicates(),
{
    let q = symbol_of(ns, document_id);
    let hits = rows_where(s.mentions, q);
    let ids = entity_ids(hits);
    lemma_rows_where_contains(s.mentions, q);
    law_once_each(ids);
    if ids.contains(e) {
        let k = choose|k: int| 0 <= k < ids.len() && ids[k] == e;
        assert(hits.contains(hits[k]));
        let m = choose|m: int| 0 <= m < s.mentions.len() && s.mentions[m] == hits[k];
        assert(s.mentions[m].entity_id == e);
    }
    if has_prefix(e, "sym:"@) && exists|m: int|
        0 <= m < s.mentions.len() && (#[trigger] s.mentions[m]).namespace == ns && s.mentions[m].document_id
            == document_id && s.mentions[m].entity_id == e {
        let m = choose|m: int|
            0 <= m < s.mentions.len() && (#[trigger] s.mentions[m]).namespace == ns && s.mentions[m].document_id
                == document_id && s.mentions[m].entity_id == e;
        assert(hits.contains(s.mentions[m]));
        let k = choose|k: int| 0 <= k < hits.len() && hits[k] == s.mentions[m];
        assert(ids[k] == e);
    }
}

} // verus!
