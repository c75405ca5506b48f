//! The nodes of summary trees. A tree is told by namespace, kind and key; the unsealed nodes of
//! one level are the buffer that the next summary is made of.

use super::docs::loose_leaf_of;
use super::{
    copy_embedding, link_key, node_key, node_place, random_id, Link, Node, State, Store, StoredLink, TreeNode,
};
use crate::model::Error;
use crate::table::{
    any_row, distinct_by, except, find, is_order, law_sorted_rows, lemma_distinct_push,
    lemma_distinct_rewritten, lemma_distinct_where, lemma_rows_push, lemma_rows_where_contains, remove_where,
    rewrite, rewritten, rows, rows_where, select, sort, sorted_rows, Row,
};
use crate::text::{any_same, opt_text, same, texts};
use vstd::prelude::*;

verus! {

/// A node to be added to a tree.
pub struct NewTreeNode<'a> {
    pub namespace: &'a str,
    pub tree_kind: &'a str,
    pub tree_key: &'a str,
    pub level: i64,
    pub sealed: bool,
    pub label: Option<&'a str>,
    pub body: &'a str,
    pub doc_id: Option<&'a str>,
    pub token_count: u64,
    pub embedding: &'a Vec<u32>,
    pub signature: &'a str,
}

/// What a node to be added holds.
#[verifier::ext_equal]
pub struct NodeDraft {
    pub namespace: Seq<char>,
    pub tree_kind: Seq<char>,
    pub tree_key: Seq<char>,
    pub level: i64,
    pub sealed: bool,
    pub label: Option<Seq<char>>,
    pub body: Seq<char>,
    pub doc_id: Option<Seq<char>>,
    pub token_count: u64,
    pub embedding: Seq<u32>,
    pub signature: Seq<char>,
}

impl<'a> View for NewTreeNode<'a> {
    type V = NodeDraft;

    open spec fn view(&self) -> NodeDraft {
        NodeDraft {
            namespace: self.namespace@,
            tree_kind: self.tree_kind@,
            tree_key: self.tree_key@,
            level: self.level,
            sealed: self.sealed,
            label: opt_str(self.label),
            body: self.body@,
            doc_id: opt_str(self.doc_id),
            token_count: self.token_count,
            embedding: self.embedding@,
            signature: self.signature@,
        }
    }
}

/// The text of an optional string slice.
pub open spec fn opt_str(o: Option<&str>) -> Option<Seq<char>> {
    match o {
        Some(s) => Some(s@),
        None => None,
    }
}

fn own_opt(o: Option<&str>) -> (r: Option<String>)
    ensures
        opt_text(r) == opt_str(o),
{
    match o {
        Some(s) => Some(s.to_owned()),
        None => None,
    }
}

/// The nodes of one tree.
pub open spec fn in_tree(ns: Seq<char>, kind: Seq<char>, key: Seq<char>) -> spec_fn(Node) -> bool {
    |n: Node| n.namespace == ns && n.tree_kind == kind && n.tree_key == key
}

/// The nodes of one level of a tree.
pub open spec fn at_level(ns: Seq<char>, kind: Seq<char>, key: Seq<char>, level: i64) -> spec_fn(Node) -> bool {
    |n: Node| n.namespace == ns && n.tree_kind == kind && n.tree_key == key && n.level == level
}

/// The nodes of one level of a tree that no summary has absorbed.
pub open spec fn in_buffer(ns: Seq<char>, kind: Seq<char>, key: Seq<char>, level: i64) -> spec_fn(
    Node,
) -> bool {
    |n: Node|
        n.namespace == ns && n.tree_kind == kind && n.tree_key == key && n.level == level
            && !n.sealed
}

pub open spec fn node_is(id: Seq<char>) -> spec_fn(Node) -> bool {
    |n: Node| n.node_id == id
}

pub open spec fn node_among(ids: Seq<Seq<char>>) -> spec_fn(Node) -> bool {
    |n: Node| ids.contains(n.node_id)
}

/// Nodes in the order in which they were appended to their level.
pub open spec fn seq_less() -> spec_fn(Node, Node) -> bool {
    |a: Node, b: Node| a.seq < b.seq
}

/// The largest number among `s`, or -1.
pub open spec fn max_seq(s: Seq<Node>) -> int
    decreases s.len(),
{
    if s.len() == 0 {
        -1
    } else {
        let m = max_seq(s.drop_last());
        if s.last().seq > m {
            s.last().seq as int
        } else {
            m
        }
    }
}

/// The number of the next node of a level.
pub open spec fn next_seq(nodes: Seq<Node>, n: NodeDraft) -> int {
    max_seq(rows_where(nodes, at_level(n.namespace, n.tree_kind, n.tree_key, n.level))) + 1
}

/// A new node as it is stored.
pub open spec fn node_added(nodes: Seq<Node>, n: NodeDraft, id: Seq<char>, now: u64) -> Node {
    Node {
        node_id: id,
        namespace: n.namespace,
        tree_kind: n.tree_kind,
        tree_key: n.tree_key,
        level: n.level,
        seq: next_seq(nodes, n) as u64,
        sealed: n.sealed,
        label: n.label,
        body: n.body,
        doc_id: n.doc_id,
        token_count: n.token_count,
        embedding: n.embedding,
        signature: n.signature,
        created_at: now,
        sealed_at: None,
    }
}

/// Whether a node cannot be added: its id is taken, or its level has run out of numbers.
pub open spec fn node_refused(nodes: Seq<Node>, n: NodeDraft, id: Seq<char>) -> bool {
    any_row(nodes, node_is(id)) || next_seq(nodes, n) > u64::MAX
}

pub open spec fn link_is(parent: Seq<char>, child: Seq<char>) -> spec_fn(Link) -> bool {
    |l: Link| l.parent_id == parent && l.child_id == child
}

/// The links after a parent was linked to all of `children`; a link is not repeated.
pub open spec fn links_added(links: Seq<Link>, parent: Seq<char>, children: Seq<Seq<char>>) -> Seq<Link>
    decreases children.len(),
{
    if children.len() == 0 {
        links
    } else {
        let before = links_added(links, parent, children.drop_last());
        if any_row(before, link_is(parent, children.last())) {
            before
        } else {
            before.push(Link { parent_id: parent, child_id: children.last() })
        }
    }
}

/// A node that a summary has absorbed.
pub open spec fn node_sealed(now: u64) -> spec_fn(Node) -> Node {
    |n: Node| Node { sealed: true, sealed_at: Some(now), ..n }
}

/// The store after a summary was added over `children`: they are linked to it and sealed.
pub open spec fn sealed_state(
    s: State,
    parent: NodeDraft,
    children: Seq<Seq<char>>,
    id: Seq<char>,
    now: u64,
) -> State {
    State {
        nodes: rewritten(
            s.nodes.push(node_added(s.nodes, parent, id, now)),
            node_among(children),
            node_sealed(now),
        ),
        links: links_added(s.links, id, children),
        ..s
    }
}

/// The highest level among `s`, or 0.
pub open spec fn top_level(s: Seq<Node>) -> int
    decreases s.len(),
{
    if s.len() == 0 {
        0
    } else if s.len() == 1 {
        s[0].level as int
    } else {
        let m = top_level(s.drop_last());
        if s.last().level > m {
            s.last().level as int
        } else {
            m
        }
    }
}

/// The nodes of a tree's highest level, in order.
pub open spec fn top_nodes(s: State, ns: Seq<char>, kind: Seq<char>, key: Seq<char>) -> Seq<Node> {
    let tree = rows_where(s.nodes, in_tree(ns, kind, key));
    sorted_rows(rows_where(tree, |n: Node| n.level == top_level(tree)), seq_less())
}

/// The nodes that a summary was made of, in order.
pub open spec fn child_nodes(s: State, parent: Seq<char>) -> Seq<Node> {
    sorted_rows(
        rows_where(s.nodes, |n: Node| any_row(s.links, link_is(parent, n.node_id))),
        seq_less(),
    )
}

/// The unsealed nodes of a level, in order.
pub open spec fn buffer_nodes(s: State, ns: Seq<char>, kind: Seq<char>, key: Seq<char>, level: i64) -> Seq<
    Node,
> {
    sorted_rows(rows_where(s.nodes, in_buffer(ns, kind, key, level)), seq_less())
}

/// One buffer: namespace, kind, key and level.
pub open spec fn buffer_of(n: Node) -> (Seq<char>, Seq<char>, Seq<char>, i64) {
    (n.namespace, n.tree_kind, n.tree_key, n.level)
}

/// The buffer that an executable quadruple tells.
pub open spec fn buffer_view(b: (String, String, String, i64)) -> (Seq<char>, Seq<char>, Seq<char>, i64) {
    (b.0@, b.1@, b.2@, b.3)
}

/// Whether a buffer holds an unsealed node that was created at or before `older_than`.
pub open spec fn is_stale(
    s: State,
    b: (Seq<char>, Seq<char>, Seq<char>, i64),
    older_than: u64,
) -> bool {
    exists|i: int|
        0 <= i < s.nodes.len() && !(#[trigger] s.nodes[i]).sealed && buffer_of(s.nodes[i]) == b
            && s.nodes[i].created_at <= older_than
}

proof fn lemma_max_seq(s: Seq<Node>)
    ensures
        max_seq(s) >= -1,
        forall|i: int| 0 <= i < s.len() ==> (#[trigger] s[i]).seq <= max_seq(s),
    decreases s.len(),
{
    if s.len() > 0 {
        let t = s.drop_last();
        lemma_max_seq(t);
        assert forall|i: int| 0 <= i < s.len() implies (#[trigger] s[i]).seq <= max_seq(s) by {
            if i < t.len() {
                assert(t[i] == s[i]);
            }
        }
    }
}

/// The number of a new node is larger than that of every node of its level.
pub proof fn lemma_next_seq(nodes: Seq<Node>, n: NodeDraft)
    ensures
        next_seq(nodes, n) >= 0,
        forall|i: int|
            0 <= i < nodes.len() && at_level(n.namespace, n.tree_kind, n.tree_key, n.level)(
                #[trigger] nodes[i],
            ) ==> nodes[i].seq < next_seq(nodes, n),
{
    let q = at_level(n.namespace, n.tree_kind, n.tree_key, n.level);
    let sel = rows_where(nodes, q);
    lemma_max_seq(sel);
    lemma_rows_where_contains(nodes, q);
    assert forall|i: int| 0 <= i < nodes.len() && q(#[trigger] nodes[i]) implies nodes[i].seq
        < next_seq(nodes, n) by {
        assert(nodes.contains(nodes[i]));
        assert(sel.contains(nodes[i]));
        let k = choose|k: int| 0 <= k < sel.len() && sel[k] == nodes[i];
        assert(sel[k].seq <= max_seq(sel));
    }
}

pub proof fn lemma_node_added(nodes: Seq<Node>, n: NodeDraft, id: Seq<char>, now: u64)
    requires
        distinct_by(nodes, node_key()),
        distinct_by(nodes, node_place()),
        !node_refused(nodes, n, id),
    ensures
        distinct_by(nodes.push(node_added(nodes, n, id, now)), node_key()),
        distinct_by(nodes.push(node_added(nodes, n, id, now)), node_place()),
{
    let x = node_added(nodes, n, id, now);
    lemma_next_seq(nodes, n);
    assert forall|i: int| 0 <= i < nodes.len() implies node_key()(#[trigger] nodes[i]) != node_key()(
        x,
    ) by {
        assert(!node_is(id)(nodes[i]));
    }
    assert forall|i: int| 0 <= i < nodes.len() implies node_place()(#[trigger] nodes[i])
        != node_place()(x) by {
        if node_place()(nodes[i]) == node_place()(x) {
            assert(at_level(n.namespace, n.tree_kind, n.tree_key, n.level)(nodes[i]));
        }
    }
    lemma_distinct_push(nodes, x, node_key());
    lemma_distinct_push(nodes, x, node_place());
}

proof fn lemma_links_added(links: Seq<Link>, parent: Seq<char>, children: Seq<Seq<char>>)
    requires
        distinct_by(links, link_key()),
    ensures
        distinct_by(links_added(links, parent, children), link_key()),
    decreases children.len(),
{
    if children.len() > 0 {
        lemma_links_added(links, parent, children.drop_last());
        let before = links_added(links, parent, children.drop_last());
        let x = Link { parent_id: parent, child_id: children.last() };
        if !any_row(before, link_is(parent, children.last())) {
            assert forall|i: int| 0 <= i < before.len() implies link_key()(#[trigger] before[i])
                != link_key()(x) by {
                assert(!link_is(parent, children.last())(before[i]));
            }
            lemma_distinct_push(before, x, link_key());
        }
    }
}

proof fn lemma_links_added_has(links: Seq<Link>, parent: Seq<char>, children: Seq<Seq<char>>, c: Seq<char>)
    requires
        children.contains(c),
    ensures
        any_row(links_added(links, parent, children), link_is(parent, c)),
    decreases children.len(),
{
    let before = links_added(links, parent, children.drop_last());
    let after = links_added(links, parent, children);
    if children.last() == c {
        if !any_row(before, link_is(parent, c)) {
            assert(link_is(parent, c)(after[after.len() - 1]));
        }
    } else {
        let k = choose|k: int| 0 <= k < children.len() && children[k] == c;
        assert(children.drop_last()[k] == c);
        lemma_links_added_has(links, parent, children.drop_last(), c);
        let i = choose|i: int| 0 <= i < before.len() && link_is(parent, c)(#[trigger] before[i]);
        assert(after[i] == before[i]);
    }
}

pub proof fn lemma_sealed_state_wf(
    s: State,
    parent: NodeDraft,
    children: Seq<Seq<char>>,
    id: Seq<char>,
    now: u64,
)
    requires
        s.wf(),
        !node_refused(s.nodes, parent, id),
    ensures
        sealed_state(s, parent, children, id, now).wf(),
{
    lemma_node_added(s.nodes, parent, id, now);
    let grown = s.nodes.push(node_added(s.nodes, parent, id, now));
    lemma_distinct_rewritten(grown, node_among(children), node_sealed(now), node_key());
    lemma_distinct_rewritten(grown, node_among(children), node_sealed(now), node_place());
    lemma_links_added(s.links, id, children);
}

/// Law: a summary absorbs its children. They are sealed and linked to it, it is the newest node
/// of its level, and every other node is as it was.
pub proof fn law_seal(
    s: State,
    parent: NodeDraft,
    children: Seq<Seq<char>>,
    id: Seq<char>,
    now: u64,
)
    requires
        s.wf(),
        !node_refused(s.nodes, parent, id),
        !children.contains(id),
    ensures
        ({
            let t = sealed_state(s, parent, children, id, now);
            &&& t.nodes.len() == s.nodes.len() + 1
            &&& forall|i: int|
                0 <= i < s.nodes.len() ==> {
                    if children.contains((#[trigger] s.nodes[i]).node_id) {
                        t.nodes[i] == node_sealed(now)(s.nodes[i])
                    } else {
                        t.nodes[i] == s.nodes[i]
                    }
                }
            &&& t.nodes.last() == node_added(s.nodes, parent, id, now)
            &&& forall|c: Seq<char>| #[trigger]
                children.contains(c) ==> any_row(t.links, link_is(id, c))
            &&& forall|i: int|
                0 <= i < s.nodes.len() && at_level(
                    parent.namespace,
                    parent.tree_kind,
                    parent.tree_key,
                    parent.level,
                )(#[trigger] s.nodes[i]) ==> s.nodes[i].seq < t.nodes.last().seq
        }),
{
    let t = sealed_state(s, parent, children, id, now);
    lemma_next_seq(s.nodes, parent);
    assert forall|c: Seq<char>| #[trigger] children.contains(c) implies any_row(
        t.links,
        link_is(id, c),
    ) by {
        lemma_links_added_has(s.links, id, children, c);
    }
}

/// Law: sealing never unseals a node, and never changes what a node says.
pub proof fn law_seal_keeps_history(
    s: State,
    parent: NodeDraft,
    children: Seq<Seq<char>>,
    id: Seq<char>,
    now: u64,
    i: int,
)
    requires
        0 <= i < s.nodes.len(),
    ensures
        ({
            let t = sealed_state(s, parent, children, id, now);
            let a = s.nodes[i];
            let b = t.nodes[i];
            &&& a.sealed ==> b.sealed
            &&& b == (Node { sealed: b.sealed, sealed_at: b.sealed_at, ..a })
        }),
{
}

impl Store {
    /// Appends a leaf (or any node) to its level under a fresh random id, which is returned. Refused
    /// where that id is taken or the level has run out of numbers, and only there.
    pub fn append_leaf_node(&mut self, n: &NewTreeNode<'_>, now: u64) -> (r: Result<String, Error>)
        requires
            old(self)@.wf(),
        ensures
            final(self)@.wf(),
            match r {
                Ok(id) => final(self)@ == (State {
                    nodes: old(self)@.nodes.push(node_added(old(self)@.nodes, n@, id@, now)),
                    ..old(self)@
                }) && !node_refused(old(self)@.nodes, n@, id@),
                Err(e) => final(self)@ == old(self)@ && (e is Conflict || e is Limit) && exists|
                    id: Seq<char>,
                | #[trigger]
                    node_refused(old(self)@.nodes, n@, id) && (e is Conflict <==> any_row(
                        old(self)@.nodes,
                        node_is(id),
                    )),
            },
    {
        let id = random_id();
        match self.append_node_as(n, id.as_str(), now) {
            Ok(()) => Ok(id),
            Err(e) => Err(e),
        }
    }

    /// The number of the next node of a level.
    fn next_number(&self, n: &NewTreeNode<'_>) -> (r: Option<u64>)
        ensures
            match r {
                Some(k) => k == next_seq(self@.nodes, n@),
                None => next_seq(self@.nodes, n@) > u64::MAX,
            },
    {
        let ns = n.namespace;
        let kind = n.tree_kind;
        let key = n.tree_key;
        let level: i64 = n.level;
        let sel = select(
            &self.nodes,
            |x: &TreeNode| -> (b: bool)
                ensures
                    b == (x@.namespace == ns@ && x@.tree_kind == kind@ && x@.tree_key == key@
                        && x@.level == level)
            {
                same(x.namespace.as_str(), ns) && same(x.tree_kind.as_str(), kind) && same(
                    x.tree_key.as_str(),
                    key,
                ) && x.level == level
            },
            Ghost(at_level(ns@, kind@, key@, level)),
        );
        let mut next: u128 = 0;
        assert(rows(sel@).take(0) =~= Seq::<Node>::empty());
        for i in 0..sel.len()
            invariant
                next == max_seq(rows(sel@).take(i as int)) + 1,
                next <= 0x1_0000_0000_0000_0000,
        {
            assert(rows(sel@).take(i + 1).drop_last() =~= rows(sel@).take(i as int));
            assert(rows(sel@).take(i + 1).last() == sel@[i as int]@);
            if sel[i].seq as u128 >= next {
                next = sel[i].seq as u128 + 1;
            }
        }
        assert(rows(sel@).take(sel@.len() as int) =~= rows(sel@));
        if next > u64::MAX as u128 {
            None
        } else {
            Some(next as u64)
        }
    }

    /// Appends a node to its level under the given id. Refused where the id is taken or the
    /// level has run out of numbers.
    pub fn append_node_as(&mut self, n: &NewTreeNode<'_>, id: &str, now: u64) -> (r: Result<(), Error>)
        requires
            old(self)@.wf(),
        ensures
            final(self)@.wf(),
            match r {
                Ok(_) => !node_refused(old(self)@.nodes, n@, id@) && final(self)@ == (State {
                    nodes: old(self)@.nodes.push(node_added(old(self)@.nodes, n@, id@, now)),
                    ..old(self)@
                }),
                Err(e) => node_refused(old(self)@.nodes, n@, id@) && final(self)@ == old(self)@
                    && (e is Conflict <==> any_row(old(self)@.nodes, node_is(id@))) && (e is Conflict
                    || e is Limit),
            },
    {
        let ghost before = self@;
        let taken = find(
            &self.nodes,
            |x: &TreeNode| -> (b: bool)
                ensures
                    b == (x@.node_id == id@)
            { same(x.node_id.as_str(), id) },
            Ghost(node_is(id@)),
        );
        if taken.is_some() {
            assert(node_is(id@)(before.nodes[taken->0 as int]));
            return Err(Error::Conflict);
        }
        let seq: u64 = match self.next_number(n) {
            Some(k) => k,
            None => {
                return Err(Error::Limit);
            },
        };
        let node = TreeNode {
            node_id: id.to_owned(),
            namespace: n.namespace.to_owned(),
            tree_kind: n.tree_kind.to_owned(),
            tree_key: n.tree_key.to_owned(),
            level: n.level,
            seq,
            sealed: n.sealed,
            label: own_opt(n.label),
            body: n.body.to_owned(),
            doc_id: own_opt(n.doc_id),
            token_count: n.token_count,
            embedding: copy_embedding(n.embedding),
            signature: n.signature.to_owned(),
            created_at: now,
            sealed_at: None,
        };
        let ghost v0 = self.nodes@;
        self.nodes.push(node);
        proof {
            lemma_rows_push(v0, node);
            lemma_node_added(before.nodes, n@, id@, now);
            assert(node@ =~= node_added(before.nodes, n@, id@, now));
        }
        Ok(())
    }

    /// Adds a summary node under a fresh random id, links it to its children and seals them.
    /// Returns the id. Refused where that id is taken or the level has run out of numbers, and only
    /// there.
    pub fn seal_buffer(&mut self, parent: &NewTreeNode<'_>, child_ids: &Vec<String>, now: u64) -> (r:
        Result<String, Error>)
        requires
            old(self)@.wf(),
        ensures
            final(self)@.wf(),
            match r {
                Ok(id) => final(self)@ == sealed_state(
                    old(self)@,
                    parent@,
                    texts(child_ids@),
                    id@,
                    now,
                ) && !node_refused(old(self)@.nodes, parent@, id@),
                Err(e) => final(self)@ == old(self)@ && (e is Conflict || e is Limit) && exists|
                    id: Seq<char>,
                | #[trigger]
                    node_refused(old(self)@.nodes, parent@, id) && (e is Conflict <==> any_row(
                        old(self)@.nodes,
                        node_is(id),
                    )),
            },
    {
        let id = random_id();
        match self.seal_buffer_as(parent, child_ids, id.as_str(), now) {
            Ok(()) => Ok(id),
            Err(e) => Err(e),
        }
    }

    /// Adds a summary node under the given id, links it to its children and seals them. Refused
    /// where the id is taken or the level has run out of numbers.
    pub fn seal_buffer_as(
        &mut self,
        parent: &NewTreeNode<'_>,
        child_ids: &Vec<String>,
        id: &str,
        now: u64,
    ) -> (r: Result<(), Error>)
        requires
            old(self)@.wf(),
        ensures
            final(self)@.wf(),
            match r {
                Ok(_) => !node_refused(old(self)@.nodes, parent@, id@) && final(self)@
                    == sealed_state(old(self)@, parent@, texts(child_ids@), id@, now),
                Err(e) => node_refused(old(self)@.nodes, parent@, id@) && final(self)@
                    == old(self)@ && (e is Conflict <==> any_row(old(self)@.nodes, node_is(id@)))
                    && (e is Conflict || e is Limit),
            },
    {
        let ghost before = self@;
        match self.append_node_as(parent, id, now) {
            Ok(()) => {},
            Err(e) => {
                return Err(e);
            },
        }
        proof {
            lemma_sealed_state_wf(before, parent@, texts(child_ids@), id@, now);
            assert(texts(child_ids@).take(0) =~= Seq::<Seq<char>>::empty());
        }
        let ghost mid = self@;
        for i in 0..child_ids.len()
            invariant
                self@ == (State {
                    links: links_added(before.links, id@, texts(child_ids@).take(i as int)),
                    ..mid
                }),
        {
            let ghost links0 = self@.links;
            proof {
                assert(texts(child_ids@).take(i + 1).drop_last() =~= texts(child_ids@).take(
                    i as int,
                ));
                assert(texts(child_ids@).take(i + 1).last() == child_ids@[i as int]@);
            }
            let child = child_ids[i].as_str();
            let at = find(
                &self.links,
                |l: &StoredLink| -> (b: bool)
                    ensures
                        b == (l@.parent_id == id@ && l@.child_id == child@)
                { same(l.parent_id.as_str(), id) && same(l.child_id.as_str(), child) },
                Ghost(link_is(id@, child@)),
            );
            if at.is_some() {
                assert(link_is(id@, child@)(links0[at->0 as int]));
            } else {
                let row = StoredLink { parent_id: id.to_owned(), child_id: child.to_owned() };
                let ghost v0 = self.links@;
                self.links.push(row);
                proof {
                    lemma_rows_push(v0, row);
                }
            }
        }
        assert(texts(child_ids@).take(child_ids@.len() as int) =~= texts(child_ids@));
        rewrite(
            &mut self.nodes,
            |x: &TreeNode| -> (b: bool)
                ensures
                    b == texts(child_ids@).contains(x@.node_id)
            { any_same(child_ids, x.node_id.as_str()) },
            |x: &TreeNode| -> (r: TreeNode)
                ensures
                    r@ == node_sealed(now)(x@)
            {
                let mut r = x.copy();
                r.sealed = true;
                r.sealed_at = Some(now);
                r
            },
            Ghost(node_among(texts(child_ids@))),
            Ghost(node_sealed(now)),
        );
        assert(self@ =~= sealed_state(before, parent@, texts(child_ids@), id@, now));
        Ok(())
    }

    /// The unsealed nodes of a level, in order.
    pub fn unsealed_nodes(&self, namespace: &str, tree_kind: &str, tree_key: &str, level: i64) -> (r:
        Vec<TreeNode>)
        ensures
            rows(r@) == buffer_nodes(self@, namespace@, tree_kind@, tree_key@, level),
    {
        let mut out = select(
            &self.nodes,
            |x: &TreeNode| -> (b: bool)
                ensures
                    b == (x@.namespace == namespace@ && x@.tree_kind == tree_kind@ && x@.tree_key
                        == tree_key@ && x@.level == level && !x@.sealed)
            {
                same(x.namespace.as_str(), namespace) && same(x.tree_kind.as_str(), tree_kind)
                    && same(x.tree_key.as_str(), tree_key) && x.level == level && !x.sealed
            },
            Ghost(in_buffer(namespace@, tree_kind@, tree_key@, level)),
        );
        sort_by_number(&mut out);
        out
    }

    /// The nodes that a summary was made of, in order.
    pub fn children_of(&self, parent_id: &str) -> (r: Vec<TreeNode>)
        ensures
            rows(r@) == child_nodes(self@, parent_id@),
    {
        let links = &self.links;
        let ghost ls = self@.links;
        let mut out = select(
            &self.nodes,
            |x: &TreeNode| -> (b: bool)
                ensures
                    b == any_row(rows(links@), link_is(parent_id@, x@.node_id))
            { has_link(links, parent_id, x.node_id.as_str()) },
            Ghost(|n: Node| any_row(ls, link_is(parent_id@, n.node_id))),
        );
        sort_by_number(&mut out);
        assert(rows(out@) == child_nodes(self@, parent_id@));
        out
    }

    /// Removes the leaves of a document that no summary has absorbed; returns how many there
    /// were.
    pub fn delete_unsealed_leaves_for_doc(&mut self, namespace: &str, document_id: &str) -> (n: usize)
        requires
            old(self)@.wf(),
        ensures
            final(self)@.wf(),
            n == rows_where(old(self)@.nodes, loose_leaf_of(namespace@, document_id@)).len(),
            final(self)@ == (State {
                nodes: rows_where(
                    old(self)@.nodes,
                    except(loose_leaf_of(namespace@, document_id@)),
                ),
                ..old(self)@
            }),
    {
        proof {
            lemma_distinct_where(
                self@.nodes,
                except(loose_leaf_of(namespace@, document_id@)),
                node_key(),
            );
            lemma_distinct_where(
                self@.nodes,
                except(loose_leaf_of(namespace@, document_id@)),
                node_place(),
            );
        }
        remove_where(
            &mut self.nodes,
            |n: &TreeNode| -> (b: bool)
                ensures
                    b == (n@.namespace == namespace@ && n@.doc_id == Some(document_id@) && n@.level
                        == 0 && !n@.sealed)
            {
                same(n.namespace.as_str(), namespace) && match &n.doc_id {
                    Some(d) => same(d.as_str(), document_id),
                    None => false,
                } && n.level == 0 && !n.sealed
            },
            Ghost(loose_leaf_of(namespace@, document_id@)),
        )
    }

    /// The nodes of a tree's highest level, in order: where a drill-down starts. Without any
    /// summary these are the leaves.
    pub fn tree_top_nodes(&self, namespace: &str, tree_kind: &str, tree_key: &str) -> (r: Vec<
        TreeNode,
    >)
        ensures
            rows(r@) == top_nodes(self@, namespace@, tree_kind@, tree_key@),
    {
        let tree = select(
            &self.nodes,
            |x: &TreeNode| -> (b: bool)
                ensures
                    b == (x@.namespace == namespace@ && x@.tree_kind == tree_kind@ && x@.tree_key
                        == tree_key@)
            {
                same(x.namespace.as_str(), namespace) && same(x.tree_kind.as_str(), tree_kind)
                    && same(x.tree_key.as_str(), tree_key)
            },
            Ghost(in_tree(namespace@, tree_kind@, tree_key@)),
        );
        let ghost all = rows(tree@);
        let mut top: i64 = 0;
        assert(all.take(0) =~= Seq::<Node>::empty());
        for i in 0..tree.len()
            invariant
                all == rows(tree@),
                top == top_level(all.take(i as int)),
        {
            let ghost next = all.take(i + 1);
            assert(next.drop_last() =~= all.take(i as int));
            assert(next.last() == tree@[i as int]@);
            if i == 0 {
                assert(next[0] == tree@[0]@);
            }
            if i == 0 || tree[i].level > top {
                top = tree[i].level;
            }
        }
        assert(all.take(all.len() as int) =~= all);
        let mut out = select(
            &tree,
            |x: &TreeNode| -> (b: bool)
                ensures
                    b == (x@.level == top)
            { x.level == top },
            Ghost(|n: Node| n.level == top_level(all)),
        );
        sort_by_number(&mut out);
        assert(rows(out@) == top_nodes(self@, namespace@, tree_kind@, tree_key@));
        out
    }

    /// The buffers whose oldest unsealed node was created at or before `older_than`, each once.
    pub fn due_stale_buffers(&self, older_than: u64) -> (r: Vec<(String, String, String, i64)>)
        ensures
            forall|i: int|
                0 <= i < r@.len() ==> is_stale(self@, buffer_view(#[trigger] r@[i]), older_than),
            forall|b: (Seq<char>, Seq<char>, Seq<char>, i64)| #[trigger]
                is_stale(self@, b, older_than) ==> exists|i: int|
                    0 <= i < r@.len() && buffer_view(#[trigger] r@[i]) == b,
            forall|i: int, j: int|
                0 <= i < j < r@.len() ==> buffer_view(#[trigger] r@[i]) != buffer_view(
                    #[trigger] r@[j],
                ),
    {
        let mut out: Vec<(String, String, String, i64)> = Vec::new();
        for i in 0..self.nodes.len()
            invariant
                self@.nodes == rows(self.nodes@),
                forall|k: int|
                    0 <= k < out@.len() ==> is_stale(
                        self@,
                        buffer_view(#[trigger] out@[k]),
                        older_than,
                    ),
                forall|j: int|
                    0 <= j < i && !(#[trigger] self@.nodes[j]).sealed && self@.nodes[j].created_at
                        <= older_than ==> exists|k: int|
                        0 <= k < out@.len() && buffer_view(#[trigger] out@[k]) == buffer_of(
                            self@.nodes[j],
                        ),
                forall|a: int, b: int|
                    0 <= a < b < out@.len() ==> buffer_view(#[trigger] out@[a]) != buffer_view(
                        #[trigger] out@[b],
                    ),
        {
            let n = &self.nodes[i];
            assert(self@.nodes[i as int] == n@);
            if !n.sealed && n.created_at <= older_than {
                let mut seen: bool = false;
                for k in 0..out.len()
                    invariant
                        seen ==> exists|m: int|
                            0 <= m < out@.len() && buffer_view(#[trigger] out@[m]) == buffer_of(n@),
                        !seen ==> forall|m: int|
                            0 <= m < k ==> buffer_view(#[trigger] out@[m]) != buffer_of(n@),
                {
                    if same(out[k].0.as_str(), n.namespace.as_str()) && same(
                        out[k].1.as_str(),
                        n.tree_kind.as_str(),
                    ) && same(out[k].2.as_str(), n.tree_key.as_str()) && out[k].3 == n.level {
                        assert(buffer_view(out@[k as int]) == buffer_of(n@));
                        seen = true;
                    }
                }
                if !seen {
                    let ghost out0 = out@;
                    out.push(
                        (n.namespace.clone(), n.tree_kind.clone(), n.tree_key.clone(), n.level),
                    );
                    proof {
                        assert(buffer_view(out@[out@.len() - 1]) == buffer_of(n@));
                        assert(is_stale(self@, buffer_of(n@), older_than));
                        assert forall|j: int|
                            0 <= j < i && !(#[trigger] self@.nodes[j]).sealed
                                && self@.nodes[j].created_at <= older_than implies exists|k: int|
                            0 <= k < out@.len() && buffer_view(#[trigger] out@[k]) == buffer_of(
                                self@.nodes[j],
                            ) by {
                            let k = choose|k: int|
                                0 <= k < out0.len() && buffer_view(#[trigger] out0[k]) == buffer_of(
                                    self@.nodes[j],
                                );
                            assert(out@[k] == out0[k]);
                        }
                    }
                }
            }
        }
        out
    }
}

/// Sorts nodes by their number.
fn sort_by_number(v: &mut Vec<TreeNode>)
    ensures
        rows(final(v)@) == sorted_rows(rows(old(v)@), seq_less()),
{
    sort(
        v,
        |a: &TreeNode, b: &TreeNode| -> (r: bool)
            ensures
                r == (a@.seq < b@.seq)
        { a.seq < b.seq },
        Ghost(seq_less()),
    );
}

/// Whether a parent is linked to a child.
fn has_link(links: &Vec<StoredLink>, parent: &str, child: &str) -> (r: bool)
    ensures
        r == any_row(rows(links@), link_is(parent@, child@)),
{
    let at = find(
        links,
        |l: &StoredLink| -> (b: bool)
            ensures
                b == (l@.parent_id == parent@ && l@.child_id == child@)
        { same(l.parent_id.as_str(), parent) && same(l.child_id.as_str(), child) },
        Ghost(link_is(parent@, child@)),
    );
    if at.is_some() {
        assert(link_is(parent@, child@)(rows(links@)[at->0 as int]));
    }
    at.is_some()
}

// ---------------------------------------------------------------------------------------------
// What stands where in a tree.
// ---------------------------------------------------------------------------------------------

/// No node is above the top level of some nodes, and one of them is on it.
pub proof fn lemma_top_level(s: Seq<Node>)
    ensures
        forall|i: int| 0 <= i < s.len() ==> (#[trigger] s[i]).level <= top_level(s),
        s.len() > 0 ==> exists|i: int| 0 <= i < s.len() && (#[trigger] s[i]).level == top_level(s),
    decreases s.len(),
{
    if s.len() == 1 {
        assert(s[0].level == top_level(s));
    } else if s.len() > 1 {
        let head = s.drop_last();
        lemma_top_level(head);
        let k = choose|k: int| 0 <= k < head.len() && (#[trigger] head[k]).level == top_level(head);
        assert(s[k] == head[k]);
        assert(s[s.len() - 1] == s.last());
        assert forall|i: int| 0 <= i < s.len() implies (#[trigger] s[i]).level <= top_level(s) by {
            if i < head.len() {
                assert(head[i] == s[i]);
            }
        }
    }
}

/// Sorting nodes by their numbers keeps them.
pub proof fn lemma_sorted_nodes(sel: Seq<Node>)
    ensures
        forall|n: Node| #[trigger] sorted_rows(sel, seq_less()).contains(n) <==> sel.contains(n),
        forall|i: int, j: int|
            0 <= i < j < sorted_rows(sel, seq_less()).len() ==> (#[trigger] sorted_rows(sel, seq_less())[i]).seq
                <= (#[trigger] sorted_rows(sel, seq_less())[j]).seq,
{
    broadcast use vstd::seq_lib::group_to_multiset_ensures;

    let sorted = sorted_rows(sel, seq_less());
    assert(is_order(seq_less()));
    law_sorted_rows(sel, seq_less());
    assert forall|n: Node| #[trigger] sorted.contains(n) <==> sel.contains(n) by {
        assert(sorted.to_multiset().count(n) > 0 <==> sorted.contains(n));
        assert(sel.to_multiset().count(n) > 0 <==> sel.contains(n));
    }
    assert forall|i: int, j: int| 0 <= i < j < sorted.len() implies (#[trigger] sorted[i]).seq <= (
    #[trigger] sorted[j]).seq by {
        assert(!seq_less()(sorted[j], sorted[i]));
    }
}

/// Law: the top of a tree is made of the nodes that no other node of the tree stands above, in the order of
/// their numbers.
pub proof fn law_top_nodes(s: State, ns: Seq<char>, kind: Seq<char>, key: Seq<char>, n: Node)
    ensures
        top_nodes(s, ns, kind, key).contains(n) <==> s.nodes.contains(n) && n.namespace == ns && n.tree_kind == kind
            && n.tree_key == key && forall|i: int|
            0 <= i < s.nodes.len() && (#[trigger] s.nodes[i]).namespace == ns && s.nodes[i].tree_kind == kind
                && s.nodes[i].tree_key == key ==> s.nodes[i].level <= n.level,
        forall|i: int, j: int|
            0 <= i < j < top_nodes(s, ns, kind, key).len() ==> (#[trigger] top_nodes(s, ns, kind, key)[i]).seq <= (
            #[trigger] top_nodes(s, ns, kind, key)[j]).seq,
{
    let q = in_tree(ns, kind, key);
    let tree = rows_where(s.nodes, q);
    let p = |n: Node| n.level == top_level(tree);
    let sel = rows_where(tree, p);
    lemma_rows_where_contains(s.nodes, q);
    lemma_rows_where_contains(tree, p);
    lemma_top_level(tree);
    lemma_sorted_nodes(sel);
    if tree.contains(n) {
        let x = choose|x: int| 0 <= x < tree.len() && tree[x] == n;
        assert(n.level <= top_level(tree));
        let z = choose|z: int| 0 <= z < tree.len() && (#[trigger] tree[z]).level == top_level(tree);
        assert(tree.contains(tree[z]));
        let y = choose|y: int| 0 <= y < s.nodes.len() && s.nodes[y] == tree[z];
        assert(s.nodes[y].level == top_level(tree));
        assert forall|i: int|
            0 <= i < s.nodes.len() && (#[trigger] s.nodes[i]).namespace == ns && s.nodes[i].tree_kind == kind
                && s.nodes[i].tree_key == key implies s.nodes[i].level <= top_level(tree) by {
            assert(tree.contains(s.nodes[i]));
            let w = choose|w: int| 0 <= w < tree.len() && tree[w] == s.nodes[i];
            assert(tree[w].level <= top_level(tree));
        }
    }
}

/// Law: the children of a node are the nodes that are linked to it, in the order of their numbers.
pub proof fn law_child_nodes(s: State, parent: Seq<char>, n: Node)
    ensures
        child_nodes(s, parent).contains(n) <==> s.nodes.contains(n) && s.links.contains(
            Link { parent_id: parent, child_id: n.node_id },
        ),
        forall|i: int, j: int|
            0 <= i < j < child_nodes(s, parent).len() ==> (#[trigger] child_nodes(s, parent)[i]).seq <= (
            #[trigger] child_nodes(s, parent)[j]).seq,
{
    let p = |n: Node| any_row(s.links, link_is(parent, n.node_id));
    lemma_rows_where_contains(s.nodes, p);
    lemma_sorted_nodes(rows_where(s.nodes, p));
    let l = Link { parent_id: parent, child_id: n.node_id };
    if p(n) {
        let k = choose|k: int| 0 <= k < s.links.len() && link_is(parent, n.node_id)(#[trigger] s.links[k]);
        assert(s.links[k] == l);
    }
    if s.links.contains(l) {
        let k = choose|k: int| 0 <= k < s.links.len() && s.links[k] == l;
        assert(link_is(parent, n.node_id)(s.links[k]));
    }
}

/// Law: a node that is added says what it was told to say, and stands behind every node of its level.
pub proof fn law_node_added(nodes: Seq<Node>, n: NodeDraft, id: Seq<char>, now: u64)
    requires
        !node_refused(nodes, n, id),
    ensures
        ({
            let a = node_added(nodes, n, id, now);
            &&& a.node_id == id
            &&& a.namespace == n.namespace && a.tree_kind == n.tree_kind && a.tree_key == n.tree_key
            &&& a.level == n.level && a.sealed == n.sealed && a.label == n.label
            &&& a.body == n.body && a.doc_id == n.doc_id && a.token_count == n.token_count
            &&& a.embedding == n.embedding && a.signature == n.signature
            &&& a.created_at == now && a.sealed_at is None
            &&& forall|i: int|
                0 <= i < nodes.len() && (#[trigger] nodes[i]).namespace == n.namespace && nodes[i].tree_kind
                    == n.tree_kind && nodes[i].tree_key == n.tree_key && nodes[i].level == n.level
                    ==> nodes[i].seq < a.seq
        }),
{
    let q = at_level(n.namespace, n.tree_kind, n.tree_key, n.level);
    let sel = rows_where(nodes, q);
    lemma_rows_where_contains(nodes, q);
    lemma_below_max(sel);
    assert forall|i: int|
        0 <= i < nodes.len() && (#[trigger] nodes[i]).namespace == n.namespace && nodes[i].tree_kind == n.tree_kind
            && nodes[i].tree_key == n.tree_key && nodes[i].level == n.level implies nodes[i].seq < node_added(
        nodes,
        n,
        id,
        now,
    ).seq by {
        assert(sel.contains(nodes[i]));
        let k = choose|k: int| 0 <= k < sel.len() && sel[k] == nodes[i];
        assert(sel[k].seq <= max_seq(sel));
    }
}

proof fn lemma_below_max(s: Seq<Node>)
    ensures
        -1 <= max_seq(s),
        forall|i: int| 0 <= i < s.len() ==> (#[trigger] s[i]).seq <= max_seq(s),
    decreases s.len(),
{
    if s.len() > 0 {
        let head = s.drop_last();
        lemma_below_max(head);
        assert forall|i: int| 0 <= i < s.len() implies (#[trigger] s[i]).seq <= max_seq(s) by {
            if i < head.len() {
                assert(head[i] == s[i]);
            }
        }
    }
}

} // verus!
