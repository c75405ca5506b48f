//! Syntax trees, as lists of their nodes. The parsing is done by tree-sitter; a tree is then read
//! out node by node, parents before children, so that what is made of it works on plain data.

use crate::table::{lemma_rows_push, rows};
use crate::text::{opt_text, same};
use vstd::prelude::*;
use vstd::string::StringSliceAdditionalSpecFns;
use vstd::utf8::{decode_utf8, encode_utf8, encode_utf8_decode_utf8, is_char_boundary};

verus! {

/// The languages that have a grammar.
#[derive(Clone, Copy, Debug, PartialEq, Eq, Structural)]
pub enum Lang {
    Rust,
    Python,
    JavaScript,
    TypeScript,
    Tsx,
    Go,
    Java,
    Kotlin,
    C,
    Cpp,
}

/// One node of a syntax tree. Rows and bytes count from 0; `end_byte` is not part of the node.
#[derive(Debug)]
pub struct SyntaxNode {
    pub kind: String,
    /// The role of the node in its parent, if the grammar names it.
    pub field: Option<String>,
    pub named: bool,
    /// How many nodes stand above this one.
    pub depth: usize,
    pub start_row: usize,
    pub end_row: usize,
    pub start_byte: usize,
    pub end_byte: usize,
}

/// What a node holds.
#[verifier::ext_equal]
pub struct Syntax {
    pub kind: Seq<char>,
    pub field: Option<Seq<char>>,
    pub named: bool,
    pub depth: usize,
    pub start_row: usize,
    pub end_row: usize,
    pub start_byte: usize,
    pub end_byte: usize,
}

impl View for SyntaxNode {
    type V = Syntax;

    open spec fn view(&self) -> Syntax {
        Syntax {
            kind: self.kind@,
            field: opt_text(self.field),
            named: self.named,
            depth: self.depth,
            start_row: self.start_row,
            end_row: self.end_row,
            start_byte: self.start_byte,
            end_byte: self.end_byte,
        }
    }
}

/// A parsed file, as tree-sitter holds it.
#[verifier::external_type_specification]
#[verifier::external_body]
pub struct ExTree(tree_sitter::Tree);

/// The nodes of a tree, parents before children and siblings in the order of the text.
pub uninterp spec fn tree_nodes(tree: tree_sitter::Tree) -> Seq<Syntax>;

/// The nodes of the tree that parsing `content` as `lang` gives, if parsing gives one.
pub uninterp spec fn syntax_of(lang: Lang, content: Seq<char>) -> Option<Seq<Syntax>>;

/// `tree_sitter::Parser::parse` with the grammar of the language: the tree of the text, or none
/// where the parser gives up. What the tree holds is a function of language and text, named
/// [`syntax_of`].
#[verifier::external_body]
fn parse(lang: Lang, content: &str) -> (r: Option<tree_sitter::Tree>)
    ensures
        match r {
            Some(t) => syntax_of(lang, content@) == Some(tree_nodes(t)),
            None => syntax_of(lang, content@) is None,
        },
{
    let grammar = match lang {
        Lang::Rust => tree_sitter_rust::LANGUAGE,
        Lang::Python => tree_sitter_python::LANGUAGE,
        Lang::JavaScript => tree_sitter_javascript::LANGUAGE,
        Lang::TypeScript => tree_sitter_typescript::LANGUAGE_TYPESCRIPT,
        Lang::Tsx => tree_sitter_typescript::LANGUAGE_TSX,
        Lang::Go => tree_sitter_go::LANGUAGE,
        Lang::Java => tree_sitter_java::LANGUAGE,
        Lang::Kotlin => tree_sitter_kotlin_ng::LANGUAGE,
        Lang::C => tree_sitter_c::LANGUAGE,
        Lang::Cpp => tree_sitter_cpp::LANGUAGE,
    };
    let mut parser = tree_sitter::Parser::new();
    parser.set_language(&grammar.into()).ok().and_then(|_| parser.parse(content, None))
}

/// `tree_sitter::Node::descendant_count` of the root: how many nodes the tree has.
#[verifier::external_body]
fn node_count(tree: &tree_sitter::Tree) -> (n: usize)
    ensures
        n == tree_nodes(*tree).len(),
{
    tree.root_node().descendant_count()
}

/// `tree_sitter::TreeCursor::goto_descendant` and what the cursor and its node then tell: the
/// node with number `i`, counted parents before children.
#[verifier::external_body]
fn node_at(tree: &tree_sitter::Tree, i: usize) -> (r: SyntaxNode)
    requires
        i < tree_nodes(*tree).len(),
    ensures
        r@ == tree_nodes(*tree)[i as int],
{
    let mut cursor = tree.walk();
    cursor.goto_descendant(i);
    let node = cursor.node();
    SyntaxNode {
        kind: node.kind().to_string(),
        field: cursor.field_name().map(|f| f.to_string()),
        named: node.is_named(),
        depth: cursor.depth() as usize,
        start_row: node.start_position().row,
        end_row: node.end_position().row,
        start_byte: node.start_byte(),
        end_byte: node.end_byte(),
    }
}

/// Parses a text and reads out the nodes of its tree.
pub fn syntax(lang: Lang, content: &str) -> (r: Option<Vec<SyntaxNode>>)
    ensures
        match r {
            Some(v) => syntax_of(lang, content@) == Some(rows(v@)),
            None => syntax_of(lang, content@) is None,
        },
{
    let tree = match parse(lang, content) {
        Some(t) => t,
        None => {
            return None;
        },
    };
    let n: usize = node_count(&tree);
    let ghost all = tree_nodes(tree);
    let mut out: Vec<SyntaxNode> = Vec::new();
    assert(rows(out@) =~= all.take(0));
    for i in 0..n
        invariant
            all == tree_nodes(tree),
            n == all.len(),
            rows(out@) == all.take(i as int),
    {
        let ghost out0 = out@;
        let node = node_at(&tree, i);
        out.push(node);
        proof {
            lemma_rows_push(out0, node);
            assert(all.take(i + 1) =~= all.take(i as int).push(all[i as int]));
        }
    }
    assert(all.take(n as int) =~= all);
    Some(out)
}

// ---------------------------------------------------------------------------------------------
// Reading a tree.
// ---------------------------------------------------------------------------------------------

/// The children of node `i` among the nodes from `j` on.
pub open spec fn children_from(nodes: Seq<Syntax>, i: int, j: int) -> Seq<int>
    decreases nodes.len() - j,
{
    if j >= nodes.len() || nodes[j].depth <= nodes[i].depth {
        Seq::empty()
    } else if nodes[j].depth == nodes[i].depth + 1 {
        seq![j] + children_from(nodes, i, j + 1)
    } else {
        children_from(nodes, i, j + 1)
    }
}

/// The children of node `i`: the nodes one level below it, up to the next node that is not
/// below it.
pub open spec fn children(nodes: Seq<Syntax>, i: int) -> Seq<int> {
    children_from(nodes, i, i + 1)
}

/// The named ones among a list of nodes.
pub open spec fn named_among(nodes: Seq<Syntax>, kids: Seq<int>) -> Seq<int>
    decreases kids.len(),
{
    if kids.len() == 0 {
        Seq::empty()
    } else if nodes[kids.last()].named {
        named_among(nodes, kids.drop_last()).push(kids.last())
    } else {
        named_among(nodes, kids.drop_last())
    }
}

/// The named children of node `i`.
pub open spec fn named_children(nodes: Seq<Syntax>, i: int) -> Seq<int> {
    named_among(nodes, children(nodes, i))
}

/// The first of a list of nodes that has the given role.
pub open spec fn first_in_role(nodes: Seq<Syntax>, kids: Seq<int>, field: Seq<char>) -> Option<int>
    decreases kids.len(),
{
    if kids.len() == 0 {
        None
    } else if nodes[kids[0]].field == Some(field) {
        Some(kids[0])
    } else {
        first_in_role(nodes, kids.skip(1), field)
    }
}

/// The first child of node `i` that has the given role.
pub open spec fn child_in_role(nodes: Seq<Syntax>, i: int, field: Seq<char>) -> Option<int> {
    first_in_role(nodes, children(nodes, i), field)
}

/// The text between two byte offsets, if both fall between characters.
pub open spec fn byte_text(content: Seq<char>, a: int, b: int) -> Option<Seq<char>> {
    let bytes = encode_utf8(content);
    if is_char_boundary(bytes, b) && is_char_boundary(bytes.subrange(0, b), a) {
        Some(decode_utf8(bytes.subrange(a, b)))
    } else {
        None
    }
}

/// The text of a node.
pub open spec fn node_text(content: Seq<char>, n: Syntax) -> Option<Seq<char>> {
    byte_text(content, n.start_byte as int, n.end_byte as int)
}

/// The nodes that a walk from `stack` visits, in order: the last node of the stack is visited
/// and its named children take its place. At most `fuel` nodes are visited.
pub open spec fn walk(nodes: Seq<Syntax>, stack: Seq<int>, fuel: nat) -> Seq<int>
    decreases fuel,
{
    if stack.len() == 0 || fuel == 0 {
        Seq::empty()
    } else {
        seq![stack.last()] + walk(
            nodes,
            stack.drop_last() + named_children(nodes, stack.last()),
            (fuel - 1) as nat,
        )
    }
}

/// All nodes that are reached from the root by named nodes, in the order of the walk: parents
/// first, later siblings before earlier ones.
pub open spec fn walk_all(nodes: Seq<Syntax>) -> Seq<int> {
    if nodes.len() == 0 {
        Seq::empty()
    } else {
        walk(nodes, seq![0int], nodes.len())
    }
}

/// Node numbers as integers.
pub open spec fn numbers(v: Seq<usize>) -> Seq<int> {
    v.map_values(|i: usize| i as int)
}

proof fn lemma_numbers_push(v: Seq<usize>, i: usize)
    ensures
        numbers(v.push(i)) == numbers(v).push(i as int),
{
    assert(numbers(v.push(i)) =~= numbers(v).push(i as int));
}

/// The children of node `i`.
pub fn children_of(nodes: &Vec<SyntaxNode>, i: usize) -> (r: Vec<usize>)
    requires
        i < nodes@.len(),
    ensures
        numbers(r@) == children(rows(nodes@), i as int),
        forall|k: int| 0 <= k < r@.len() ==> i < #[trigger] r@[k] < nodes@.len(),
{
    let ghost all = rows(nodes@);
    let mut out: Vec<usize> = Vec::new();
    let total: usize = nodes.len();
    let mut j: usize = i + 1;
    let base: usize = nodes[i].depth;
    assert(numbers(out@) + children_from(all, i as int, j as int) =~= children(all, i as int));
    while j < nodes.len() && nodes[j].depth > base
        invariant
            all == rows(nodes@),
            i < nodes@.len(),
            i < j <= nodes@.len(),
            base == all[i as int].depth,
            forall|k: int| 0 <= k < out@.len() ==> i < #[trigger] out@[k] < nodes@.len(),
            numbers(out@) + children_from(all, i as int, j as int) == children(all, i as int),
        decreases nodes@.len() - j,
    {
        let ghost rest = children_from(all, i as int, j + 1);
        assert(all[j as int].depth == nodes@[j as int].depth);
        if nodes[j].depth - base == 1 {
            let ghost out0 = out@;
            out.push(j);
            proof {
                lemma_numbers_push(out0, j);
                assert(numbers(out@) + rest =~= numbers(out0) + (seq![j as int] + rest));
            }
        }
        j += 1;
    }
    assert(numbers(out@) + children_from(all, i as int, j as int) =~= numbers(out@));
    out
}

/// The named children of node `i`.
pub fn named_children_of(nodes: &Vec<SyntaxNode>, i: usize) -> (r: Vec<usize>)
    requires
        i < nodes@.len(),
    ensures
        numbers(r@) == named_children(rows(nodes@), i as int),
        forall|k: int| 0 <= k < r@.len() ==> i < #[trigger] r@[k] < nodes@.len(),
{
    let kids = children_of(nodes, i);
    let ghost all = rows(nodes@);
    let ghost ks = numbers(kids@);
    let mut out: Vec<usize> = Vec::new();
    assert(ks.take(0) =~= Seq::<int>::empty());
    assert(numbers(out@) =~= Seq::<int>::empty());
    for k in 0..kids.len()
        invariant
            all == rows(nodes@),
            ks == numbers(kids@),
            forall|m: int| 0 <= m < kids@.len() ==> i < #[trigger] kids@[m] < nodes@.len(),
            forall|m: int| 0 <= m < out@.len() ==> i < #[trigger] out@[m] < nodes@.len(),
            numbers(out@) == named_among(all, ks.take(k as int)),
    {
        let c: usize = kids[k];
        assert(ks.take(k + 1).drop_last() =~= ks.take(k as int));
        assert(ks.take(k + 1).last() == c as int);
        assert(all[c as int].named == nodes@[c as int].named);
        if nodes[c].named {
            let ghost out0 = out@;
            out.push(c);
            proof {
                lemma_numbers_push(out0, c);
            }
        }
    }
    assert(ks.take(ks.len() as int) =~= ks);
    out
}

/// The first child of node `i` that has the given role.
pub fn child_by_field(nodes: &Vec<SyntaxNode>, i: usize, field: &str) -> (r: Option<usize>)
    requires
        i < nodes@.len(),
    ensures
        match r {
            Some(c) => child_in_role(rows(nodes@), i as int, field@) == Some(c as int) && i < c
                < nodes@.len(),
            None => child_in_role(rows(nodes@), i as int, field@) is None,
        },
{
    let kids = children_of(nodes, i);
    let ghost all = rows(nodes@);
    let ghost ks = numbers(kids@);
    assert(ks.skip(0) =~= ks);
    for k in 0..kids.len()
        invariant
            all == rows(nodes@),
            ks == numbers(kids@),
            ks == children(all, i as int),
            forall|m: int| 0 <= m < kids@.len() ==> i < #[trigger] kids@[m] < nodes@.len(),
            first_in_role(all, ks.skip(k as int), field@) == child_in_role(all, i as int, field@),
    {
        let c: usize = kids[k];
        assert(ks.skip(k as int)[0] == c as int);
        assert(ks.skip(k as int).skip(1) =~= ks.skip(k + 1));
        assert(all[c as int] == nodes@[c as int]@);
        match &nodes[c].field {
            Some(f) => {
                if same(f.as_str(), field) {
                    return Some(c);
                }
            },
            None => {},
        }
    }
    None
}

/// The text of a node.
pub fn text_of(content: &str, n: &SyntaxNode) -> (r: Option<String>)
    ensures
        opt_text(r) == node_text(content@, n@),
{
    let a: usize = n.start_byte;
    let b: usize = n.end_byte;
    if !content.is_char_boundary(b) {
        return None;
    }
    let (head, _rest) = content.split_at(b);
    if !head.is_char_boundary(a) {
        return None;
    }
    let (_front, t) = head.split_at(a);
    proof {
        let bytes = encode_utf8(content@);
        vstd::utf8::encode_utf8_valid_utf8(content@);
        vstd::utf8::encode_utf8_valid_utf8(head@);
        assert(head.spec_bytes() == bytes.subrange(0, b as int));
        assert(t.spec_bytes() == head.spec_bytes().subrange(
            a as int,
            head.spec_bytes().len() as int,
        ));
        encode_utf8_decode_utf8(t@);
        lemma_boundary_in_range(bytes, b as int);
        lemma_boundary_in_range(head.spec_bytes(), a as int);
        assert(t.spec_bytes() =~= bytes.subrange(a as int, b as int));
    }
    Some(t.to_owned())
}

proof fn lemma_boundary_in_range(bytes: Seq<u8>, i: int)
    requires
        vstd::utf8::valid_utf8(bytes),
        is_char_boundary(bytes, i),
    ensures
        0 <= i <= bytes.len(),
{
}

/// All nodes that are reached from the root by named nodes: parents first, later siblings
/// before earlier ones.
pub fn walk_nodes(nodes: &Vec<SyntaxNode>) -> (r: Vec<usize>)
    ensures
        numbers(r@) == walk_all(rows(nodes@)),
        forall|k: int| 0 <= k < r@.len() ==> #[trigger] r@[k] < nodes@.len(),
{
    let ghost all = rows(nodes@);
    let mut out: Vec<usize> = Vec::new();
    if nodes.len() == 0 {
        assert(numbers(out@) =~= walk_all(all));
        return out;
    }
    let mut stack: Vec<usize> = Vec::new();
    stack.push(0);
    let mut fuel: usize = nodes.len();
    assert(numbers(stack@) =~= seq![0int]);
    assert(numbers(out@) + walk(all, numbers(stack@), fuel as nat) =~= walk_all(all));
    while stack.len() > 0 && fuel > 0
        invariant
            all == rows(nodes@),
            forall|k: int| 0 <= k < out@.len() ==> #[trigger] out@[k] < nodes@.len(),
            forall|k: int| 0 <= k < stack@.len() ==> #[trigger] stack@[k] < nodes@.len(),
            numbers(out@) + walk(all, numbers(stack@), fuel as nat) == walk_all(all),
        decreases fuel,
    {
        let ghost stack0 = stack@;
        let ghost out0 = out@;
        let top: usize = stack.len() - 1;
        let i: usize = stack[top];
        stack.truncate(top);
        let mut kids = named_children_of(nodes, i);
        let ghost kids0 = kids@;
        let ghost rest = stack@;
        stack.append(&mut kids);
        out.push(i);
        fuel -= 1;
        proof {
            assert(numbers(stack0).last() == i as int);
            assert(numbers(rest) =~= numbers(stack0).drop_last());
            assert(numbers(stack@) =~= numbers(rest) + numbers(kids0));
            lemma_numbers_push(out0, i);
            let tail = walk(all, numbers(stack@), fuel as nat);
            assert(numbers(out@) + tail =~= numbers(out0) + (seq![i as int] + tail));
            assert forall|k: int| 0 <= k < stack@.len() implies #[trigger] stack@[k]
                < nodes@.len() by {
                if k >= rest.len() {
                    assert(stack@[k] == kids0[k - rest.len()]);
                } else {
                    assert(stack@[k] == stack0[k]);
                }
            }
        }
    }
    assert(numbers(out@) + walk(all, numbers(stack@), fuel as nat) =~= numbers(out@));
    out
}

// ---------------------------------------------------------------------------------------------
// What holds of every tree.
// ---------------------------------------------------------------------------------------------

/// Whether node `j` is a child of node `i`: it stands one level below it, and so do all nodes
/// between the two, or deeper.
pub open spec fn is_child(nodes: Seq<Syntax>, i: int, j: int) -> bool {
    &&& 0 <= i < j < nodes.len()
    &&& nodes[j].depth == nodes[i].depth + 1
    &&& forall|m: int| i < m < j ==> (#[trigger] nodes[m]).depth > nodes[i].depth
}

/// Whether node `c` is the child of node `i` in a role: the first one that has it.
pub open spec fn is_child_as(nodes: Seq<Syntax>, i: int, c: int, role: Seq<char>) -> bool {
    &&& is_child(nodes, i, c)
    &&& nodes[c].field == Some(role)
    &&& forall|j: int| #[trigger] is_child(nodes, i, j) && j < c ==> nodes[j].field != Some(role)
}

proof fn lemma_children_from(nodes: Seq<Syntax>, i: int, from: int)
    requires
        0 <= i < from <= nodes.len(),
    ensures
        forall|j: int| #[trigger]
            children_from(nodes, i, from).contains(j) <==> {
                &&& from <= j < nodes.len()
                &&& nodes[j].depth == nodes[i].depth + 1
                &&& forall|m: int| from <= m < j ==> (#[trigger] nodes[m]).depth > nodes[i].depth
            },
        forall|a: int, b: int|
            0 <= a < b < children_from(nodes, i, from).len() ==> #[trigger] children_from(
                nodes,
                i,
                from,
            )[a] < #[trigger] children_from(nodes, i, from)[b],
    decreases nodes.len() - from,
{
    let all = children_from(nodes, i, from);
    if from >= nodes.len() || nodes[from].depth <= nodes[i].depth {
    } else {
        lemma_children_from(nodes, i, from + 1);
        let rest = children_from(nodes, i, from + 1);
        let first = nodes[from].depth == nodes[i].depth + 1;
        assert forall|j: int| #[trigger] all.contains(j) <==> {
            &&& from <= j < nodes.len()
            &&& nodes[j].depth == nodes[i].depth + 1
            &&& forall|m: int| from <= m < j ==> (#[trigger] nodes[m]).depth > nodes[i].depth
        } by {
            assert(all.contains(j) <==> rest.contains(j) || (first && j == from)) by {
                if first {
                    if all.contains(j) {
                        let k = choose|k: int| 0 <= k < all.len() && all[k] == j;
                        if k > 0 {
                            assert(rest[k - 1] == j);
                        }
                    }
                    if rest.contains(j) {
                        let k = choose|k: int| 0 <= k < rest.len() && rest[k] == j;
                        assert(all[k + 1] == j);
                    }
                    assert(all[0] == from);
                }
            }
        }
        assert forall|a: int, b: int| 0 <= a < b < all.len() implies #[trigger] all[a] < #[trigger] all[b] by {
            if first {
                assert(rest.contains(rest[b - 1]));
                assert(all[b] == rest[b - 1]);
                if a > 0 {
                    assert(all[a] == rest[a - 1]);
                }
            }
        }
    }
}

/// Law: the children of a node are the nodes one level below it that come before the next node that
/// is not below it, in the order of the tree; its named children are those of them that are named.
pub proof fn law_children(nodes: Seq<Syntax>, i: int)
    requires
        0 <= i < nodes.len(),
    ensures
        forall|j: int| #[trigger] children(nodes, i).contains(j) <==> is_child(nodes, i, j),
        forall|j: int| #[trigger]
            named_children(nodes, i).contains(j) <==> is_child(nodes, i, j) && nodes[j].named,
        forall|a: int, b: int|
            0 <= a < b < children(nodes, i).len() ==> #[trigger] children(nodes, i)[a]
                < #[trigger] children(nodes, i)[b],
{
    lemma_children_from(nodes, i, i + 1);
    lemma_named_among(nodes, children(nodes, i));
}

proof fn lemma_named_among(nodes: Seq<Syntax>, kids: Seq<int>)
    ensures
        forall|j: int| #[trigger]
            named_among(nodes, kids).contains(j) <==> kids.contains(j) && nodes[j].named,
    decreases kids.len(),
{
    if kids.len() > 0 {
        let head = kids.drop_last();
        lemma_named_among(nodes, head);
        let before = named_among(nodes, head);
        let after = named_among(nodes, kids);
        assert forall|j: int| #[trigger] after.contains(j) <==> kids.contains(j) && nodes[j].named by {
            assert(kids.contains(j) <==> head.contains(j) || j == kids.last()) by {
                if kids.contains(j) {
                    let k = choose|k: int| 0 <= k < kids.len() && kids[k] == j;
                    if k < head.len() {
                        assert(head[k] == j);
                    }
                }
                if head.contains(j) {
                    let k = choose|k: int| 0 <= k < head.len() && head[k] == j;
                    assert(kids[k] == j);
                }
                assert(kids[kids.len() - 1] == kids.last());
            }
            if nodes[kids.last()].named {
                if after.contains(j) {
                    let k = choose|k: int| 0 <= k < after.len() && after[k] == j;
                    if k < before.len() {
                        assert(before[k] == j);
                    }
                }
                if before.contains(j) {
                    let k = choose|k: int| 0 <= k < before.len() && before[k] == j;
                    assert(after[k] == j);
                }
                assert(after[before.len() as int] == kids.last());
            }
        }
    }
}

proof fn lemma_first_in_role(nodes: Seq<Syntax>, kids: Seq<int>, role: Seq<char>)
    ensures
        match first_in_role(nodes, kids, role) {
            Some(c) => exists|k: int|
                0 <= k < kids.len() && #[trigger] kids[k] == c && nodes[c].field == Some(role)
                    && forall|a: int| 0 <= a < k ==> nodes[#[trigger] kids[a]].field != Some(role),
            None => forall|k: int| 0 <= k < kids.len() ==> nodes[#[trigger] kids[k]].field != Some(role),
        },
    decreases kids.len(),
{
    if kids.len() > 0 {
        if nodes[kids[0]].field == Some(role) {
            assert(kids[0] == first_in_role(nodes, kids, role)->0);
        } else {
            let rest = kids.skip(1);
            lemma_first_in_role(nodes, rest, role);
            match first_in_role(nodes, kids, role) {
                Some(c) => {
                    let k = choose|k: int|
                        0 <= k < rest.len() && #[trigger] rest[k] == c && nodes[c].field == Some(role)
                            && forall|a: int| 0 <= a < k ==> nodes[#[trigger] rest[a]].field != Some(role);
                    assert(kids[k + 1] == c);
                    assert forall|a: int| 0 <= a < k + 1 implies nodes[#[trigger] kids[a]].field != Some(role) by {
                        if a > 0 {
                            assert(rest[a - 1] == kids[a]);
                        }
                    }
                },
                None => {
                    assert forall|k: int| 0 <= k < kids.len() implies nodes[#[trigger] kids[k]].field != Some(
                        role,
                    ) by {
                        if k > 0 {
                            assert(rest[k - 1] == kids[k]);
                        }
                    }
                },
            }
        }
    }
}

/// Law: the child in a role is the first of the node's children that has it.
pub proof fn law_child_in_role(nodes: Seq<Syntax>, i: int, role: Seq<char>)
    requires
        0 <= i < nodes.len(),
    ensures
        forall|c: int|
            child_in_role(nodes, i, role) == Some(c) <==> #[trigger] is_child_as(nodes, i, c, role),
        child_in_role(nodes, i, role) is Some ==> is_child_as(
            nodes,
            i,
            child_in_role(nodes, i, role)->0,
            role,
        ),
{
    let kids = children(nodes, i);
    law_children(nodes, i);
    lemma_first_in_role(nodes, kids, role);
    assert forall|c: int|
        child_in_role(nodes, i, role) == Some(c) <==> #[trigger] is_child_as(nodes, i, c, role) by {
        if is_child_as(nodes, i, c, role) {
            assert(kids.contains(c));
            let m = choose|m: int| 0 <= m < kids.len() && kids[m] == c;
            assert(child_in_role(nodes, i, role) is Some);
            let d = child_in_role(nodes, i, role)->0;
            let k = choose|k: int|
                0 <= k < kids.len() && #[trigger] kids[k] == d && nodes[d].field == Some(role)
                    && forall|a: int| 0 <= a < k ==> nodes[#[trigger] kids[a]].field != Some(role);
            assert(kids.contains(kids[k]));
            assert(is_child(nodes, i, d));
            if k < m {
                assert(kids[k] < kids[m]);
            }
        }
        if child_in_role(nodes, i, role) == Some(c) {
            let k = choose|k: int|
                0 <= k < kids.len() && #[trigger] kids[k] == c && nodes[c].field == Some(role)
                    && forall|a: int| 0 <= a < k ==> nodes[#[trigger] kids[a]].field != Some(role);
            assert(kids.contains(kids[k]));
            assert forall|j: int| #[trigger] is_child(nodes, i, j) && j < c implies nodes[j].field != Some(
                role,
            ) by {
                assert(kids.contains(j));
                let m = choose|m: int| 0 <= m < kids.len() && kids[m] == j;
                if k < m {
                    assert(kids[k] < kids[m]);
                }
            }
        }
    }
}

/// The first node from `j` on that is not below node `i`, or the number of nodes.
spec fn subtree_end(nodes: Seq<Syntax>, i: int, j: int) -> int
    decreases nodes.len() - j,
{
    if j >= nodes.len() || nodes[j].depth <= nodes[i].depth {
        j
    } else {
        subtree_end(nodes, i, j + 1)
    }
}

/// How many nodes the subtrees of some nodes hold.
spec fn subtree_sizes(nodes: Seq<Syntax>, kids: Seq<int>) -> int
    decreases kids.len(),
{
    if kids.len() == 0 {
        0
    } else {
        subtree_sizes(nodes, kids.drop_last()) + subtree_end(nodes, kids.last(), kids.last() + 1) - kids.last()
    }
}

proof fn lemma_subtree_end(nodes: Seq<Syntax>, i: int, j: int)
    requires
        0 <= i < j <= nodes.len(),
    ensures
        j <= subtree_end(nodes, i, j) <= nodes.len(),
        forall|m: int| j <= m < subtree_end(nodes, i, j) ==> (#[trigger] nodes[m]).depth > nodes[i].depth,
        subtree_end(nodes, i, j) < nodes.len() ==> nodes[subtree_end(nodes, i, j)].depth
            <= nodes[i].depth,
    decreases nodes.len() - j,
{
    if j < nodes.len() && nodes[j].depth > nodes[i].depth {
        lemma_subtree_end(nodes, i, j + 1);
    }
}

proof fn lemma_end_skips(nodes: Seq<Syntax>, i: int, j: int, e: int)
    requires
        0 <= i < j <= e <= nodes.len(),
        forall|m: int| j <= m < e ==> (#[trigger] nodes[m]).depth > nodes[i].depth,
    ensures
        subtree_end(nodes, i, j) == subtree_end(nodes, i, e),
    decreases e - j,
{
    if j < e {
        assert(nodes[j].depth > nodes[i].depth);
        lemma_end_skips(nodes, i, j + 1, e);
    }
}

proof fn lemma_children_skip(nodes: Seq<Syntax>, i: int, j: int, e: int)
    requires
        0 <= i < j <= e <= nodes.len(),
        forall|m: int| j <= m < e ==> (#[trigger] nodes[m]).depth > nodes[i].depth + 1,
    ensures
        children_from(nodes, i, j) == children_from(nodes, i, e),
    decreases e - j,
{
    if j < e {
        assert(nodes[j].depth > nodes[i].depth + 1);
        lemma_children_skip(nodes, i, j + 1, e);
    }
}

proof fn lemma_sizes_add(nodes: Seq<Syntax>, a: Seq<int>, b: Seq<int>)
    ensures
        subtree_sizes(nodes, a + b) == subtree_sizes(nodes, a) + subtree_sizes(nodes, b),
    decreases b.len(),
{
    if b.len() == 0 {
        assert(a + b =~= a);
    } else {
        assert((a + b).drop_last() =~= a + b.drop_last());
        lemma_sizes_add(nodes, a, b.drop_last());
    }
}

proof fn lemma_children_sizes(nodes: Seq<Syntax>, i: int, j: int)
    requires
        0 <= i < j <= nodes.len(),
    ensures
        subtree_sizes(nodes, children_from(nodes, i, j)) <= subtree_end(nodes, i, j) - j,
    decreases nodes.len() - j,
{
    lemma_subtree_end(nodes, i, j);
    if j >= nodes.len() || nodes[j].depth <= nodes[i].depth {
    } else if nodes[j].depth == nodes[i].depth + 1 {
        lemma_subtree_end(nodes, j, j + 1);
        let e = subtree_end(nodes, j, j + 1);
        lemma_children_skip(nodes, i, j + 1, e);
        lemma_children_sizes(nodes, i, e);
        assert forall|m: int| j <= m < e implies (#[trigger] nodes[m]).depth > nodes[i].depth by {}
        lemma_end_skips(nodes, i, j, e);
        let rest = children_from(nodes, i, e);
        lemma_sizes_add(nodes, seq![j], rest);
        assert(seq![j].drop_last() =~= Seq::empty());
        assert(subtree_sizes(nodes, Seq::empty()) == 0);
        assert(subtree_sizes(nodes, seq![j]) == e - j);
    } else {
        lemma_children_sizes(nodes, i, j + 1);
    }
}

proof fn lemma_named_sizes(nodes: Seq<Syntax>, kids: Seq<int>)
    requires
        forall|k: int| 0 <= k < kids.len() ==> 0 <= #[trigger] kids[k] < nodes.len(),
    ensures
        kids.len() <= subtree_sizes(nodes, kids),
        subtree_sizes(nodes, named_among(nodes, kids)) <= subtree_sizes(nodes, kids),
    decreases kids.len(),
{
    if kids.len() > 0 {
        let head = kids.drop_last();
        assert forall|k: int| 0 <= k < head.len() implies 0 <= #[trigger] head[k] < nodes.len() by {
            assert(head[k] == kids[k]);
        }
        lemma_named_sizes(nodes, head);
        let last = kids.last();
        assert(0 <= kids[kids.len() - 1] < nodes.len());
        lemma_subtree_end(nodes, last, last + 1);
        let before = named_among(nodes, head);
        assert(before.push(last).drop_last() =~= before);
    }
}

/// Whether a list of nodes holds every named child of each of its nodes.
pub open spec fn holds_named_children(nodes: Seq<Syntax>, visited: Seq<int>) -> bool {
    forall|i: int, j: int|
        visited.contains(i) && #[trigger] is_child(nodes, i, j) && nodes[j].named ==> visited.contains(j)
}

proof fn lemma_walk(nodes: Seq<Syntax>, stack: Seq<int>, fuel: nat)
    requires
        subtree_sizes(nodes, stack) <= fuel,
        forall|k: int| 0 <= k < stack.len() ==> 0 <= #[trigger] stack[k] < nodes.len(),
    ensures
        forall|k: int| 0 <= k < stack.len() ==> walk(nodes, stack, fuel).contains(#[trigger] stack[k]),
        holds_named_children(nodes, walk(nodes, stack, fuel)),
        forall|j: int| #[trigger]
            walk(nodes, stack, fuel).contains(j) ==> 0 <= j < nodes.len() && (stack.contains(j) || (
            nodes[j].named && exists|i: int| #[trigger]
                walk(nodes, stack, fuel).contains(i) && is_child(nodes, i, j))),
    decreases fuel,
{
    lemma_named_sizes(nodes, stack);
    let r = walk(nodes, stack, fuel);
    if stack.len() > 0 && fuel > 0 {
        let last = stack.last();
        let rest = stack.drop_last();
        let kids = named_children(nodes, last);
        let next = rest + kids;
        assert(0 <= stack[stack.len() - 1] < nodes.len());
        law_children(nodes, last);
        lemma_children_from(nodes, last, last + 1);
        lemma_children_sizes(nodes, last, last + 1);
        assert forall|k: int| 0 <= k < children(nodes, last).len() implies 0 <= #[trigger] children(
            nodes,
            last,
        )[k] < nodes.len() by {
            assert(children(nodes, last).contains(children(nodes, last)[k]));
        }
        lemma_named_sizes(nodes, children(nodes, last));
        lemma_sizes_add(nodes, rest, kids);
        assert forall|k: int| 0 <= k < next.len() implies 0 <= #[trigger] next[k] < nodes.len() by {
            if k < rest.len() {
                assert(next[k] == stack[k]);
            } else {
                assert(next[k] == kids[k - rest.len()]);
                assert(kids.contains(kids[k - rest.len()]));
            }
        }
        lemma_walk(nodes, next, (fuel - 1) as nat);
        let tail = walk(nodes, next, (fuel - 1) as nat);
        assert(r == seq![last] + tail);
        assert(r[0] == last);
        assert forall|j: int| tail.contains(j) implies r.contains(j) by {
            let k = choose|k: int| 0 <= k < tail.len() && tail[k] == j;
            assert(r[k + 1] == j);
        }
        assert forall|j: int| r.contains(j) implies j == last || tail.contains(j) by {
            let k = choose|k: int| 0 <= k < r.len() && r[k] == j;
            if k > 0 {
                assert(tail[k - 1] == j);
            }
        }
        assert forall|k: int| 0 <= k < stack.len() implies r.contains(#[trigger] stack[k]) by {
            if k < rest.len() {
                assert(next[k] == stack[k]);
                assert(tail.contains(next[k]));
            }
        }
        assert forall|i: int, j: int|
            r.contains(i) && #[trigger] is_child(nodes, i, j) && nodes[j].named implies r.contains(j) by {
            if tail.contains(i) {
                assert(tail.contains(j));
            } else {
                assert(kids.contains(j));
                let k = choose|k: int| 0 <= k < kids.len() && kids[k] == j;
                assert(next[rest.len() + k] == j);
                assert(tail.contains(next[rest.len() + k]));
            }
        }
        assert forall|j: int| #[trigger] r.contains(j) implies 0 <= j < nodes.len() && (stack.contains(j) || (
        nodes[j].named && exists|i: int| #[trigger] r.contains(i) && is_child(nodes, i, j))) by {
            if j == last {
                assert(stack[stack.len() - 1] == j);
            } else if next.contains(j) {
                let k = choose|k: int| 0 <= k < next.len() && next[k] == j;
                if k < rest.len() {
                    assert(stack[k] == j);
                } else {
                    assert(kids[k - rest.len()] == j);
                    assert(kids.contains(j));
                    assert(r.contains(last));
                }
            } else {
                let i = choose|i: int| #[trigger] tail.contains(i) && is_child(nodes, i, j);
                assert(r.contains(i));
            }
        }
    }
}

/// Law: the walk over a tree visits the root and every named child of each node that it visits, and
/// nothing else.
pub proof fn law_walk(nodes: Seq<Syntax>)
    requires
        nodes.len() > 0,
    ensures
        walk_all(nodes).contains(0),
        holds_named_children(nodes, walk_all(nodes)),
        forall|j: int| #[trigger]
            walk_all(nodes).contains(j) ==> 0 <= j < nodes.len() && (j == 0 || (nodes[j].named && exists|
                i: int,
            | #[trigger]
                walk_all(nodes).contains(i) && is_child(nodes, i, j))),
{
    let stack = seq![0int];
    lemma_subtree_end(nodes, 0, 1);
    assert(stack.drop_last() =~= Seq::empty());
    assert(subtree_sizes(nodes, Seq::empty()) == 0);
    lemma_walk(nodes, stack, nodes.len());
    assert(walk_all(nodes).contains(stack[0]));
}

} // verus!
