//! The edges of the code graph, read out of syntax trees: which symbols a file calls, which
//! types it uses, and what it imports. Rust, C and C++ are covered.

use crate::model::{distinct_edges, edge_kind_text, law_edge_kind_round_trip, Edge, EdgeKind, RawEdge};
use crate::syntax::{
    child_by_field, child_in_role, is_child, is_child_as, law_child_in_role, law_children, law_walk,
    named_children, named_children_of, node_text, numbers, syntax, syntax_of, text_of, walk_all, walk_nodes,
    Syntax, SyntaxNode,
};
use crate::table::{in_order, is_order, law_sorted_rows, lemma_rows_push, rows, sort, sorted_rows, Row};
use crate::text::{
    any_same, before_last, cat2, chars_of, last_segment, last_segment_text, lemma_sorted_set,
    lemma_text_less_irreflexive, lemma_text_less_total, lemma_text_less_transitive, lemma_texts_push, less,
    opt_text, same, sorted_set, sorted_set_text, split_last, string_from, text_less, texts, trim, trim_text,
};
use crate::treesit::{declarator_name, declared_name, Lang};
use vstd::prelude::*;

verus! {

/// The confidence of an edge to a name, in hundredths: the name is defined in the file, or it
/// is imported by it, or neither.
pub open spec fn confidence_of(name: Seq<char>, file_syms: Seq<Seq<char>>, imports: Seq<Seq<char>>) -> u32 {
    if file_syms.contains(name) {
        100
    } else if imports.contains(name) {
        60
    } else {
        30
    }
}

/// The confidence of an edge to a name, in hundredths.
pub fn confidence(name: &str, file_syms: &Vec<String>, import_names: &Vec<String>) -> (r: u32)
    ensures
        r == confidence_of(name@, texts(file_syms@), texts(import_names@)),
{
    if any_same(file_syms, name) {
        100
    } else if any_same(import_names, name) {
        60
    } else {
        30
    }
}

/// A line number counted from 1, as far as numbers go.
pub open spec fn line_of(row: usize) -> u64 {
    if row < u64::MAX {
        (row + 1) as u64
    } else {
        u64::MAX
    }
}

fn line_number(row: usize) -> (r: u64)
    ensures
        r == line_of(row),
{
    let wide: u64 = row as u64;
    if wide < u64::MAX {
        wide + 1
    } else {
        wide
    }
}

pub open spec fn nonempty(t: Option<Seq<char>>) -> Option<Seq<char>> {
    match t {
        Some(s) => if s.len() > 0 {
            Some(s)
        } else {
            None
        },
        None => None,
    }
}

fn keep_nonempty(t: Option<String>) -> (r: Option<String>)
    ensures
        opt_text(r) == nonempty(opt_text(t)),
{
    match t {
        Some(s) => if s.as_str().is_empty() {
            None
        } else {
            Some(s)
        },
        None => None,
    }
}

/// The text of the child of node `i` in a role, unless it is empty.
pub open spec fn role_text(content: Seq<char>, nodes: Seq<Syntax>, i: int, field: Seq<char>) -> Option<
    Seq<char>,
> {
    match child_in_role(nodes, i, field) {
        Some(c) => nonempty(node_text(content, nodes[c])),
        None => None,
    }
}

fn text_in_role(content: &str, nodes: &Vec<SyntaxNode>, i: usize, field: &str) -> (r: Option<String>)
    requires
        i < nodes@.len(),
    ensures
        opt_text(r) == role_text(content@, rows(nodes@), i as int, field@),
{
    match child_by_field(nodes, i, field) {
        Some(c) => {
            assert(rows(nodes@)[c as int] == nodes@[c as int]@);
            keep_nonempty(text_of(content, &nodes[c]))
        },
        None => None,
    }
}

// ---------------------------------------------------------------------------------------------
// What is called.
// ---------------------------------------------------------------------------------------------

/// The name of what node `i` calls, in Rust.
pub open spec fn rust_callee(content: Seq<char>, nodes: Seq<Syntax>, i: int) -> Option<Seq<char>>
    decreases nodes.len() - i,
{
    if i < 0 || i >= nodes.len() {
        None
    } else if nodes[i].kind == "identifier"@ {
        nonempty(node_text(content, nodes[i]))
    } else if nodes[i].kind == "scoped_identifier"@ {
        role_text(content, nodes, i, "name"@)
    } else if nodes[i].kind == "field_expression"@ {
        role_text(content, nodes, i, "field"@)
    } else if nodes[i].kind == "generic_function"@ {
        match child_in_role(nodes, i, "function"@) {
            Some(c) => if i < c < nodes.len() {
                rust_callee(content, nodes, c)
            } else {
                None
            },
            None => None,
        }
    } else {
        None
    }
}

/// The name of what node `i` calls, in Rust: the last name of a path, the method of a method
/// call, without type arguments.
pub fn rust_callee_name(content: &str, nodes: &Vec<SyntaxNode>, i: usize) -> (r: Option<String>)
    requires
        i < nodes@.len(),
    ensures
        opt_text(r) == rust_callee(content@, rows(nodes@), i as int),
    decreases nodes@.len() - i,
{
    let kind = nodes[i].kind.as_str();
    assert(rows(nodes@)[i as int] == nodes@[i as int]@);
    if same(kind, "identifier") {
        keep_nonempty(text_of(content, &nodes[i]))
    } else if same(kind, "scoped_identifier") {
        text_in_role(content, nodes, i, "name")
    } else if same(kind, "field_expression") {
        text_in_role(content, nodes, i, "field")
    } else if same(kind, "generic_function") {
        match child_by_field(nodes, i, "function") {
            Some(c) => rust_callee_name(content, nodes, c),
            None => None,
        }
    } else {
        None
    }
}

/// The name of what node `i` calls, in C and C++.
pub open spec fn cpp_callee(content: Seq<char>, nodes: Seq<Syntax>, i: int) -> Option<Seq<char>> {
    if i < 0 || i >= nodes.len() {
        None
    } else if nodes[i].kind == "identifier"@ {
        nonempty(node_text(content, nodes[i]))
    } else if nodes[i].kind == "qualified_identifier"@ {
        declared_name(content, nodes, i)
    } else if nodes[i].kind == "field_expression"@ {
        role_text(content, nodes, i, "field"@)
    } else if nodes[i].kind == "template_function"@ {
        role_text(content, nodes, i, "name"@)
    } else {
        None
    }
}

/// The name of what node `i` calls, in C and C++. A call through a function pointer has none.
pub fn cpp_callee_name(content: &str, nodes: &Vec<SyntaxNode>, i: usize) -> (r: Option<String>)
    requires
        i < nodes@.len(),
    ensures
        opt_text(r) == cpp_callee(content@, rows(nodes@), i as int),
{
    let kind = nodes[i].kind.as_str();
    assert(rows(nodes@)[i as int] == nodes@[i as int]@);
    if same(kind, "identifier") {
        keep_nonempty(text_of(content, &nodes[i]))
    } else if same(kind, "qualified_identifier") {
        declarator_name(content, nodes, i)
    } else if same(kind, "field_expression") {
        text_in_role(content, nodes, i, "field")
    } else if same(kind, "template_function") {
        text_in_role(content, nodes, i, "name")
    } else {
        None
    }
}

/// The name of what the call node `i` calls.
pub open spec fn callee(content: Seq<char>, nodes: Seq<Syntax>, lang: Lang, i: int) -> Option<Seq<char>> {
    match child_in_role(nodes, i, "function"@) {
        Some(c) => if lang == Lang::Rust {
            rust_callee(content, nodes, c)
        } else {
            cpp_callee(content, nodes, c)
        },
        None => None,
    }
}

fn callee_name(content: &str, nodes: &Vec<SyntaxNode>, lang: Lang, i: usize) -> (r: Option<String>)
    requires
        i < nodes@.len(),
    ensures
        opt_text(r) == callee(content@, rows(nodes@), lang, i as int),
{
    match child_by_field(nodes, i, "function") {
        Some(c) => match lang {
            Lang::Rust => rust_callee_name(content, nodes, c),
            _ => cpp_callee_name(content, nodes, c),
        },
        None => None,
    }
}

// ---------------------------------------------------------------------------------------------
// What is imported.
// ---------------------------------------------------------------------------------------------

/// The names that a Rust use tree brings in: the last name of a path, every name of a list, the
/// alias where there is one. Trees nested deeper than `fuel` bring in nothing.
pub open spec fn use_names(content: Seq<char>, nodes: Seq<Syntax>, i: int, fuel: nat) -> Seq<Seq<char>>
    decreases fuel, 0int,
{
    if fuel == 0 || i < 0 || i >= nodes.len() {
        Seq::empty()
    } else if nodes[i].kind == "scoped_identifier"@ {
        match child_in_role(nodes, i, "name"@) {
            Some(c) => opt_seq(node_text(content, nodes[c])),
            None => Seq::empty(),
        }
    } else if nodes[i].kind == "identifier"@ {
        opt_seq(node_text(content, nodes[i]))
    } else if nodes[i].kind == "use_list"@ {
        use_names_of(content, nodes, named_children(nodes, i), (fuel - 1) as nat)
    } else if nodes[i].kind == "scoped_use_list"@ {
        match child_in_role(nodes, i, "list"@) {
            Some(c) => use_names(content, nodes, c, (fuel - 1) as nat),
            None => Seq::empty(),
        }
    } else if nodes[i].kind == "use_as_clause"@ {
        match child_in_role(nodes, i, "alias"@) {
            Some(c) => opt_seq(node_text(content, nodes[c])),
            None => Seq::empty(),
        }
    } else {
        Seq::empty()
    }
}

/// The names that several use trees bring in.
pub open spec fn use_names_of(content: Seq<char>, nodes: Seq<Syntax>, kids: Seq<int>, fuel: nat) -> Seq<
    Seq<char>,
>
    decreases fuel, kids.len() + 1,
{
    if kids.len() == 0 {
        Seq::empty()
    } else {
        use_names_of(content, nodes, kids.drop_last(), fuel) + use_names(
            content,
            nodes,
            kids.last(),
            fuel,
        )
    }
}

/// No text, or one.
pub open spec fn opt_seq(t: Option<Seq<char>>) -> Seq<Seq<char>> {
    match t {
        Some(s) => seq![s],
        None => Seq::empty(),
    }
}

/// Appends a text, if there is one.
fn push_opt(out: &mut Vec<String>, t: Option<String>)
    ensures
        texts(final(out)@) == texts(old(out)@) + opt_seq(opt_text(t)),
{
    let ghost before = out@;
    match t {
        Some(s) => {
            let ghost s0 = s;
            out.push(s);
            proof {
                lemma_texts_push(before, s0);
                assert(texts(out@) =~= texts(before) + seq![s0@]);
            }
        },
        None => {
            assert(texts(before) + Seq::<Seq<char>>::empty() =~= texts(before));
        },
    }
}

/// Appends the names that a Rust use tree brings in.
pub fn collect_use_tree(content: &str, nodes: &Vec<SyntaxNode>, i: usize, fuel: usize, out: &mut Vec<
    String,
>)
    requires
        i < nodes@.len(),
    ensures
        texts(final(out)@) == texts(old(out)@) + use_names(
            content@,
            rows(nodes@),
            i as int,
            fuel as nat,
        ),
    decreases fuel,
{
    let ghost all = rows(nodes@);
    let ghost before = texts(out@);
    if fuel == 0 {
        assert(before + Seq::<Seq<char>>::empty() =~= before);
        return;
    }
    let kind = nodes[i].kind.as_str();
    assert(all[i as int] == nodes@[i as int]@);
    if same(kind, "scoped_identifier") {
        match child_by_field(nodes, i, "name") {
            Some(c) => {
                assert(all[c as int] == nodes@[c as int]@);
                push_opt(out, text_of(content, &nodes[c]));
            },
            None => {
                assert(before + Seq::<Seq<char>>::empty() =~= before);
            },
        }
    } else if same(kind, "identifier") {
        push_opt(out, text_of(content, &nodes[i]));
    } else if same(kind, "use_list") {
        let kids = named_children_of(nodes, i);
        let ghost ks = numbers(kids@);
        assert(ks.take(0) =~= Seq::<int>::empty());
        assert(before + Seq::<Seq<char>>::empty() =~= before);
        for k in 0..kids.len()
            invariant
                all == rows(nodes@),
                fuel > 0,
                ks == numbers(kids@),
                forall|m: int| 0 <= m < kids@.len() ==> #[trigger] kids@[m] < nodes@.len(),
                texts(out@) == before + use_names_of(
                    content@,
                    all,
                    ks.take(k as int),
                    (fuel - 1) as nat,
                ),
        {
            assert(ks.take(k + 1).drop_last() =~= ks.take(k as int));
            assert(ks.take(k + 1).last() == kids@[k as int] as int);
            let ghost mid = texts(out@);
            collect_use_tree(content, nodes, kids[k], fuel - 1, out);
            assert(texts(out@) =~= before + use_names_of(
                content@,
                all,
                ks.take(k + 1),
                (fuel - 1) as nat,
            ));
        }
        assert(ks.take(ks.len() as int) =~= ks);
    } else if same(kind, "scoped_use_list") {
        match child_by_field(nodes, i, "list") {
            Some(c) => {
                collect_use_tree(content, nodes, c, fuel - 1, out);
            },
            None => {
                assert(before + Seq::<Seq<char>>::empty() =~= before);
            },
        }
    } else if same(kind, "use_as_clause") {
        match child_by_field(nodes, i, "alias") {
            Some(c) => {
                assert(all[c as int] == nodes@[c as int]@);
                push_opt(out, text_of(content, &nodes[c]));
            },
            None => {
                assert(before + Seq::<Seq<char>>::empty() =~= before);
            },
        }
    } else {
        assert(before + Seq::<Seq<char>>::empty() =~= before);
    }
}

/// Whether a character delimits an include path.
pub open spec fn is_delimiter(c: char) -> bool {
    c == '<' || c == '>' || c == '"'
}

/// A text without the delimiters at its front.
pub open spec fn strip_front(s: Seq<char>) -> Seq<char>
    decreases s.len(),
{
    if s.len() > 0 && is_delimiter(s[0]) {
        strip_front(s.skip(1))
    } else {
        s
    }
}

/// A text without the delimiters at its end.
pub open spec fn strip_back(s: Seq<char>) -> Seq<char>
    decreases s.len(),
{
    if s.len() > 0 && is_delimiter(s.last()) {
        strip_back(s.drop_last())
    } else {
        s
    }
}

/// The name that an include brings in: the file name without its directories and extension.
pub open spec fn include_stem(raw: Seq<char>) -> Seq<char> {
    before_last(last_segment_text(trim_text(strip_back(strip_front(raw))), '/'), '.')
}

/// The name that an include brings in.
pub fn include_name(raw: &str) -> (r: String)
    ensures
        r@ == include_stem(raw@),
{
    let cs = chars_of(raw);
    let mut a: usize = 0;
    assert(cs@.skip(0) =~= cs@);
    while a < cs.len() && (cs[a] == '<' || cs[a] == '>' || cs[a] == '"')
        invariant
            a <= cs@.len(),
            strip_front(cs@.skip(a as int)) == strip_front(cs@),
        decreases cs@.len() - a,
    {
        assert(cs@.skip(a as int).skip(1) =~= cs@.skip(a + 1));
        a += 1;
    }
    let ghost inner = cs@.skip(a as int);
    assert(strip_front(cs@) == inner);
    let mut b: usize = cs.len();
    assert(inner.take(b - a) =~= inner);
    while b > a && (cs[b - 1] == '<' || cs[b - 1] == '>' || cs[b - 1] == '"')
        invariant
            a <= b <= cs@.len(),
            inner == cs@.skip(a as int),
            strip_back(inner.take(b - a)) == strip_back(inner),
        decreases b,
    {
        assert(inner.take(b - a).drop_last() =~= inner.take(b - a - 1));
        b -= 1;
    }
    assert(inner.take(b - a) =~= cs@.subrange(a as int, b as int));
    let stripped = string_from(&cs, a, b);
    let name = last_segment(trim(stripped.as_str()).as_str(), '/');
    match split_last(name.as_str(), '.') {
        Some(stem) => stem,
        None => name,
    }
}

/// The names that the include node `i` brings in.
pub open spec fn include_names(content: Seq<char>, nodes: Seq<Syntax>, kids: Seq<int>) -> Seq<Seq<char>>
    decreases kids.len(),
{
    if kids.len() == 0 {
        Seq::empty()
    } else {
        include_names(content, nodes, kids.drop_last()) + match node_text(
            content,
            nodes[kids.last()],
        ) {
            Some(raw) => opt_seq(nonempty(Some(include_stem(raw)))),
            None => Seq::empty(),
        }
    }
}

/// The names that node `i` itself brings in, if it is an import.
pub open spec fn imports_at(content: Seq<char>, nodes: Seq<Syntax>, lang: Lang, i: int) -> Seq<Seq<char>> {
    if lang == Lang::Rust {
        if nodes[i].kind == "use_declaration"@ {
            match child_in_role(nodes, i, "argument"@) {
                Some(c) => use_names(content, nodes, c, nodes.len()),
                None => Seq::empty(),
            }
        } else {
            Seq::empty()
        }
    } else if nodes[i].kind == "preproc_include"@ {
        include_names(content, nodes, named_children(nodes, i))
    } else {
        Seq::empty()
    }
}

/// The names that the visited nodes bring in.
pub open spec fn imports_among(content: Seq<char>, nodes: Seq<Syntax>, lang: Lang, visited: Seq<int>) -> Seq<
    Seq<char>,
>
    decreases visited.len(),
{
    if visited.len() == 0 {
        Seq::empty()
    } else {
        imports_among(content, nodes, lang, visited.drop_last()) + imports_at(
            content,
            nodes,
            lang,
            visited.last(),
        )
    }
}

/// The names that a file imports, in ascending order, each once.
pub open spec fn file_imports(content: Seq<char>, nodes: Seq<Syntax>, lang: Lang) -> Seq<Seq<char>> {
    sorted_set_text(imports_among(content, nodes, lang, walk_all(nodes)))
}

fn collect_imports_at(content: &str, nodes: &Vec<SyntaxNode>, lang: Lang, i: usize, out: &mut Vec<String>)
    requires
        i < nodes@.len(),
    ensures
        texts(final(out)@) == texts(old(out)@) + imports_at(
            content@,
            rows(nodes@),
            lang,
            i as int,
        ),
{
    let ghost all = rows(nodes@);
    let ghost before = texts(out@);
    assert(before + Seq::<Seq<char>>::empty() =~= before);
    assert(all[i as int] == nodes@[i as int]@);
    match lang {
        Lang::Rust => {
            if same(nodes[i].kind.as_str(), "use_declaration") {
                match child_by_field(nodes, i, "argument") {
                    Some(c) => {
                        collect_use_tree(content, nodes, c, nodes.len(), out);
                    },
                    None => {},
                }
            }
        },
        _ => {
            if same(nodes[i].kind.as_str(), "preproc_include") {
                let kids = named_children_of(nodes, i);
                let ghost ks = numbers(kids@);
                assert(ks.take(0) =~= Seq::<int>::empty());
                for k in 0..kids.len()
                    invariant
                        all == rows(nodes@),
                        ks == numbers(kids@),
                        forall|m: int| 0 <= m < kids@.len() ==> #[trigger] kids@[m] < nodes@.len(),
                        texts(out@) == before + include_names(content@, all, ks.take(k as int)),
                {
                    assert(ks.take(k + 1).drop_last() =~= ks.take(k as int));
                    assert(ks.take(k + 1).last() == kids@[k as int] as int);
                    let n = &nodes[kids[k]];
                    assert(all[kids@[k as int] as int] == n@);
                    match text_of(content, n) {
                        Some(raw) => {
                            let stem = include_name(raw.as_str());
                            push_opt(out, keep_nonempty(Some(stem)));
                        },
                        None => {},
                    }
                    assert(texts(out@) =~= before + include_names(content@, all, ks.take(k + 1)));
                }
                assert(ks.take(ks.len() as int) =~= ks);
            }
        },
    }
}

/// The names that a parsed file imports, in ascending order, each once.
pub fn collect_imports(content: &str, nodes: &Vec<SyntaxNode>, lang: Lang) -> (r: Vec<String>)
    ensures
        texts(r@) == file_imports(content@, rows(nodes@), lang),
{
    let ghost all = rows(nodes@);
    let visited = walk_nodes(nodes);
    let ghost vs = numbers(visited@);
    let mut names: Vec<String> = Vec::new();
    assert(vs.take(0) =~= Seq::<int>::empty());
    assert(texts(names@) =~= Seq::<Seq<char>>::empty());
    for k in 0..visited.len()
        invariant
            all == rows(nodes@),
            vs == numbers(visited@),
            forall|m: int| 0 <= m < visited@.len() ==> #[trigger] visited@[m] < nodes@.len(),
            texts(names@) == imports_among(content@, all, lang, vs.take(k as int)),
    {
        assert(vs.take(k + 1).drop_last() =~= vs.take(k as int));
        assert(vs.take(k + 1).last() == visited@[k as int] as int);
        collect_imports_at(content, nodes, lang, visited[k], &mut names);
    }
    assert(vs.take(vs.len() as int) =~= vs);
    sorted_set(&names)
}

// ---------------------------------------------------------------------------------------------
// Edges.
// ---------------------------------------------------------------------------------------------

/// Whether an imported name is worth an edge: in Rust, `self`, `super` and `crate` are not.
pub open spec fn import_counts(lang: Lang, name: Seq<char>) -> bool {
    &&& name.len() > 0
    &&& lang == Lang::Rust ==> name != "self"@ && name != "super"@ && name != "crate"@
}

/// The import edges of the names `names`.
pub open spec fn import_edges(
    lang: Lang,
    names: Seq<Seq<char>>,
    file_syms: Seq<Seq<char>>,
    imports: Seq<Seq<char>>,
) -> Seq<Edge>
    decreases names.len(),
{
    if names.len() == 0 {
        Seq::empty()
    } else {
        let before = import_edges(lang, names.drop_last(), file_syms, imports);
        if import_counts(lang, names.last()) {
            before.push(
                Edge {
                    dst_sym: "sym:"@ + names.last(),
                    edge_kind: EdgeKind::Imports,
                    src_line: None,
                    confidence: confidence_of(names.last(), file_syms, imports),
                },
            )
        } else {
            before
        }
    }
}

/// The name that node `i` refers to, and how: a call, or the use of a type.
pub open spec fn reference_at(content: Seq<char>, nodes: Seq<Syntax>, lang: Lang, i: int) -> Option<
    (Seq<char>, EdgeKind),
> {
    if nodes[i].kind == "call_expression"@ {
        match callee(content, nodes, lang, i) {
            Some(t) => Some((t, EdgeKind::Calls)),
            None => None,
        }
    } else if nodes[i].kind == "type_identifier"@ {
        match nonempty(node_text(content, nodes[i])) {
            Some(t) => Some((t, EdgeKind::UsesType)),
            None => None,
        }
    } else {
        None
    }
}

/// The edges of the visited nodes, after `start`.
pub open spec fn reference_edges(
    content: Seq<char>,
    nodes: Seq<Syntax>,
    lang: Lang,
    visited: Seq<int>,
    file_syms: Seq<Seq<char>>,
    imports: Seq<Seq<char>>,
    start: Seq<Edge>,
) -> Seq<Edge>
    decreases visited.len(),
{
    if visited.len() == 0 {
        start
    } else {
        let before = reference_edges(
            content,
            nodes,
            lang,
            visited.drop_last(),
            file_syms,
            imports,
            start,
        );
        let i = visited.last();
        match reference_at(content, nodes, lang, i) {
            Some(x) => before.push(
                Edge {
                    dst_sym: "sym:"@ + x.0,
                    edge_kind: x.1,
                    src_line: Some(line_of(nodes[i].start_row)),
                    confidence: confidence_of(x.0, file_syms, imports),
                },
            ),
            None => before,
        }
    }
}

/// Edges in the order of their targets, then of their kinds, then the surer ones first.
pub open spec fn edge_before() -> spec_fn(Edge, Edge) -> bool {
    |a: Edge, b: Edge|
        if a.dst_sym != b.dst_sym {
            text_less(a.dst_sym, b.dst_sym)
        } else if a.edge_kind != b.edge_kind {
            text_less(edge_kind_text(a.edge_kind), edge_kind_text(b.edge_kind))
        } else {
            a.confidence > b.confidence
        }
}

/// The edges of an ordered list that differ from the one before in target or kind.
pub open spec fn without_repeats(s: Seq<Edge>) -> Seq<Edge>
    decreases s.len(),
{
    if s.len() == 0 {
        Seq::empty()
    } else {
        let before = without_repeats(s.drop_last());
        if before.len() > 0 && before.last().dst_sym == s.last().dst_sym && before.last().edge_kind
            == s.last().edge_kind {
            before
        } else {
            before.push(s.last())
        }
    }
}

/// One edge for each target and kind: the surest, in order.
pub open spec fn deduped(edges: Seq<Edge>) -> Seq<Edge> {
    without_repeats(sorted_rows(edges, edge_before()))
}

/// Keeps one edge for each target and kind: the surest.
pub fn dedup_edges(edges: Vec<RawEdge>) -> (r: Vec<RawEdge>)
    ensures
        rows(r@) == deduped(rows(edges@)),
{
    let mut sorted = edges;
    sort(
        &mut sorted,
        |a: &RawEdge, b: &RawEdge| -> (r: bool)
            ensures
                r == edge_before()(a@, b@)
        {
            if !same(a.dst_sym.as_str(), b.dst_sym.as_str()) {
                less(a.dst_sym.as_str(), b.dst_sym.as_str())
            } else if a.edge_kind != b.edge_kind {
                less(a.edge_kind.as_str(), b.edge_kind.as_str())
            } else {
                a.confidence > b.confidence
            }
        },
        Ghost(edge_before()),
    );
    let ghost all = rows(sorted@);
    let mut out: Vec<RawEdge> = Vec::new();
    assert(all.take(0) =~= Seq::<Edge>::empty());
    assert(rows(out@) =~= Seq::<Edge>::empty());
    for i in 0..sorted.len()
        invariant
            all == rows(sorted@),
            rows(out@) == without_repeats(all.take(i as int)),
    {
        assert(all.take(i + 1).drop_last() =~= all.take(i as int));
        assert(all.take(i + 1).last() == sorted@[i as int]@);
        let n: usize = out.len();
        let repeated: bool = n > 0 && same(
            out[n - 1].dst_sym.as_str(),
            sorted[i].dst_sym.as_str(),
        ) && out[n - 1].edge_kind == sorted[i].edge_kind;
        proof {
            if n > 0 {
                assert(rows(out@).last() == out@[n - 1]@);
            }
        }
        if !repeated {
            let ghost out0 = out@;
            let e = sorted[i].copy();
            out.push(e);
            proof {
                lemma_rows_push(out0, e);
            }
        }
    }
    assert(all.take(all.len() as int) =~= all);
    out
}

/// The edges of a parsed file.
pub open spec fn file_edges(content: Seq<char>, nodes: Seq<Syntax>, lang: Lang, file_syms: Seq<Seq<char>>) -> Seq<
    Edge,
> {
    let imports = file_imports(content, nodes, lang);
    deduped(
        reference_edges(
            content,
            nodes,
            lang,
            walk_all(nodes),
            file_syms,
            imports,
            import_edges(lang, imports, file_syms, imports),
        ),
    )
}

/// The edges of a parsed file of Rust, C or C++: what it imports, what it calls and which types
/// it uses, one edge for each target and kind.
pub fn edges_of(content: &str, nodes: &Vec<SyntaxNode>, lang: Lang, file_syms: &Vec<String>) -> (r: Vec<
    RawEdge,
>)
    ensures
        rows(r@) == file_edges(content@, rows(nodes@), lang, texts(file_syms@)),
{
    let ghost all = rows(nodes@);
    let ghost syms = texts(file_syms@);
    let imports = collect_imports(content, nodes, lang);
    let ghost imps = texts(imports@);
    let mut edges: Vec<RawEdge> = Vec::new();
    assert(imps.take(0) =~= Seq::<Seq<char>>::empty());
    assert(rows(edges@) =~= Seq::<Edge>::empty());
    for k in 0..imports.len()
        invariant
            imps == texts(imports@),
            syms == texts(file_syms@),
            rows(edges@) == import_edges(lang, imps.take(k as int), syms, imps),
    {
        assert(imps.take(k + 1).drop_last() =~= imps.take(k as int));
        assert(imps.take(k + 1).last() == imports@[k as int]@);
        let name = imports[k].as_str();
        let skipped: bool = name.is_empty() || match lang {
            Lang::Rust => same(name, "self") || same(name, "super") || same(name, "crate"),
            _ => false,
        };
        if !skipped {
            let ghost edges0 = edges@;
            let e = RawEdge {
                dst_sym: cat2("sym:", name),
                edge_kind: EdgeKind::Imports,
                src_line: None,
                confidence: confidence(name, file_syms, &imports),
            };
            edges.push(e);
            proof {
                lemma_rows_push(edges0, e);
            }
        }
    }
    assert(imps.take(imps.len() as int) =~= imps);
    let ghost start = rows(edges@);
    let visited = walk_nodes(nodes);
    let ghost vs = numbers(visited@);
    assert(vs.take(0) =~= Seq::<int>::empty());
    for k in 0..visited.len()
        invariant
            all == rows(nodes@),
            imps == texts(imports@),
            syms == texts(file_syms@),
            vs == numbers(visited@),
            forall|m: int| 0 <= m < visited@.len() ==> #[trigger] visited@[m] < nodes@.len(),
            rows(edges@) == reference_edges(
                content@,
                all,
                lang,
                vs.take(k as int),
                syms,
                imps,
                start,
            ),
    {
        assert(vs.take(k + 1).drop_last() =~= vs.take(k as int));
        assert(vs.take(k + 1).last() == visited@[k as int] as int);
        let i: usize = visited[k];
        assert(all[i as int] == nodes@[i as int]@);
        let found: Option<(String, EdgeKind)> = if same(
            nodes[i].kind.as_str(),
            "call_expression",
        ) {
            match callee_name(content, nodes, lang, i) {
                Some(t) => Some((t, EdgeKind::Calls)),
                None => None,
            }
        } else if same(nodes[i].kind.as_str(), "type_identifier") {
            match keep_nonempty(text_of(content, &nodes[i])) {
                Some(t) => Some((t, EdgeKind::UsesType)),
                None => None,
            }
        } else {
            None
        };
        match found {
            Some((t, kind)) => {
                let ghost edges0 = edges@;
                let e = RawEdge {
                    dst_sym: cat2("sym:", t.as_str()),
                    edge_kind: kind,
                    src_line: Some(line_number(nodes[i].start_row)),
                    confidence: confidence(t.as_str(), file_syms, &imports),
                };
                edges.push(e);
                proof {
                    lemma_rows_push(edges0, e);
                }
            },
            None => {},
        }
    }
    assert(vs.take(vs.len() as int) =~= vs);
    dedup_edges(edges)
}

/// Extracts the call, type and import edges of a file. `file_syms` are the bare names that the
/// file defines. Languages without edge extraction, and texts that cannot be parsed, have none.
pub fn extract_edges(content: &str, lang: Lang, file_syms: &Vec<String>) -> (r: Vec<RawEdge>)
    ensures
        rows(r@) == if lang == Lang::Rust || lang == Lang::C || lang == Lang::Cpp {
            match syntax_of(lang, content@) {
                Some(nodes) => file_edges(content@, nodes, lang, texts(file_syms@)),
                None => Seq::empty(),
            }
        } else {
            Seq::empty()
        },
{
    let none: Vec<RawEdge> = Vec::new();
    assert(rows(none@) =~= Seq::<Edge>::empty());
    match lang {
        Lang::Rust | Lang::C | Lang::Cpp => match syntax(lang, content) {
            Some(nodes) => edges_of(content, &nodes, lang, file_syms),
            None => none,
        },
        _ => none,
    }
}

// ---------------------------------------------------------------------------------------------
// Laws.
// ---------------------------------------------------------------------------------------------

/// The order of texts, on these three.
proof fn lemma_three_texts(a: Seq<char>, b: Seq<char>, c: Seq<char>)
    ensures
        a == b || text_less(a, b) || text_less(b, a),
        b == c || text_less(b, c) || text_less(c, b),
        a == c || text_less(a, c) || text_less(c, a),
        !text_less(a, a),
        !text_less(b, b),
        !text_less(c, c),
        text_less(a, b) && text_less(b, c) ==> text_less(a, c),
        text_less(b, a) && text_less(c, b) ==> text_less(c, a),
        !(text_less(a, b) && text_less(b, a)),
        !(text_less(b, c) && text_less(c, b)),
        !(text_less(a, c) && text_less(c, a)),
{
    lemma_text_less_total(a, b);
    lemma_text_less_total(b, c);
    lemma_text_less_total(a, c);
    lemma_text_less_irreflexive(a);
    lemma_text_less_irreflexive(b);
    lemma_text_less_irreflexive(c);
    if text_less(a, b) && text_less(b, c) {
        lemma_text_less_transitive(a, b, c);
    }
    if text_less(b, a) && text_less(c, b) {
        lemma_text_less_transitive(c, b, a);
    }
    if text_less(a, b) && text_less(b, a) {
        lemma_text_less_transitive(a, b, a);
    }
    if text_less(b, c) && text_less(c, b) {
        lemma_text_less_transitive(b, c, b);
    }
    if text_less(a, c) && text_less(c, a) {
        lemma_text_less_transitive(a, c, a);
    }
}

proof fn lemma_kind_texts(a: EdgeKind, b: EdgeKind)
    ensures
        edge_kind_text(a) == edge_kind_text(b) ==> a == b,
{
    law_edge_kind_round_trip(a, edge_kind_text(a));
    law_edge_kind_round_trip(b, edge_kind_text(b));
}

proof fn lemma_edge_order()
    ensures
        is_order(edge_before()),
{
    let f = edge_before();
    assert forall|a: Edge, b: Edge, c: Edge| #[trigger] f(a, b) && #[trigger] f(b, c) implies f(a, c) by {
        lemma_three_texts(a.dst_sym, b.dst_sym, c.dst_sym);
        lemma_three_texts(
            edge_kind_text(a.edge_kind),
            edge_kind_text(b.edge_kind),
            edge_kind_text(c.edge_kind),
        );
        lemma_kind_texts(a.edge_kind, c.edge_kind);
    }
    assert forall|a: Edge, b: Edge, c: Edge| !(#[trigger] f(a, b)) && !(#[trigger] f(b, c)) implies !f(a, c) by {
        lemma_three_texts(a.dst_sym, b.dst_sym, c.dst_sym);
        lemma_three_texts(
            edge_kind_text(a.edge_kind),
            edge_kind_text(b.edge_kind),
            edge_kind_text(c.edge_kind),
        );
        lemma_kind_texts(a.edge_kind, b.edge_kind);
        lemma_kind_texts(b.edge_kind, c.edge_kind);
        lemma_kind_texts(a.edge_kind, c.edge_kind);
    }
    assert forall|a: Edge| !#[trigger] f(a, a) by {
        lemma_text_less_irreflexive(a.dst_sym);
    }
}

/// Whether two edges have the same target and kind.
pub open spec fn same_target(a: Edge, b: Edge) -> bool {
    a.dst_sym == b.dst_sym && a.edge_kind == b.edge_kind
}

/// Whether a list holds an edge of the same target and kind that is at least as sure.
pub open spec fn stands_for(kept: Seq<Edge>, e: Edge) -> bool {
    exists|i: int| 0 <= i < kept.len() && same_target(#[trigger] kept[i], e) && kept[i].confidence >= e.confidence
}

proof fn lemma_without_repeats(s: Seq<Edge>)
    requires
        in_order(s, edge_before()),
    ensures
        ({
            let w = without_repeats(s);
            &&& forall|i: int| 0 <= i < w.len() ==> s.contains(#[trigger] w[i])
            &&& in_order(w, edge_before())
            &&& distinct_edges(w)
            &&& forall|k: int| 0 <= k < s.len() ==> stands_for(w, #[trigger] s[k])
        }),
    decreases s.len(),
{
    if s.len() > 0 {
        let t = s.drop_last();
        let x = s.last();
        let n = t.len() as int;
        assert(in_order(t, edge_before())) by {
            assert forall|i: int, j: int| 0 <= i < j < t.len() implies !edge_before()(
                #[trigger] t[j],
                #[trigger] t[i],
            ) by {
                assert(t[i] == s[i] && t[j] == s[j]);
            }
        }
        lemma_without_repeats(t);
        let b = without_repeats(t);
        let w = without_repeats(s);
        assert forall|i: int| 0 <= i < b.len() implies s.contains(#[trigger] b[i]) && !edge_before()(x, b[i]) by {
            assert(t.contains(b[i]));
            let k = choose|k: int| 0 <= k < t.len() && t[k] == b[i];
            assert(s[k] == b[i]);
            assert(!edge_before()(s[n], s[k]));
        }
        if w != b {
            assert(w == b.push(x));
            assert(s[n] == x);
            assert forall|i: int, j: int| 0 <= i < j < w.len() implies !same_target(
                #[trigger] w[i],
                #[trigger] w[j],
            ) by {
                if j < b.len() {
                    assert(w[i] == b[i] && w[j] == b[j]);
                } else {
                    let l = b[b.len() - 1];
                    assert(!edge_before()(x, l) && !edge_before()(x, b[i]));
                    if i < b.len() - 1 {
                        assert(!edge_before()(l, b[i]));
                        lemma_three_texts(b[i].dst_sym, l.dst_sym, x.dst_sym);
                        lemma_three_texts(
                            edge_kind_text(b[i].edge_kind),
                            edge_kind_text(l.edge_kind),
                            edge_kind_text(x.edge_kind),
                        );
                        lemma_kind_texts(l.edge_kind, b[i].edge_kind);
                    }
                }
            }
        }
        assert forall|k: int| 0 <= k < s.len() implies stands_for(w, #[trigger] s[k]) by {
            if k < n {
                assert(t[k] == s[k]);
                let i = choose|i: int|
                    0 <= i < b.len() && same_target(#[trigger] b[i], t[k]) && b[i].confidence
                        >= t[k].confidence;
                assert(w[i] == b[i]);
            } else if w == b {
                assert(!edge_before()(x, b[b.len() - 1]));
                assert(same_target(w[b.len() - 1], x));
            } else {
                assert(same_target(w[b.len() as int], x));
            }
        }
    }
}

/// Law: of the edges with one target and kind a single one is left, one of the list and as sure as
/// any of them; nothing else is left, and no target is lost. What is left comes in the order of
/// edges.
pub proof fn law_dedup(edges: Seq<Edge>)
    ensures
        distinct_edges(deduped(edges)),
        in_order(deduped(edges), edge_before()),
        forall|i: int| 0 <= i < deduped(edges).len() ==> edges.contains(#[trigger] deduped(edges)[i]),
        forall|k: int| 0 <= k < edges.len() ==> stands_for(deduped(edges), #[trigger] edges[k]),
{
    broadcast use vstd::seq_lib::group_to_multiset_ensures;

    lemma_edge_order();
    law_sorted_rows(edges, edge_before());
    let s = sorted_rows(edges, edge_before());
    assert forall|x: Edge| s.contains(x) <==> edges.contains(x) by {
        assert(s.to_multiset().count(x) > 0 <==> s.contains(x));
        assert(edges.to_multiset().count(x) > 0 <==> edges.contains(x));
    }
    lemma_without_repeats(s);
    assert forall|k: int| 0 <= k < edges.len() implies stands_for(deduped(edges), #[trigger] edges[k]) by {
        assert(edges.contains(edges[k]));
        let j = choose|j: int| 0 <= j < s.len() && s[j] == edges[k];
        assert(stands_for(deduped(edges), s[j]));
    }
}

/// Law: what a file is committed with holds each target and kind once, so that its edges in the
/// store are the ones found in it.
pub proof fn law_file_edges_distinct(
    content: Seq<char>,
    nodes: Seq<Syntax>,
    lang: Lang,
    file_syms: Seq<Seq<char>>,
)
    ensures
        distinct_edges(file_edges(content, nodes, lang, file_syms)),
{
    let imports = file_imports(content, nodes, lang);
    law_dedup(
        reference_edges(
            content,
            nodes,
            lang,
            walk_all(nodes),
            file_syms,
            imports,
            import_edges(lang, imports, file_syms, imports),
        ),
    );
}

// ---------------------------------------------------------------------------------------------
// What the edges of a file say of it.
// ---------------------------------------------------------------------------------------------

/// Whether a list of edges holds one of this kind to the symbol of a name.
pub open spec fn has_edge(edges: Seq<Edge>, name: Seq<char>, kind: EdgeKind) -> bool {
    exists|i: int|
        0 <= i < edges.len() && (#[trigger] edges[i]).dst_sym == "sym:"@ + name && edges[i].edge_kind == kind
}

proof fn lemma_symbol_injective(a: Seq<char>, b: Seq<char>)
    requires
        "sym:"@ + a == "sym:"@ + b,
    ensures
        a == b,
{
    let n = "sym:"@.len() as int;
    assert(("sym:"@ + a).skip(n) =~= a);
    assert(("sym:"@ + b).skip(n) =~= b);
}

/// Where an edge of the references of a file comes from: from `start`, or from a visited node.
spec fn comes_from(
    content: Seq<char>,
    nodes: Seq<Syntax>,
    lang: Lang,
    file_syms: Seq<Seq<char>>,
    imports: Seq<Seq<char>>,
    i: int,
    e: Edge,
) -> bool {
    &&& reference_at(content, nodes, lang, i) is Some
    &&& e.dst_sym == "sym:"@ + (reference_at(content, nodes, lang, i)->0).0
    &&& e.edge_kind == (reference_at(content, nodes, lang, i)->0).1
    &&& e.src_line == Some(line_of(nodes[i].start_row))
    &&& e.confidence == confidence_of(
        (reference_at(content, nodes, lang, i)->0).0,
        file_syms,
        imports,
    )
}

proof fn lemma_reference_edges(
    content: Seq<char>,
    nodes: Seq<Syntax>,
    lang: Lang,
    visited: Seq<int>,
    file_syms: Seq<Seq<char>>,
    imports: Seq<Seq<char>>,
    start: Seq<Edge>,
)
    ensures
        ({
            let all = reference_edges(content, nodes, lang, visited, file_syms, imports, start);
            &&& forall|k: int| 0 <= k < start.len() ==> all.contains(#[trigger] start[k])
            &&& forall|k: int|
                0 <= k < visited.len() && reference_at(content, nodes, lang, #[trigger] visited[k]) is Some
                    ==> exists|m: int|
                    0 <= m < all.len() && comes_from(
                        content,
                        nodes,
                        lang,
                        file_syms,
                        imports,
                        visited[k],
                        #[trigger] all[m],
                    )
            &&& forall|m: int|
                0 <= m < all.len() ==> start.contains(#[trigger] all[m]) || exists|k: int|
                    0 <= k < visited.len() && comes_from(
                        content,
                        nodes,
                        lang,
                        file_syms,
                        imports,
                        #[trigger] visited[k],
                        all[m],
                    )
        }),
    decreases visited.len(),
{
    let all = reference_edges(content, nodes, lang, visited, file_syms, imports, start);
    if visited.len() > 0 {
        let head = visited.drop_last();
        let i = visited.last();
        lemma_reference_edges(content, nodes, lang, head, file_syms, imports, start);
        let before = reference_edges(content, nodes, lang, head, file_syms, imports, start);
        assert(visited[visited.len() - 1] == i);
        assert(forall|m: int| 0 <= m < before.len() ==> all[m] == before[m]);
        assert forall|k: int| 0 <= k < start.len() implies all.contains(#[trigger] start[k]) by {
            let m = choose|m: int| 0 <= m < before.len() && before[m] == start[k];
            assert(all[m] == start[k]);
        }
        assert forall|k: int|
            0 <= k < visited.len() && reference_at(content, nodes, lang, #[trigger] visited[k]) is Some implies exists|
            m: int,
        |
            0 <= m < all.len() && comes_from(
                content,
                nodes,
                lang,
                file_syms,
                imports,
                visited[k],
                #[trigger] all[m],
            ) by {
            if k < head.len() {
                assert(head[k] == visited[k]);
                let m = choose|m: int|
                    0 <= m < before.len() && comes_from(
                        content,
                        nodes,
                        lang,
                        file_syms,
                        imports,
                        head[k],
                        #[trigger] before[m],
                    );
                assert(all[m] == before[m]);
            } else {
                assert(comes_from(
                    content,
                    nodes,
                    lang,
                    file_syms,
                    imports,
                    visited[k],
                    all[before.len() as int],
                ));
            }
        }
        assert forall|m: int| 0 <= m < all.len() implies start.contains(#[trigger] all[m]) || exists|k: int|
            0 <= k < visited.len() && comes_from(
                content,
                nodes,
                lang,
                file_syms,
                imports,
                #[trigger] visited[k],
                all[m],
            ) by {
            if m < before.len() {
                if !start.contains(before[m]) {
                    let k = choose|k: int|
                        0 <= k < head.len() && comes_from(
                            content,
                            nodes,
                            lang,
                            file_syms,
                            imports,
                            #[trigger] head[k],
                            before[m],
                        );
                    assert(visited[k] == head[k]);
                }
            }
        }
    } else {
        assert forall|k: int| 0 <= k < start.len() implies all.contains(#[trigger] start[k]) by {
            assert(all[k] == start[k]);
        }
    }
}

proof fn lemma_import_edges(
    lang: Lang,
    names: Seq<Seq<char>>,
    file_syms: Seq<Seq<char>>,
    imports: Seq<Seq<char>>,
)
    ensures
        ({
            let all = import_edges(lang, names, file_syms, imports);
            &&& forall|k: int|
                0 <= k < names.len() && import_counts(lang, #[trigger] names[k]) ==> has_edge(
                    all,
                    names[k],
                    EdgeKind::Imports,
                )
            &&& forall|m: int|
                0 <= m < all.len() ==> (#[trigger] all[m]).edge_kind == EdgeKind::Imports && exists|k: int|
                    0 <= k < names.len() && all[m].dst_sym == "sym:"@ + #[trigger] names[k] && all[m].confidence
                        == confidence_of(names[k], file_syms, imports) && import_counts(lang, names[k])
        }),
    decreases names.len(),
{
    if names.len() > 0 {
        let head = names.drop_last();
        lemma_import_edges(lang, head, file_syms, imports);
        let before = import_edges(lang, head, file_syms, imports);
        let all = import_edges(lang, names, file_syms, imports);
        assert(forall|m: int| 0 <= m < before.len() ==> all[m] == before[m]);
        assert(names[names.len() - 1] == names.last());
        assert forall|k: int|
            0 <= k < names.len() && import_counts(lang, #[trigger] names[k]) implies has_edge(
            all,
            names[k],
            EdgeKind::Imports,
        ) by {
            if k < head.len() {
                assert(head[k] == names[k]);
                let m = choose|m: int|
                    0 <= m < before.len() && (#[trigger] before[m]).dst_sym == "sym:"@ + head[k]
                        && before[m].edge_kind == EdgeKind::Imports;
                assert(all[m] == before[m]);
            } else {
                assert(all[before.len() as int].dst_sym == "sym:"@ + names[k]);
            }
        }
        assert forall|m: int| 0 <= m < all.len() implies (#[trigger] all[m]).edge_kind == EdgeKind::Imports
            && exists|k: int|
            0 <= k < names.len() && all[m].dst_sym == "sym:"@ + #[trigger] names[k] && all[m].confidence
                == confidence_of(names[k], file_syms, imports) && import_counts(lang, names[k]) by {
            if m < before.len() {
                let k = choose|k: int|
                    0 <= k < head.len() && before[m].dst_sym == "sym:"@ + #[trigger] head[k]
                        && before[m].confidence == confidence_of(head[k], file_syms, imports)
                        && import_counts(lang, head[k]);
                assert(names[k] == head[k]);
            } else {
                assert(all[m].dst_sym == "sym:"@ + names[names.len() - 1]);
            }
        }
    }
}

/// The references and imports of a file, before they are narrowed to one for each target and kind.
spec fn all_edges(content: Seq<char>, nodes: Seq<Syntax>, lang: Lang, file_syms: Seq<Seq<char>>) -> Seq<Edge> {
    let imports = file_imports(content, nodes, lang);
    reference_edges(
        content,
        nodes,
        lang,
        walk_all(nodes),
        file_syms,
        imports,
        import_edges(lang, imports, file_syms, imports),
    )
}

proof fn lemma_file_edge_kept(
    content: Seq<char>,
    nodes: Seq<Syntax>,
    lang: Lang,
    file_syms: Seq<Seq<char>>,
    name: Seq<char>,
    kind: EdgeKind,
)
    ensures
        has_edge(all_edges(content, nodes, lang, file_syms), name, kind) <==> has_edge(
            file_edges(content, nodes, lang, file_syms),
            name,
            kind,
        ),
{
    let all = all_edges(content, nodes, lang, file_syms);
    let kept = file_edges(content, nodes, lang, file_syms);
    law_dedup(all);
    if has_edge(all, name, kind) {
        let i = choose|i: int|
            0 <= i < all.len() && (#[trigger] all[i]).dst_sym == "sym:"@ + name && all[i].edge_kind == kind;
        assert(stands_for(kept, all[i]));
        let k = choose|k: int|
            0 <= k < kept.len() && same_target(#[trigger] kept[k], all[i]) && kept[k].confidence
                >= all[i].confidence;
        assert(kept[k].dst_sym == "sym:"@ + name);
    }
    if has_edge(kept, name, kind) {
        let i = choose|i: int|
            0 <= i < kept.len() && (#[trigger] kept[i]).dst_sym == "sym:"@ + name && kept[i].edge_kind == kind;
        assert(all.contains(kept[i]));
        let k = choose|k: int| 0 <= k < all.len() && all[k] == kept[i];
        assert(all[k].dst_sym == "sym:"@ + name);
    }
}

/// A reference at a visited node is an edge of the file.
proof fn lemma_reference_kept(
    content: Seq<char>,
    nodes: Seq<Syntax>,
    lang: Lang,
    file_syms: Seq<Seq<char>>,
    i: int,
)
    requires
        walk_all(nodes).contains(i),
        reference_at(content, nodes, lang, i) is Some,
    ensures
        has_edge(
            file_edges(content, nodes, lang, file_syms),
            (reference_at(content, nodes, lang, i)->0).0,
            (reference_at(content, nodes, lang, i)->0).1,
        ),
{
    let imports = file_imports(content, nodes, lang);
    let start = import_edges(lang, imports, file_syms, imports);
    let visited = walk_all(nodes);
    let all = all_edges(content, nodes, lang, file_syms);
    lemma_reference_edges(content, nodes, lang, visited, file_syms, imports, start);
    let k = choose|k: int| 0 <= k < visited.len() && visited[k] == i;
    assert(reference_at(content, nodes, lang, visited[k]) is Some);
    let m = choose|m: int|
        0 <= m < all.len() && comes_from(content, nodes, lang, file_syms, imports, visited[k], #[trigger] all[m]);
    let x = reference_at(content, nodes, lang, i)->0;
    assert(all[m].dst_sym == "sym:"@ + x.0 && all[m].edge_kind == x.1);
    lemma_file_edge_kept(content, nodes, lang, file_syms, x.0, x.1);
}

/// An edge of the file that is no import stands for a reference at a visited node.
proof fn lemma_reference_found(
    content: Seq<char>,
    nodes: Seq<Syntax>,
    lang: Lang,
    file_syms: Seq<Seq<char>>,
    e: Edge,
) -> (i: int)
    requires
        file_edges(content, nodes, lang, file_syms).contains(e),
        e.edge_kind != EdgeKind::Imports,
    ensures
        walk_all(nodes).contains(i),
        comes_from(content, nodes, lang, file_syms, file_imports(content, nodes, lang), i, e),
{
    let imports = file_imports(content, nodes, lang);
    let start = import_edges(lang, imports, file_syms, imports);
    let visited = walk_all(nodes);
    let all = all_edges(content, nodes, lang, file_syms);
    let kept = file_edges(content, nodes, lang, file_syms);
    law_dedup(all);
    lemma_reference_edges(content, nodes, lang, visited, file_syms, imports, start);
    lemma_import_edges(lang, imports, file_syms, imports);
    let a = choose|a: int| 0 <= a < kept.len() && kept[a] == e;
    assert(all.contains(kept[a]));
    let m = choose|m: int| 0 <= m < all.len() && all[m] == e;
    if start.contains(all[m]) {
        let b = choose|b: int| 0 <= b < start.len() && start[b] == e;
        assert(start[b].edge_kind == EdgeKind::Imports);
    }
    let k = choose|k: int|
        0 <= k < visited.len() && comes_from(content, nodes, lang, file_syms, imports, #[trigger] visited[k], all[m]);
    visited[k]
}

/// Whether node `m` is what node `h` is called by: a plain name by itself, a path by its last name,
/// a method call by the name of the method.
pub open spec fn named_by(nodes: Seq<Syntax>, h: int, m: int) -> bool {
    ||| nodes[h].kind == "identifier"@ && m == h
    ||| nodes[h].kind == "scoped_identifier"@ && is_child_as(nodes, h, m, "name"@)
    ||| nodes[h].kind == "field_expression"@ && is_child_as(nodes, h, m, "field"@)
}

/// Whether node `i` is a call whose function, node `f`, is node `h` or has type arguments around it,
/// and node `m` is what that is called by, with the text `name`.
pub open spec fn is_rust_call(
    content: Seq<char>,
    nodes: Seq<Syntax>,
    i: int,
    f: int,
    h: int,
    m: int,
    name: Seq<char>,
) -> bool {
    &&& nodes[i].kind == "call_expression"@
    &&& is_child_as(nodes, i, f, "function"@)
    &&& h == f || (f < h < nodes.len() && nodes[f].kind == "generic_function"@)
    &&& named_by(nodes, h, m)
    &&& node_text(content, nodes[m]) == Some(name)
    &&& name.len() > 0
}

proof fn lemma_rust_callee(content: Seq<char>, nodes: Seq<Syntax>, f: int) -> (hm: (int, int))
    requires
        0 <= f < nodes.len(),
        rust_callee(content, nodes, f) is Some,
    ensures
        hm.0 == f || (f < hm.0 < nodes.len() && nodes[f].kind == "generic_function"@),
        named_by(nodes, hm.0, hm.1),
        node_text(content, nodes[hm.1]) == rust_callee(content, nodes, f),
        (rust_callee(content, nodes, f)->0).len() > 0,
    decreases nodes.len() - f,
{
    law_child_in_role(nodes, f, "name"@);
    law_child_in_role(nodes, f, "field"@);
    law_child_in_role(nodes, f, "function"@);
    if nodes[f].kind == "identifier"@ {
        (f, f)
    } else if nodes[f].kind == "scoped_identifier"@ {
        (f, child_in_role(nodes, f, "name"@)->0)
    } else if nodes[f].kind == "field_expression"@ {
        (f, child_in_role(nodes, f, "field"@)->0)
    } else {
        lemma_rust_callee(content, nodes, child_in_role(nodes, f, "function"@)->0)
    }
}

proof fn lemma_named_by(content: Seq<char>, nodes: Seq<Syntax>, h: int, m: int, name: Seq<char>)
    requires
        0 <= h < nodes.len(),
        named_by(nodes, h, m),
        node_text(content, nodes[m]) == Some(name),
        name.len() > 0,
    ensures
        rust_callee(content, nodes, h) == Some(name),
{
    law_child_in_role(nodes, h, "name"@);
    law_child_in_role(nodes, h, "field"@);
    lemma_kinds_apart();
    if nodes[h].kind == "scoped_identifier"@ {
        assert(is_child_as(nodes, h, m, "name"@));
    }
    if nodes[h].kind == "field_expression"@ {
        assert(is_child_as(nodes, h, m, "field"@));
    }
}

proof fn lemma_kinds_apart()
    ensures
        "identifier"@ != "scoped_identifier"@,
        "identifier"@ != "field_expression"@,
        "identifier"@ != "generic_function"@,
        "scoped_identifier"@ != "field_expression"@,
        "scoped_identifier"@ != "generic_function"@,
        "field_expression"@ != "generic_function"@,
        "call_expression"@ != "type_identifier"@,
{
    reveal_strlit("identifier");
    reveal_strlit("scoped_identifier");
    reveal_strlit("field_expression");
    reveal_strlit("generic_function");
    reveal_strlit("call_expression");
    reveal_strlit("type_identifier");
    assert("identifier"@.len() == 10);
    assert("scoped_identifier"@.len() == 17);
    assert("field_expression"@.len() == 16);
    assert("field_expression"@[0] == 'f');
    assert("generic_function"@[0] == 'g');
    assert("generic_function"@.len() == 16);
    assert("call_expression"@[0] == 'c');
    assert("type_identifier"@[0] == 't');
}

/// Law: every call in a Rust file is an edge to what is called: a plain name, the last name of a path,
/// or the name of the method, with type arguments or without.
pub proof fn law_rust_calls(
    content: Seq<char>,
    nodes: Seq<Syntax>,
    file_syms: Seq<Seq<char>>,
    i: int,
    f: int,
    h: int,
    m: int,
    name: Seq<char>,
)
    requires
        walk_all(nodes).contains(i),
        is_rust_call(content, nodes, i, f, h, m, name),
        h == f || is_child_as(nodes, f, h, "function"@),
    ensures
        has_edge(file_edges(content, nodes, Lang::Rust, file_syms), name, EdgeKind::Calls),
{
    law_walk(nodes);
    law_child_in_role(nodes, i, "function"@);
    assert(is_child_as(nodes, i, f, "function"@));
    lemma_named_by(content, nodes, h, m, name);
    if h != f {
        law_child_in_role(nodes, f, "function"@);
        lemma_kinds_apart();
        assert(is_child_as(nodes, f, h, "function"@));
        assert(rust_callee(content, nodes, f) == Some(name));
    }
    lemma_reference_kept(content, nodes, Lang::Rust, file_syms, i);
}

/// Law: every call edge of a Rust file stands for a call in it, on the line of the edge, and names what
/// is called there: never the receiver of a method, nor the front of a path.
pub proof fn law_rust_calls_only(content: Seq<char>, nodes: Seq<Syntax>, file_syms: Seq<Seq<char>>, e: Edge)
    requires
        file_edges(content, nodes, Lang::Rust, file_syms).contains(e),
        e.edge_kind == EdgeKind::Calls,
    ensures
        exists|i: int, f: int, h: int, m: int, name: Seq<char>| #[trigger]
            is_rust_call(content, nodes, i, f, h, m, name) && walk_all(nodes).contains(i) && e.dst_sym
                == "sym:"@ + name && (nodes[i].start_row < u64::MAX ==> e.src_line == Some(
                (nodes[i].start_row + 1) as u64,
            )),
{
    let i = lemma_reference_found(content, nodes, Lang::Rust, file_syms, e);
    if nodes.len() == 0 {
        assert(walk_all(nodes).len() == 0);
    }
    law_walk(nodes);
    law_child_in_role(nodes, i, "function"@);
    let f = child_in_role(nodes, i, "function"@)->0;
    assert(is_child_as(nodes, i, f, "function"@));
    let (h, m) = lemma_rust_callee(content, nodes, f);
    assert(is_rust_call(content, nodes, i, f, h, m, rust_callee(content, nodes, f)->0));
}

/// Whether node `m` is what node `f` is called by in C or C++: a plain name by itself, a method call by
/// the name of the method, a template by its name, a qualified name by its last name.
pub open spec fn named_in_cpp_by(nodes: Seq<Syntax>, f: int, m: int) -> bool {
    ||| nodes[f].kind == "identifier"@ && m == f
    ||| nodes[f].kind == "field_expression"@ && is_child_as(nodes, f, m, "field"@)
    ||| nodes[f].kind == "template_function"@ && is_child_as(nodes, f, m, "name"@)
    ||| nodes[f].kind == "qualified_identifier"@ && is_child_as(nodes, f, m, "name"@) && nodes[m].kind
        == "identifier"@
}

/// Law: every call in a C or C++ file of a plain name, of a method, of a template or of a qualified name
/// is an edge to that name.
pub proof fn law_cpp_calls(
    content: Seq<char>,
    nodes: Seq<Syntax>,
    lang: Lang,
    file_syms: Seq<Seq<char>>,
    i: int,
    f: int,
    m: int,
    name: Seq<char>,
)
    requires
        lang == Lang::C || lang == Lang::Cpp,
        walk_all(nodes).contains(i),
        nodes[i].kind == "call_expression"@,
        is_child_as(nodes, i, f, "function"@),
        named_in_cpp_by(nodes, f, m),
        node_text(content, nodes[m]) == Some(name),
        name.len() > 0,
    ensures
        has_edge(file_edges(content, nodes, lang, file_syms), name, EdgeKind::Calls),
{
    law_walk(nodes);
    law_child_in_role(nodes, i, "function"@);
    law_child_in_role(nodes, f, "field"@);
    law_child_in_role(nodes, f, "name"@);
    lemma_kinds_apart();
    reveal_strlit("identifier");
    reveal_strlit("field_expression");
    reveal_strlit("template_function");
    reveal_strlit("qualified_identifier");
    reveal_strlit("field_identifier");
    reveal_strlit("type_identifier");
    reveal_strlit("namespace_identifier");
    reveal_strlit("destructor_name");
    reveal_strlit("operator_name");
    assert("field_expression"@[0] == 'f');
    assert("template_function"@[0] == 't');
    assert("qualified_identifier"@[0] == 'q');
    assert("identifier"@[0] == 'i');
    assert("field_identifier"@[0] == 'f');
    assert("type_identifier"@[0] == 't');
    assert("namespace_identifier"@[0] == 'n');
    assert("destructor_name"@[0] == 'd');
    assert("operator_name"@[0] == 'o');
    if nodes[f].kind == "qualified_identifier"@ {
        assert(declared_name(content, nodes, m) == Some(name));
        assert(declared_name(content, nodes, f) == Some(name));
    }
    assert(cpp_callee(content, nodes, f) == Some(name));
    lemma_reference_kept(content, nodes, lang, file_syms, i);
}

/// Law: every type that a file names is an edge, and every such edge names a type of the file, on the
/// line of the edge.
pub proof fn law_type_uses(content: Seq<char>, nodes: Seq<Syntax>, lang: Lang, file_syms: Seq<Seq<char>>)
    ensures
        forall|i: int, name: Seq<char>|
            walk_all(nodes).contains(i) && nodes[i].kind == "type_identifier"@ && name.len() > 0
                && #[trigger] node_text(content, nodes[i]) == Some(name) ==> #[trigger] has_edge(
                file_edges(content, nodes, lang, file_syms),
                name,
                EdgeKind::UsesType,
            ),
        forall|e: Edge| #[trigger]
            file_edges(content, nodes, lang, file_syms).contains(e) && e.edge_kind == EdgeKind::UsesType
                ==> exists|i: int| #[trigger]
                walk_all(nodes).contains(i) && nodes[i].kind == "type_identifier"@ && node_text(
                    content,
                    nodes[i],
                ) is Some && e.dst_sym == "sym:"@ + node_text(content, nodes[i])->0 && (nodes[i].start_row
                    < u64::MAX ==> e.src_line == Some((nodes[i].start_row + 1) as u64)),
{
    lemma_kinds_apart();
    assert forall|i: int, name: Seq<char>|
        walk_all(nodes).contains(i) && nodes[i].kind == "type_identifier"@ && name.len() > 0
            && #[trigger] node_text(content, nodes[i]) == Some(name) implies #[trigger] has_edge(
        file_edges(content, nodes, lang, file_syms),
        name,
        EdgeKind::UsesType,
    ) by {
        assert(reference_at(content, nodes, lang, i) == Some((name, EdgeKind::UsesType)));
        lemma_reference_kept(content, nodes, lang, file_syms, i);
    }
    assert forall|e: Edge| #[trigger]
        file_edges(content, nodes, lang, file_syms).contains(e) && e.edge_kind == EdgeKind::UsesType implies exists|
        i: int,
    | #[trigger]
        walk_all(nodes).contains(i) && nodes[i].kind == "type_identifier"@ && node_text(content, nodes[i])
            is Some && e.dst_sym == "sym:"@ + node_text(content, nodes[i])->0 && (nodes[i].start_row < u64::MAX
            ==> e.src_line == Some((nodes[i].start_row + 1) as u64)) by {
        let i = lemma_reference_found(content, nodes, lang, file_syms, e);
        assert(walk_all(nodes).contains(i));
    }
}

/// Law: how sure an edge is depends on its name alone, not on where or how often it occurs: a name that
/// the file defines counts 100, one that it only imports 60, any other 30. In Rust, `self`, `super` and
/// `crate` are imported without an edge.
pub proof fn law_edge_confidence(
    content: Seq<char>,
    nodes: Seq<Syntax>,
    lang: Lang,
    file_syms: Seq<Seq<char>>,
    e: Edge,
    name: Seq<char>,
)
    requires
        file_edges(content, nodes, lang, file_syms).contains(e),
        e.dst_sym == "sym:"@ + name,
        name.len() > 0,
        lang == Lang::Rust ==> name != "self"@ && name != "super"@ && name != "crate"@,
    ensures
        file_syms.contains(name) ==> e.confidence == 100,
        !file_syms.contains(name) && has_edge(
            file_edges(content, nodes, lang, file_syms),
            name,
            EdgeKind::Imports,
        ) ==> e.confidence == 60,
        !file_syms.contains(name) && !has_edge(
            file_edges(content, nodes, lang, file_syms),
            name,
            EdgeKind::Imports,
        ) ==> e.confidence == 30,
{
    let imports = file_imports(content, nodes, lang);
    lemma_confidence(content, nodes, lang, file_syms, e, name);
    lemma_file_edge_kept(content, nodes, lang, file_syms, name, EdgeKind::Imports);
    if imports.contains(name) {
        lemma_import_kept(content, nodes, lang, file_syms, name);
    } else if has_edge(all_edges(content, nodes, lang, file_syms), name, EdgeKind::Imports) {
        lemma_imports_only(content, nodes, lang, file_syms, name);
    }
}

/// An imported name that counts is an import edge.
proof fn lemma_import_kept(
    content: Seq<char>,
    nodes: Seq<Syntax>,
    lang: Lang,
    file_syms: Seq<Seq<char>>,
    name: Seq<char>,
)
    requires
        file_imports(content, nodes, lang).contains(name),
        import_counts(lang, name),
    ensures
        has_edge(file_edges(content, nodes, lang, file_syms), name, EdgeKind::Imports),
{
    let imports = file_imports(content, nodes, lang);
    let start = import_edges(lang, imports, file_syms, imports);
    let all = all_edges(content, nodes, lang, file_syms);
    lemma_import_edges(lang, imports, file_syms, imports);
    lemma_reference_edges(content, nodes, lang, walk_all(nodes), file_syms, imports, start);
    let k = choose|k: int| 0 <= k < imports.len() && imports[k] == name;
    assert(import_counts(lang, imports[k]));
    let b = choose|b: int|
        0 <= b < start.len() && (#[trigger] start[b]).dst_sym == "sym:"@ + name && start[b].edge_kind
            == EdgeKind::Imports;
    assert(all.contains(start[b]));
    let c = choose|c: int| 0 <= c < all.len() && all[c] == start[b];
    assert(all[c].dst_sym == "sym:"@ + name);
    lemma_file_edge_kept(content, nodes, lang, file_syms, name, EdgeKind::Imports);
}

/// How sure an edge is follows from its name.
proof fn lemma_confidence(
    content: Seq<char>,
    nodes: Seq<Syntax>,
    lang: Lang,
    file_syms: Seq<Seq<char>>,
    e: Edge,
    name: Seq<char>,
)
    requires
        file_edges(content, nodes, lang, file_syms).contains(e),
        e.dst_sym == "sym:"@ + name,
    ensures
        e.confidence == confidence_of(name, file_syms, file_imports(content, nodes, lang)),
{
    let imports = file_imports(content, nodes, lang);
    if e.edge_kind == EdgeKind::Imports {
        let start = import_edges(lang, imports, file_syms, imports);
        let visited = walk_all(nodes);
        let all = all_edges(content, nodes, lang, file_syms);
        let kept = file_edges(content, nodes, lang, file_syms);
        law_dedup(all);
        lemma_reference_edges(content, nodes, lang, visited, file_syms, imports, start);
        lemma_import_edges(lang, imports, file_syms, imports);
        let a = choose|a: int| 0 <= a < kept.len() && kept[a] == e;
        assert(all.contains(kept[a]));
        let m = choose|m: int| 0 <= m < all.len() && all[m] == e;
        if start.contains(all[m]) {
            let b = choose|b: int| 0 <= b < start.len() && start[b] == e;
            let k = choose|k: int|
                0 <= k < imports.len() && start[b].dst_sym == "sym:"@ + #[trigger] imports[k]
                    && start[b].confidence == confidence_of(imports[k], file_syms, imports) && import_counts(
                    lang,
                    imports[k],
                );
            lemma_symbol_injective(name, imports[k]);
        } else {
            let k = choose|k: int|
                0 <= k < visited.len() && comes_from(
                    content,
                    nodes,
                    lang,
                    file_syms,
                    imports,
                    #[trigger] visited[k],
                    all[m],
                );
            assert((reference_at(content, nodes, lang, visited[k])->0).1 != EdgeKind::Imports);
        }
    } else {
        let i = lemma_reference_found(content, nodes, lang, file_syms, e);
        lemma_symbol_injective(name, (reference_at(content, nodes, lang, i)->0).0);
    }
}

/// An import edge names an imported name.
proof fn lemma_imports_only(
    content: Seq<char>,
    nodes: Seq<Syntax>,
    lang: Lang,
    file_syms: Seq<Seq<char>>,
    name: Seq<char>,
)
    requires
        has_edge(all_edges(content, nodes, lang, file_syms), name, EdgeKind::Imports),
    ensures
        file_imports(content, nodes, lang).contains(name),
{
    let imports = file_imports(content, nodes, lang);
    let start = import_edges(lang, imports, file_syms, imports);
    let visited = walk_all(nodes);
    let all = all_edges(content, nodes, lang, file_syms);
    lemma_reference_edges(content, nodes, lang, visited, file_syms, imports, start);
    lemma_import_edges(lang, imports, file_syms, imports);
    let m = choose|m: int|
        0 <= m < all.len() && (#[trigger] all[m]).dst_sym == "sym:"@ + name && all[m].edge_kind
            == EdgeKind::Imports;
    if start.contains(all[m]) {
        let b = choose|b: int| 0 <= b < start.len() && start[b] == all[m];
        let k = choose|k: int|
            0 <= k < imports.len() && start[b].dst_sym == "sym:"@ + #[trigger] imports[k] && start[b].confidence
                == confidence_of(imports[k], file_syms, imports) && import_counts(lang, imports[k]);
        lemma_symbol_injective(name, imports[k]);
    } else {
        let k = choose|k: int|
            0 <= k < visited.len() && comes_from(
                content,
                nodes,
                lang,
                file_syms,
                imports,
                #[trigger] visited[k],
                all[m],
            );
        assert((reference_at(content, nodes, lang, visited[k])->0).1 != EdgeKind::Imports);
    }
}

// ---------------------------------------------------------------------------------------------
// What the imports of a file say of it.
// ---------------------------------------------------------------------------------------------

/// Whether the use tree at node `i` leads to node `leaf` in so many steps: from a list to one of its
/// items, from a path with a list to that list.
pub open spec fn leads_to(nodes: Seq<Syntax>, i: int, leaf: int, steps: nat) -> bool
    decreases steps,
{
    if steps == 0 {
        i == leaf && 0 <= i < nodes.len()
    } else {
        ||| nodes[i].kind == "use_list"@ && exists|k: int| #[trigger]
            is_child(nodes, i, k) && nodes[k].named && leads_to(nodes, k, leaf, (steps - 1) as nat)
        ||| nodes[i].kind == "scoped_use_list"@ && exists|k: int| #[trigger]
            is_child_as(nodes, i, k, "list"@) && leads_to(nodes, k, leaf, (steps - 1) as nat)
    }
}

/// Whether node `m` is the name that node `leaf` of a use tree brings in: a plain name itself, of a path
/// the last name, of an alias the alias.
pub open spec fn brought_in_by(nodes: Seq<Syntax>, leaf: int, m: int) -> bool {
    ||| nodes[leaf].kind == "identifier"@ && m == leaf
    ||| nodes[leaf].kind == "scoped_identifier"@ && is_child_as(nodes, leaf, m, "name"@)
    ||| nodes[leaf].kind == "use_as_clause"@ && is_child_as(nodes, leaf, m, "alias"@)
}

proof fn lemma_use_kinds_apart()
    ensures
        "use_list"@ != "scoped_identifier"@,
        "use_list"@ != "identifier"@,
        "use_list"@ != "scoped_use_list"@,
        "use_list"@ != "use_as_clause"@,
        "scoped_use_list"@ != "scoped_identifier"@,
        "scoped_use_list"@ != "identifier"@,
        "scoped_use_list"@ != "use_as_clause"@,
        "use_as_clause"@ != "identifier"@,
        "use_as_clause"@ != "scoped_identifier"@,
        "identifier"@ != "scoped_identifier"@,
{
    reveal_strlit("use_list");
    reveal_strlit("scoped_use_list");
    reveal_strlit("use_as_clause");
    reveal_strlit("identifier");
    reveal_strlit("scoped_identifier");
    assert("use_list"@.len() == 8);
    assert("scoped_use_list"@.len() == 15);
    assert("use_as_clause"@.len() == 13);
    assert("identifier"@.len() == 10);
    assert("scoped_identifier"@.len() == 17);
}

proof fn lemma_use_names_of(content: Seq<char>, nodes: Seq<Syntax>, kids: Seq<int>, fuel: nat)
    ensures
        forall|t: Seq<char>| #[trigger]
            use_names_of(content, nodes, kids, fuel).contains(t) <==> exists|k: int|
                0 <= k < kids.len() && use_names(content, nodes, #[trigger] kids[k], fuel).contains(t),
    decreases kids.len(),
{
    if kids.len() > 0 {
        let head = kids.drop_last();
        lemma_use_names_of(content, nodes, head, fuel);
        let a = use_names_of(content, nodes, head, fuel);
        let b = use_names(content, nodes, kids.last(), fuel);
        let all = use_names_of(content, nodes, kids, fuel);
        assert(kids[kids.len() - 1] == kids.last());
        assert forall|t: Seq<char>| #[trigger] all.contains(t) <==> exists|k: int|
            0 <= k < kids.len() && use_names(content, nodes, #[trigger] kids[k], fuel).contains(t) by {
            lemma_in_either(a, b, t);
            if a.contains(t) {
                let k = choose|k: int|
                    0 <= k < head.len() && use_names(content, nodes, #[trigger] head[k], fuel).contains(t);
                assert(kids[k] == head[k]);
            }
            if exists|k: int|
                0 <= k < kids.len() && use_names(content, nodes, #[trigger] kids[k], fuel).contains(t) {
                let k = choose|k: int|
                    0 <= k < kids.len() && use_names(content, nodes, #[trigger] kids[k], fuel).contains(t);
                if k < head.len() {
                    assert(head[k] == kids[k]);
                }
            }
        }
    }
}

proof fn lemma_in_either(a: Seq<Seq<char>>, b: Seq<Seq<char>>, t: Seq<char>)
    ensures
        (a + b).contains(t) <==> a.contains(t) || b.contains(t),
{
    if a.contains(t) {
        let k = choose|k: int| 0 <= k < a.len() && a[k] == t;
        assert((a + b)[k] == t);
    }
    if b.contains(t) {
        let k = choose|k: int| 0 <= k < b.len() && b[k] == t;
        assert((a + b)[a.len() + k] == t);
    }
    if (a + b).contains(t) {
        let k = choose|k: int| 0 <= k < (a + b).len() && (a + b)[k] == t;
        if k < a.len() {
            assert(a[k] == t);
        } else {
            assert(b[k - a.len()] == t);
        }
    }
}

proof fn lemma_leads_to_names(
    content: Seq<char>,
    nodes: Seq<Syntax>,
    i: int,
    leaf: int,
    steps: nat,
    fuel: nat,
    m: int,
    name: Seq<char>,
)
    requires
        0 <= i < nodes.len(),
        leads_to(nodes, i, leaf, steps),
        steps < fuel,
        brought_in_by(nodes, leaf, m),
        node_text(content, nodes[m]) == Some(name),
    ensures
        use_names(content, nodes, i, fuel).contains(name),
    decreases steps,
{
    lemma_use_kinds_apart();
    law_child_in_role(nodes, i, "name"@);
    law_child_in_role(nodes, i, "alias"@);
    law_child_in_role(nodes, i, "list"@);
    if steps == 0 {
        if nodes[leaf].kind == "scoped_identifier"@ {
            assert(is_child_as(nodes, leaf, m, "name"@));
        } else if nodes[leaf].kind == "use_as_clause"@ {
            assert(is_child_as(nodes, leaf, m, "alias"@));
        }
        assert(use_names(content, nodes, i, fuel) == seq![name]);
        assert(seq![name][0] == name);
    } else if nodes[i].kind == "use_list"@ {
        let k = choose|k: int| #[trigger]
            is_child(nodes, i, k) && nodes[k].named && leads_to(nodes, k, leaf, (steps - 1) as nat);
        lemma_leads_to_names(content, nodes, k, leaf, (steps - 1) as nat, (fuel - 1) as nat, m, name);
        law_children(nodes, i);
        let kids = named_children(nodes, i);
        assert(kids.contains(k));
        let a = choose|a: int| 0 <= a < kids.len() && kids[a] == k;
        lemma_use_names_of(content, nodes, kids, (fuel - 1) as nat);
        assert(use_names(content, nodes, kids[a], (fuel - 1) as nat).contains(name));
        assert(use_names_of(content, nodes, kids, (fuel - 1) as nat).contains(name));
    } else {
        let k = choose|k: int| #[trigger]
            is_child_as(nodes, i, k, "list"@) && leads_to(nodes, k, leaf, (steps - 1) as nat);
        lemma_leads_to_names(content, nodes, k, leaf, (steps - 1) as nat, (fuel - 1) as nat, m, name);
    }
}

proof fn lemma_leads_down(nodes: Seq<Syntax>, i: int, leaf: int, steps: nat)
    requires
        leads_to(nodes, i, leaf, steps),
    ensures
        i + steps <= leaf < nodes.len(),
    decreases steps,
{
    if steps > 0 {
        if nodes[i].kind == "use_list"@ && exists|k: int| #[trigger]
            is_child(nodes, i, k) && nodes[k].named && leads_to(nodes, k, leaf, (steps - 1) as nat) {
            let k = choose|k: int| #[trigger]
                is_child(nodes, i, k) && nodes[k].named && leads_to(nodes, k, leaf, (steps - 1) as nat);
            lemma_leads_down(nodes, k, leaf, (steps - 1) as nat);
        } else {
            let k = choose|k: int| #[trigger]
                is_child_as(nodes, i, k, "list"@) && leads_to(nodes, k, leaf, (steps - 1) as nat);
            lemma_leads_down(nodes, k, leaf, (steps - 1) as nat);
        }
    }
}

proof fn lemma_names_lead(content: Seq<char>, nodes: Seq<Syntax>, i: int, fuel: nat, name: Seq<char>) -> (r: (
    int,
    nat,
    int,
))
    requires
        use_names(content, nodes, i, fuel).contains(name),
    ensures
        0 <= i < nodes.len(),
        leads_to(nodes, i, r.0, r.1),
        brought_in_by(nodes, r.0, r.2),
        node_text(content, nodes[r.2]) == Some(name),
    decreases fuel,
{
    let all = use_names(content, nodes, i, fuel);
    let z = choose|z: int| 0 <= z < all.len() && all[z] == name;
    law_child_in_role(nodes, i, "name"@);
    law_child_in_role(nodes, i, "alias"@);
    law_child_in_role(nodes, i, "list"@);
    if nodes[i].kind == "scoped_identifier"@ {
        (i, 0, child_in_role(nodes, i, "name"@)->0)
    } else if nodes[i].kind == "identifier"@ {
        (i, 0, i)
    } else if nodes[i].kind == "use_list"@ {
        let kids = named_children(nodes, i);
        lemma_use_names_of(content, nodes, kids, (fuel - 1) as nat);
        assert(use_names_of(content, nodes, kids, (fuel - 1) as nat).contains(name));
        let a = choose|a: int|
            0 <= a < kids.len() && use_names(content, nodes, #[trigger] kids[a], (fuel - 1) as nat).contains(
                name,
            );
        let (leaf, steps, m) = lemma_names_lead(content, nodes, kids[a], (fuel - 1) as nat, name);
        law_children(nodes, i);
        assert(kids.contains(kids[a]));
        assert(is_child(nodes, i, kids[a]));
        (leaf, steps + 1, m)
    } else if nodes[i].kind == "scoped_use_list"@ {
        let c = child_in_role(nodes, i, "list"@)->0;
        let (leaf, steps, m) = lemma_names_lead(content, nodes, c, (fuel - 1) as nat, name);
        assert(is_child_as(nodes, i, c, "list"@));
        (leaf, steps + 1, m)
    } else {
        (i, 0, child_in_role(nodes, i, "alias"@)->0)
    }
}

proof fn lemma_imports_among(content: Seq<char>, nodes: Seq<Syntax>, lang: Lang, visited: Seq<int>)
    ensures
        forall|t: Seq<char>| #[trigger]
            imports_among(content, nodes, lang, visited).contains(t) <==> exists|k: int|
                0 <= k < visited.len() && imports_at(content, nodes, lang, #[trigger] visited[k]).contains(t),
    decreases visited.len(),
{
    if visited.len() > 0 {
        let head = visited.drop_last();
        lemma_imports_among(content, nodes, lang, head);
        let a = imports_among(content, nodes, lang, head);
        let b = imports_at(content, nodes, lang, visited.last());
        assert(visited[visited.len() - 1] == visited.last());
        assert forall|t: Seq<char>| #[trigger]
            imports_among(content, nodes, lang, visited).contains(t) <==> exists|k: int|
                0 <= k < visited.len() && imports_at(content, nodes, lang, #[trigger] visited[k]).contains(t) by {
            lemma_in_either(a, b, t);
            if a.contains(t) {
                let k = choose|k: int|
                    0 <= k < head.len() && imports_at(content, nodes, lang, #[trigger] head[k]).contains(t);
                assert(visited[k] == head[k]);
            }
            if exists|k: int|
                0 <= k < visited.len() && imports_at(content, nodes, lang, #[trigger] visited[k]).contains(t) {
                let k = choose|k: int|
                    0 <= k < visited.len() && imports_at(content, nodes, lang, #[trigger] visited[k]).contains(t);
                if k < head.len() {
                    assert(head[k] == visited[k]);
                }
            }
        }
    }
}

proof fn lemma_file_imports(content: Seq<char>, nodes: Seq<Syntax>, lang: Lang, t: Seq<char>)
    ensures
        file_imports(content, nodes, lang).contains(t) <==> exists|i: int| #[trigger]
            walk_all(nodes).contains(i) && imports_at(content, nodes, lang, i).contains(t),
{
    let visited = walk_all(nodes);
    let all = imports_among(content, nodes, lang, visited);
    lemma_sorted_set(all);
    lemma_imports_among(content, nodes, lang, visited);
    if file_imports(content, nodes, lang).contains(t) {
        assert(all.contains(t));
        let k = choose|k: int|
            0 <= k < visited.len() && imports_at(content, nodes, lang, #[trigger] visited[k]).contains(t);
        assert(visited.contains(visited[k]));
    }
    if exists|i: int| #[trigger] walk_all(nodes).contains(i) && imports_at(content, nodes, lang, i).contains(t) {
        let i = choose|i: int| #[trigger]
            walk_all(nodes).contains(i) && imports_at(content, nodes, lang, i).contains(t);
        let k = choose|k: int| 0 <= k < visited.len() && visited[k] == i;
        assert(imports_at(content, nodes, lang, visited[k]).contains(t));
        assert(all.contains(t));
    }
}

/// Law: every name that a use declaration of a Rust file brings in is an import edge: the last name of
/// a path, every name of a list, however deep, and the alias in place of the name that it renames.
pub proof fn law_rust_imports(
    content: Seq<char>,
    nodes: Seq<Syntax>,
    file_syms: Seq<Seq<char>>,
    i: int,
    root: int,
    leaf: int,
    steps: nat,
    m: int,
    name: Seq<char>,
)
    requires
        walk_all(nodes).contains(i),
        nodes[i].kind == "use_declaration"@,
        is_child_as(nodes, i, root, "argument"@),
        leads_to(nodes, root, leaf, steps),
        brought_in_by(nodes, leaf, m),
        node_text(content, nodes[m]) == Some(name),
        name.len() > 0,
        name != "self"@ && name != "super"@ && name != "crate"@,
    ensures
        has_edge(file_edges(content, nodes, Lang::Rust, file_syms), name, EdgeKind::Imports),
{
    law_walk(nodes);
    law_child_in_role(nodes, i, "argument"@);
    lemma_leads_down(nodes, root, leaf, steps);
    lemma_leads_to_names(content, nodes, root, leaf, steps, nodes.len(), m, name);
    assert(imports_at(content, nodes, Lang::Rust, i).contains(name));
    lemma_imported_kept(content, nodes, Lang::Rust, file_syms, i, name);
}

/// A name that a visited node brings in is an import edge of the file.
proof fn lemma_imported_kept(
    content: Seq<char>,
    nodes: Seq<Syntax>,
    lang: Lang,
    file_syms: Seq<Seq<char>>,
    i: int,
    name: Seq<char>,
)
    requires
        walk_all(nodes).contains(i),
        imports_at(content, nodes, lang, i).contains(name),
        import_counts(lang, name),
    ensures
        has_edge(file_edges(content, nodes, lang, file_syms), name, EdgeKind::Imports),
{
    lemma_file_imports(content, nodes, lang, name);
    lemma_import_kept(content, nodes, lang, file_syms, name);
}

/// Law: every import edge of a Rust file names what one of its use declarations brings in.
pub proof fn law_rust_imports_only(content: Seq<char>, nodes: Seq<Syntax>, file_syms: Seq<Seq<char>>, name: Seq<char>)
    requires
        has_edge(file_edges(content, nodes, Lang::Rust, file_syms), name, EdgeKind::Imports),
    ensures
        exists|i: int, root: int, leaf: int, steps: nat, m: int|
            #![trigger is_child_as(nodes, i, root, "argument"@), leads_to(nodes, root, leaf, steps), brought_in_by(nodes, leaf, m)]
            walk_all(nodes).contains(i) && nodes[i].kind == "use_declaration"@ && is_child_as(
                nodes,
                i,
                root,
                "argument"@,
            ) && leads_to(nodes, root, leaf, steps) && brought_in_by(nodes, leaf, m) && node_text(
                content,
                nodes[m],
            ) == Some(name),
{
    lemma_file_edge_kept(content, nodes, Lang::Rust, file_syms, name, EdgeKind::Imports);
    lemma_imports_only(content, nodes, Lang::Rust, file_syms, name);
    lemma_file_imports(content, nodes, Lang::Rust, name);
    let i = choose|i: int| #[trigger]
        walk_all(nodes).contains(i) && imports_at(content, nodes, Lang::Rust, i).contains(name);
    if nodes.len() == 0 {
        assert(walk_all(nodes).len() == 0);
    }
    law_walk(nodes);
    law_child_in_role(nodes, i, "argument"@);
    let root = child_in_role(nodes, i, "argument"@)->0;
    assert(is_child_as(nodes, i, root, "argument"@));
    let (leaf, steps, m) = lemma_names_lead(content, nodes, root, nodes.len(), name);
    assert(leads_to(nodes, root, leaf, steps) && brought_in_by(nodes, leaf, m));
}

proof fn lemma_include_names(content: Seq<char>, nodes: Seq<Syntax>, kids: Seq<int>, k: int, name: Seq<char>)
    requires
        0 <= k < kids.len(),
        node_text(content, nodes[kids[k]]) is Some,
        include_stem(node_text(content, nodes[kids[k]])->0) == name,
        name.len() > 0,
    ensures
        include_names(content, nodes, kids).contains(name),
    decreases kids.len(),
{
    let head = kids.drop_last();
    let before = include_names(content, nodes, head);
    let all = include_names(content, nodes, kids);
    if k < head.len() {
        lemma_include_names(content, nodes, head, k, name);
        let z = choose|z: int| 0 <= z < before.len() && before[z] == name;
        assert(all[z] == name);
    } else {
        assert(all[before.len() as int] == name);
    }
}

/// Law: an include of a C or C++ file is an import edge to the name of the included file, without the
/// brackets or quotes around it, its directories and its extension.
pub proof fn law_include_edges(
    content: Seq<char>,
    nodes: Seq<Syntax>,
    lang: Lang,
    file_syms: Seq<Seq<char>>,
    i: int,
    k: int,
    open: char,
    close: char,
    dir: Seq<char>,
    stem: Seq<char>,
    ext: Seq<char>,
)
    requires
        lang == Lang::C || lang == Lang::Cpp,
        walk_all(nodes).contains(i),
        nodes[i].kind == "preproc_include"@,
        is_child(nodes, i, k),
        nodes[k].named,
        (open == '"' && close == '"') || (open == '<' && close == '>'),
        node_text(content, nodes[k]) == Some(
            seq![open] + dir + stem + seq!['.'] + ext + seq![close],
        ),
        dir.len() == 0 || dir.last() == '/',
        stem.len() > 0,
        !stem.contains('/'),
        !ext.contains('/') && !ext.contains('.'),
        ext.len() > 0,
        forall|c: char| #[trigger]
            (dir + stem + ext).contains(c) ==> !crate::text::is_white_space(c) && c != '<' && c != '>' && c
                != '"',
    ensures
        has_edge(file_edges(content, nodes, lang, file_syms), stem, EdgeKind::Imports),
{
    law_walk(nodes);
    law_children(nodes, i);
    let kids = named_children(nodes, i);
    assert(kids.contains(k));
    let a = choose|a: int| 0 <= a < kids.len() && kids[a] == k;
    lemma_include_stem(open, close, dir, stem, ext);
    lemma_include_names(content, nodes, kids, a, stem);
    assert(imports_at(content, nodes, lang, i).contains(stem));
    lemma_imported_kept(content, nodes, lang, file_syms, i, stem);
}

proof fn lemma_include_stem(open: char, close: char, dir: Seq<char>, stem: Seq<char>, ext: Seq<char>)
    requires
        (open == '"' && close == '"') || (open == '<' && close == '>'),
        dir.len() == 0 || dir.last() == '/',
        stem.len() > 0,
        !stem.contains('/'),
        !ext.contains('/') && !ext.contains('.'),
        ext.len() > 0,
        forall|c: char| #[trigger]
            (dir + stem + ext).contains(c) ==> !crate::text::is_white_space(c) && c != '<' && c != '>' && c
                != '"',
    ensures
        include_stem(seq![open] + dir + stem + seq!['.'] + ext + seq![close]) == stem,
{
    let name = stem + seq!['.'] + ext;
    let inner = dir + name;
    let raw = seq![open] + dir + stem + seq!['.'] + ext + seq![close];
    let all = dir + stem + ext;
    assert(raw =~= seq![open] + inner + seq![close]);
    assert(raw.skip(1) =~= inner + seq![close]);
    assert(all.contains(all[0]));
    assert(inner[0] == all[0]) by {
        if dir.len() == 0 {
            assert(inner[0] == stem[0]);
            assert(all[0] == stem[0]);
        }
    }
    assert((inner + seq![close])[0] == inner[0]);
    assert(strip_front(raw.skip(1)) == raw.skip(1));
    assert(strip_front(raw) == raw.skip(1));
    let r = raw.skip(1);
    assert(r.drop_last() =~= inner);
    assert(all[all.len() - 1] == ext.last());
    assert(all.contains(all[all.len() - 1]));
    assert(inner.last() == ext.last());
    assert(strip_back(inner) == inner);
    assert(strip_back(r) == inner);
    assert(trim_text(inner) == inner);
    assert(!name.contains('/')) by {
        if name.contains('/') {
            let k = choose|k: int| 0 <= k < name.len() && name[k] == '/';
            if k < stem.len() {
                assert(stem[k] == '/');
            } else if k > stem.len() {
                assert(ext[k - stem.len() - 1] == '/');
            }
        }
    }
    if dir.len() == 0 {
        assert(inner =~= name);
        crate::text::lemma_split_whole(name, '/');
    } else {
        let front = dir.drop_last();
        assert(inner =~= front + seq!['/'] + name);
        crate::text::lemma_last_of_join(front, name, '/');
    }
    assert(last_segment_text(inner, '/') == name);
    crate::text::lemma_last_of_join(stem, ext, '.');
    assert(before_last(name, '.') == stem);
}

} // verus!
