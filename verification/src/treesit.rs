//! Chunking at function and type boundaries, and symbols, by syntax tree.

use crate::chunking::{
    chunk_code_with, chunk_lines_spec, code_chunks, definition_marks, estimate_tokens, holds_line,
    law_chunk_lines_cover_every_line, law_chunk_lines_say_their_lines, law_chunk_lines_within_caps,
    law_tokens_subadditive, says_its_lines, tokens, within_caps, CODE_CHUNK_TOKEN_BUDGET, CodeChunk,
};
use crate::syntax::{
    child_by_field, child_in_role, is_child, is_child_as, law_child_in_role, law_children, law_walk,
    named_children, named_children_of, node_text, numbers, syntax, syntax_of, text_of, walk_all, walk_nodes,
    Syntax, SyntaxNode,
};
use crate::table::{rows, sort, sorted_rows};
use crate::text::{
    ascii_lower, ascii_lower_text, cat2, join, join_texts, last_segment, last_segment_text, lemma_join_blank,
    lemma_joined_lines, lemma_last_of_join, lemma_lines_free, lemma_sorted_set, lemma_split_joined,
    lemma_texts_push, lines_of, lines_text, same, sorted_set, sorted_set_text, text_less, texts, trim,
    trim_text,
};
use vstd::prelude::*;

pub use crate::syntax::Lang;

verus! {

/// The language of a file extension in lower case.
pub open spec fn lang_of_extension(ext: Seq<char>) -> Option<Lang> {
    if ext == "rs"@ {
        Some(Lang::Rust)
    } else if ext == "py"@ || ext == "pyi"@ {
        Some(Lang::Python)
    } else if ext == "js"@ || ext == "jsx"@ || ext == "mjs"@ || ext == "cjs"@ {
        Some(Lang::JavaScript)
    } else if ext == "ts"@ || ext == "mts"@ || ext == "cts"@ {
        Some(Lang::TypeScript)
    } else if ext == "tsx"@ {
        Some(Lang::Tsx)
    } else if ext == "go"@ {
        Some(Lang::Go)
    } else if ext == "java"@ {
        Some(Lang::Java)
    } else if ext == "kt"@ || ext == "kts"@ {
        Some(Lang::Kotlin)
    } else if ext == "c"@ {
        Some(Lang::C)
    } else if ext == "h"@ || ext == "hpp"@ || ext == "hh"@ || ext == "hxx"@ || ext == "cpp"@ || ext
        == "cc"@ || ext == "cxx"@ {
        Some(Lang::Cpp)
    } else {
        None
    }
}

/// The language of a file, told by what follows the last dot of its path.
pub fn lang_for_path(path: &str) -> (r: Option<Lang>)
    ensures
        r == lang_of_extension(ascii_lower_text(last_segment_text(path@, '.'))),
{
    let ext = ascii_lower(last_segment(path, '.').as_str());
    let e = ext.as_str();
    if same(e, "rs") {
        Some(Lang::Rust)
    } else if same(e, "py") || same(e, "pyi") {
        Some(Lang::Python)
    } else if same(e, "js") || same(e, "jsx") || same(e, "mjs") || same(e, "cjs") {
        Some(Lang::JavaScript)
    } else if same(e, "ts") || same(e, "mts") || same(e, "cts") {
        Some(Lang::TypeScript)
    } else if same(e, "tsx") {
        Some(Lang::Tsx)
    } else if same(e, "go") {
        Some(Lang::Go)
    } else if same(e, "java") {
        Some(Lang::Java)
    } else if same(e, "kt") || same(e, "kts") {
        Some(Lang::Kotlin)
    } else if same(e, "c") {
        Some(Lang::C)
    } else if same(e, "h") || same(e, "hpp") || same(e, "hh") || same(e, "hxx") || same(e, "cpp")
        || same(e, "cc") || same(e, "cxx") {
        Some(Lang::Cpp)
    } else {
        None
    }
}

/// Whether nodes of this kind delimit a unit of definition.
pub open spec fn chunkable(lang: Lang, kind: Seq<char>) -> bool {
    match lang {
        Lang::Rust => kind == "function_item"@ || kind == "struct_item"@ || kind == "enum_item"@
            || kind == "trait_item"@ || kind == "impl_item"@ || kind == "mod_item"@ || kind
            == "type_item"@ || kind == "union_item"@ || kind == "macro_definition"@,
        Lang::Python => kind == "function_definition"@ || kind == "class_definition"@ || kind
            == "decorated_definition"@,
        Lang::JavaScript | Lang::TypeScript | Lang::Tsx => kind == "function_declaration"@ || kind
            == "generator_function_declaration"@ || kind == "class_declaration"@ || kind
            == "method_definition"@ || kind == "interface_declaration"@ || kind
            == "type_alias_declaration"@ || kind == "enum_declaration"@ || kind
            == "abstract_class_declaration"@,
        Lang::Go => kind == "function_declaration"@ || kind == "method_declaration"@ || kind
            == "type_declaration"@,
        Lang::Java => kind == "class_declaration"@ || kind == "interface_declaration"@ || kind
            == "enum_declaration"@ || kind == "record_declaration"@ || kind
            == "method_declaration"@ || kind == "constructor_declaration"@,
        Lang::Kotlin => kind == "class_declaration"@ || kind == "object_declaration"@ || kind
            == "function_declaration"@,
        Lang::C => kind == "function_definition"@ || kind == "struct_specifier"@ || kind
            == "enum_specifier"@ || kind == "union_specifier"@ || kind == "type_definition"@,
        Lang::Cpp => kind == "function_definition"@ || kind == "struct_specifier"@ || kind
            == "enum_specifier"@ || kind == "union_specifier"@ || kind == "type_definition"@
            || kind == "class_specifier"@ || kind == "namespace_definition"@ || kind
            == "template_declaration"@,
    }
}

/// Whether nodes of this kind delimit a unit of definition.
pub fn is_chunkable(lang: Lang, kind: &str) -> (r: bool)
    ensures
        r == chunkable(lang, kind@),
{
    match lang {
        Lang::Rust => same(kind, "function_item") || same(kind, "struct_item") || same(
            kind,
            "enum_item",
        ) || same(kind, "trait_item") || same(kind, "impl_item") || same(kind, "mod_item") || same(
            kind,
            "type_item",
        ) || same(kind, "union_item") || same(kind, "macro_definition"),
        Lang::Python => same(kind, "function_definition") || same(kind, "class_definition") || same(
            kind,
            "decorated_definition",
        ),
        Lang::JavaScript | Lang::TypeScript | Lang::Tsx => same(kind, "function_declaration")
            || same(kind, "generator_function_declaration") || same(kind, "class_declaration")
            || same(kind, "method_definition") || same(kind, "interface_declaration") || same(
            kind,
            "type_alias_declaration",
        ) || same(kind, "enum_declaration") || same(kind, "abstract_class_declaration"),
        Lang::Go => same(kind, "function_declaration") || same(kind, "method_declaration") || same(
            kind,
            "type_declaration",
        ),
        Lang::Java => same(kind, "class_declaration") || same(kind, "interface_declaration")
            || same(kind, "enum_declaration") || same(kind, "record_declaration") || same(
            kind,
            "method_declaration",
        ) || same(kind, "constructor_declaration"),
        Lang::Kotlin => same(kind, "class_declaration") || same(kind, "object_declaration") || same(
            kind,
            "function_declaration",
        ),
        Lang::C => same(kind, "function_definition") || same(kind, "struct_specifier") || same(
            kind,
            "enum_specifier",
        ) || same(kind, "union_specifier") || same(kind, "type_definition"),
        Lang::Cpp => same(kind, "function_definition") || same(kind, "struct_specifier") || same(
            kind,
            "enum_specifier",
        ) || same(kind, "union_specifier") || same(kind, "type_definition") || same(
            kind,
            "class_specifier",
        ) || same(kind, "namespace_definition") || same(kind, "template_declaration"),
    }
}

// ---------------------------------------------------------------------------------------------
// Chunks.
// ---------------------------------------------------------------------------------------------

/// A range of lines, counted from 1, both ends included.
pub type Span = (usize, usize);

/// Whether a node is a definition that begins within the first `total` lines.
pub open spec fn spans_definition(lang: Lang, total: int) -> spec_fn(Syntax) -> bool {
    |n: Syntax| chunkable(lang, n.kind) && n.start_row < total
}

/// The lines of a node, within a file of `total` lines.
pub open spec fn span_of(n: Syntax, total: int) -> Span {
    let s = n.start_row + 1;
    let e = if n.end_row >= total {
        total
    } else if n.end_row + 1 < s {
        s
    } else {
        n.end_row + 1
    };
    (s as usize, e as usize)
}

/// The lines of those nodes that are definitions.
pub open spec fn spans_among(nodes: Seq<Syntax>, kids: Seq<int>, lang: Lang, total: int) -> Seq<Span>
    decreases kids.len(),
{
    if kids.len() == 0 {
        Seq::empty()
    } else if spans_definition(lang, total)(nodes[kids.last()]) {
        spans_among(nodes, kids.drop_last(), lang, total).push(span_of(nodes[kids.last()], total))
    } else {
        spans_among(nodes, kids.drop_last(), lang, total)
    }
}

/// Spans in the order of their first lines, then of their last.
pub open spec fn span_before() -> spec_fn(Span, Span) -> bool {
    |a: Span, b: Span| a.0 < b.0 || (a.0 == b.0 && a.1 < b.1)
}

/// The lines of the top-level definitions, in order.
pub open spec fn definition_spans(nodes: Seq<Syntax>, lang: Lang, total: int) -> Seq<Span> {
    if nodes.len() == 0 {
        Seq::empty()
    } else {
        sorted_rows(spans_among(nodes, named_children(nodes, 0), lang, total), span_before())
    }
}

/// Chunks with their line numbers moved by `by`.
pub open spec fn shifted(chunks: Seq<CodeChunk>, by: int) -> Seq<CodeChunk> {
    chunks.map_values(
        |c: CodeChunk| CodeChunk { text: c.text, start: c.start + by, end: c.end + by },
    )
}

/// The text of a range of lines.
pub open spec fn range_text(lines: Seq<Seq<char>>, a: int, b: int) -> Seq<char> {
    join_texts(lines.subrange(a - 1, b), "\n"@)
}

/// The chunks of a range of lines: none if it is blank, one if it fits the token budget, else
/// what packing its lines gives.
pub open spec fn range_chunks(lines: Seq<Seq<char>>, a: int, b: int, budget: usize) -> Seq<CodeChunk> {
    if a > b || a < 1 || b > lines.len() {
        Seq::empty()
    } else {
        let text = range_text(lines, a, b);
        if trim_text(text).len() == 0 {
            Seq::empty()
        } else if tokens(text) <= budget {
            seq![CodeChunk { text, start: a, end: b }]
        } else {
            shifted(
                chunk_lines_spec(lines_text(text), definition_marks(lines_text(text), false)),
                a - 1,
            )
        }
    }
}

/// The first line that is not chunked yet and the chunks so far, after the definitions in
/// `spans`. A definition that begins before that line is already covered. The lines between two
/// definitions are chunked by themselves.
pub open spec fn span_chunks(lines: Seq<Seq<char>>, spans: Seq<Span>, budget: usize) -> (int, Seq<CodeChunk>)
    decreases spans.len(),
{
    if spans.len() == 0 {
        (1, Seq::empty())
    } else {
        let (pos, out) = span_chunks(lines, spans.drop_last(), budget);
        let (s, e) = spans.last();
        if s < pos {
            (pos, out)
        } else {
            let gap = if s > pos {
                range_chunks(lines, pos, s - 1, budget)
            } else {
                Seq::empty()
            };
            (e + 1, out + gap + range_chunks(lines, s as int, e as int, budget))
        }
    }
}

/// The chunks of a file whose top-level definitions stand on the lines `spans`.
pub open spec fn file_chunks(lines: Seq<Seq<char>>, spans: Seq<Span>, budget: usize) -> Seq<CodeChunk> {
    let (pos, out) = span_chunks(lines, spans, budget);
    if pos <= lines.len() {
        out + range_chunks(lines, pos, lines.len() as int, budget)
    } else {
        out
    }
}

/// A copy of `lines[from..to]`.
fn sub_lines(lines: &Vec<String>, from: usize, to: usize) -> (r: Vec<String>)
    requires
        from <= to <= lines@.len(),
    ensures
        texts(r@) == texts(lines@).subrange(from as int, to as int),
{
    let mut out: Vec<String> = Vec::new();
    assert(texts(out@) =~= texts(lines@).subrange(from as int, from as int));
    for i in from..to
        invariant
            from <= to <= lines@.len(),
            texts(out@) == texts(lines@).subrange(from as int, i as int),
    {
        let ghost out0 = out@;
        let line = lines[i].clone();
        out.push(line);
        proof {
            lemma_texts_push(out0, line);
            assert(texts(lines@).subrange(from as int, i + 1) =~= texts(lines@).subrange(
                from as int,
                i as int,
            ).push(line@));
        }
    }
    out
}

/// Adds the chunks of a range of lines.
fn push_range(lines: &Vec<String>, a: usize, b: usize, budget: usize, out: &mut Vec<(String, usize, usize)>)
    requires
        forall|i: int| 0 <= i < lines@.len() ==> !(#[trigger] texts(lines@)[i]).contains('\n'),
    ensures
        code_chunks(final(out)@) == code_chunks(old(out)@) + range_chunks(
            texts(lines@),
            a as int,
            b as int,
            budget,
        ),
{
    let ghost before = code_chunks(out@);
    if a > b || a < 1 || b > lines.len() {
        assert(before + Seq::<CodeChunk>::empty() =~= before);
        return;
    }
    let part = sub_lines(lines, a - 1, b);
    let text = join(&part, "\n");
    let ghost ls = texts(lines@).subrange(a - 1, b as int);
    if trim(text.as_str()).as_str().is_empty() {
        assert(before + Seq::<CodeChunk>::empty() =~= before);
        return;
    }
    if estimate_tokens(text.as_str()) <= budget {
        let ghost text_view = text@;
        out.push((text, a, b));
        assert(code_chunks(out@) =~= before + seq![
            CodeChunk { text: text_view, start: a as int, end: b as int },
        ]);
        return;
    }
    let pieces = chunk_code_with(text.as_str(), false);
    let ghost sub = chunk_lines_spec(lines_text(text@), definition_marks(lines_text(text@), false));
    proof {
        reveal_strlit("\n");
        assert("\n"@ =~= seq!['\n']);
        assert forall|i: int| 0 <= i < ls.len() implies !(#[trigger] ls[i]).contains('\n') by {
            assert(ls[i] == texts(lines@)[a - 1 + i]);
        }
        lemma_joined_lines(ls);
        law_chunk_lines_cover_every_line(
            lines_text(text@),
            definition_marks(lines_text(text@), false),
        );
        assert(before + shifted(sub.take(0), a - 1) =~= before);
    }
    let count: usize = lines.len();
    for i in 0..pieces.len()
        invariant
            code_chunks(pieces@) == sub,
            1 <= a <= b <= count,
            forall|k: int|
                0 <= k < sub.len() ==> 1 <= (#[trigger] sub[k]).start <= sub[k].end <= b - a + 1,
            code_chunks(out@) == before + shifted(sub.take(i as int), a - 1),
    {
        let ghost out0 = out@;
        let s: usize = pieces[i].1;
        let e: usize = pieces[i].2;
        assert(sub[i as int].start == s && sub[i as int].end == e);
        let piece = (pieces[i].0.clone(), a - 1 + s, a - 1 + e);
        out.push(piece);
        proof {
            assert(code_chunks(out@) =~= code_chunks(out0).push(
                CodeChunk { text: piece.0@, start: piece.1 as int, end: piece.2 as int },
            ));
            assert(sub.take(i + 1) =~= sub.take(i as int).push(sub[i as int]));
            assert(code_chunks(out@) =~= before + shifted(sub.take(i + 1), a - 1));
        }
    }
    assert(sub.take(sub.len() as int) =~= sub);
}

/// Chunks a file whose top-level definitions stand on the lines `spans`: each definition is a
/// chunk of its own, and so are the lines between two definitions; what exceeds the token
/// budget is packed by line.
pub fn chunk_by_spans(content: &str, spans: &Vec<Span>, budget: usize) -> (r: Vec<(String, usize, usize)>)
    ensures
        code_chunks(r@) == file_chunks(lines_text(content@), spans@, budget),
{
    let lines = lines_of(content);
    let ghost ls = lines_text(content@);
    proof {
        lemma_lines_free(content@);
    }
    let mut out: Vec<(String, usize, usize)> = Vec::new();
    let mut pos: u128 = 1;
    assert(spans@.take(0) =~= Seq::<Span>::empty());
    assert(code_chunks(out@) =~= Seq::<CodeChunk>::empty());
    for i in 0..spans.len()
        invariant
            texts(lines@) == ls,
            forall|k: int| 0 <= k < ls.len() ==> !(#[trigger] ls[k]).contains('\n'),
            span_chunks(ls, spans@.take(i as int), budget).0 == pos,
            span_chunks(ls, spans@.take(i as int), budget).1 == code_chunks(out@),
    {
        assert(spans@.take(i + 1).drop_last() =~= spans@.take(i as int));
        assert(spans@.take(i + 1).last() == spans@[i as int]);
        let (s, e): (usize, usize) = spans[i];
        let ghost before = code_chunks(out@);
        if s as u128 >= pos {
            if s as u128 > pos {
                push_range(&lines, pos as usize, s - 1, budget, &mut out);
            } else {
                assert(before + Seq::<CodeChunk>::empty() =~= before);
            }
            push_range(&lines, s, e, budget, &mut out);
            pos = e as u128 + 1;
        }
    }
    assert(spans@.take(spans@.len() as int) =~= spans@);
    if pos <= lines.len() as u128 {
        push_range(&lines, pos as usize, lines.len(), budget, &mut out);
    }
    out
}

/// The lines of the top-level definitions of a file of `total` lines, in order.
pub fn top_spans(nodes: &Vec<SyntaxNode>, lang: Lang, total: usize) -> (r: Vec<Span>)
    ensures
        r@ == definition_spans(rows(nodes@), lang, total as int),
        forall|i: int| 0 <= i < r@.len() ==> (#[trigger] r@[i]).1 <= total,
{
    let ghost all = rows(nodes@);
    let mut spans: Vec<Span> = Vec::new();
    if nodes.len() == 0 {
        return spans;
    }
    let kids = named_children_of(nodes, 0);
    let ghost ks = numbers(kids@);
    assert(ks.take(0) =~= Seq::<int>::empty());
    for k in 0..kids.len()
        invariant
            all == rows(nodes@),
            ks == numbers(kids@),
            forall|m: int| 0 <= m < kids@.len() ==> #[trigger] kids@[m] < nodes@.len(),
            spans@ == spans_among(all, ks.take(k as int), lang, total as int),
            forall|i: int| 0 <= i < spans@.len() ==> (#[trigger] spans@[i]).1 <= total,
    {
        assert(ks.take(k + 1).drop_last() =~= ks.take(k as int));
        assert(ks.take(k + 1).last() == kids@[k as int] as int);
        let n = &nodes[kids[k]];
        assert(all[kids@[k as int] as int] == n@);
        if is_chunkable(lang, n.kind.as_str()) && n.start_row < total {
            let s: usize = n.start_row + 1;
            let e: usize = if n.end_row >= total {
                total
            } else if n.end_row + 1 < s {
                s
            } else {
                n.end_row + 1
            };
            spans.push((s, e));
        }
    }
    assert(ks.take(ks.len() as int) =~= ks);
    let ghost unsorted = spans@;
    assert(rows(spans@) =~= spans@);
    sort(
        &mut spans,
        |a: &Span, b: &Span| -> (r: bool)
            ensures
                r == (a@.0 < b@.0 || (a@.0 == b@.0 && a@.1 < b@.1))
        { a.0 < b.0 || (a.0 == b.0 && a.1 < b.1) },
        Ghost(span_before()),
    );
    proof {
        assert(rows(spans@) =~= spans@);
        lemma_sorted_members(unsorted);
        assert forall|i: int| 0 <= i < spans@.len() implies (#[trigger] spans@[i]).1 <= total by {
            assert(spans@.contains(spans@[i]));
            let j = choose|j: int| 0 <= j < unsorted.len() && unsorted[j] == spans@[i];
            assert(unsorted[j].1 <= total);
        }
    }
    spans
}

proof fn lemma_sorted_members(s: Seq<Span>)
    ensures
        forall|x: Span| #[trigger] sorted_rows(s, span_before()).contains(x) ==> s.contains(x),
{
    broadcast use vstd::seq_lib::group_to_multiset_ensures;

    assert(crate::table::is_order(span_before()));
    crate::table::law_sorted_rows(s, span_before());
    let t = sorted_rows(s, span_before());
    assert forall|x: Span| #[trigger] t.contains(x) implies s.contains(x) by {
        assert(t.to_multiset().count(x) > 0);
        assert(s.to_multiset().count(x) > 0);
    }
}

/// Chunks code at function and type boundaries: each top-level definition is a chunk of its
/// own, and so are the lines between two definitions. Returns each chunk with its first and
/// last line, counted from 1, or none where the text cannot be parsed.
pub fn chunk_code_ts(content: &str, lang: Lang) -> (r: Option<Vec<(String, usize, usize)>>)
    ensures
        match (r, syntax_of(lang, content@)) {
            (Some(v), Some(nodes)) => code_chunks(v@) == file_chunks(
                lines_text(content@),
                definition_spans(nodes, lang, lines_text(content@).len() as int),
                CODE_CHUNK_TOKEN_BUDGET,
            ),
            (None, None) => true,
            _ => false,
        },
{
    let nodes = match syntax(lang, content) {
        Some(v) => v,
        None => {
            return None;
        },
    };
    let lines = lines_of(content);
    let total: usize = lines.len();
    assert(texts(lines@).len() == total);
    let spans = top_spans(&nodes, lang, total);
    Some(chunk_by_spans(content, &spans, CODE_CHUNK_TOKEN_BUDGET))
}

// ---------------------------------------------------------------------------------------------
// Packing of small definitions.
// ---------------------------------------------------------------------------------------------

/// Consecutive definitions packed into wider ones, each from the first line of its first
/// definition to the last line of its last, as long as the text between fits the budget. A
/// definition within the one before it is part of that one.
pub open spec fn packed_spans(lines: Seq<Seq<char>>, spans: Seq<Span>, budget: usize) -> Seq<Span>
    decreases spans.len(),
{
    if spans.len() == 0 {
        Seq::empty()
    } else {
        let before = packed_spans(lines, spans.drop_last(), budget);
        let (s, e) = spans.last();
        if before.len() == 0 {
            seq![(s, e)]
        } else if s <= before.last().1 {
            before
        } else if 1 <= before.last().0 <= e <= lines.len() && tokens(
            range_text(lines, before.last().0 as int, e as int),
        ) <= budget {
            before.drop_last().push((before.last().0, e))
        } else {
            before.push((s, e))
        }
    }
}

/// Packs consecutive definitions into wider ones.
pub fn pack_spans(content: &str, spans: &Vec<Span>, budget: usize) -> (r: Vec<Span>)
    ensures
        r@ == packed_spans(lines_text(content@), spans@, budget),
{
    let lines = lines_of(content);
    let ghost ls = lines_text(content@);
    let mut out: Vec<Span> = Vec::new();
    assert(spans@.take(0) =~= Seq::<Span>::empty());
    for i in 0..spans.len()
        invariant
            texts(lines@) == ls,
            out@ == packed_spans(ls, spans@.take(i as int), budget),
    {
        assert(spans@.take(i + 1).drop_last() =~= spans@.take(i as int));
        assert(spans@.take(i + 1).last() == spans@[i as int]);
        assert(texts(lines@).len() == lines@.len());
        let (s, e): (usize, usize) = spans[i];
        let ghost before = out@;
        if out.len() == 0 {
            out.push((s, e));
            assert(out@ =~= seq![(s, e)]);
        } else {
            let (first, last): (usize, usize) = out[out.len() - 1];
            if s > last {
                let mut fits: bool = false;
                if first >= 1 && e <= lines.len() && first <= e {
                    let part = sub_lines(&lines, first - 1, e);
                    let text = join(&part, "\n");
                    fits = estimate_tokens(text.as_str()) <= budget;
                }
                if fits {
                    let n: usize = out.len() - 1;
                    out.set(n, (first, e));
                    assert(out@ =~= before.drop_last().push((first, e)));
                } else {
                    out.push((s, e));
                }
            }
        }
    }
    assert(spans@.take(spans@.len() as int) =~= spans@);
    out
}

/// Chunks C or C++ code with small definitions packed together, up to a token budget; else as
/// [`chunk_code_ts`] does.
pub fn chunk_native(content: &str, lang: Lang, budget: usize) -> (r: Option<Vec<(String, usize, usize)>>)
    ensures
        match (r, syntax_of(lang, content@)) {
            (Some(v), Some(nodes)) => code_chunks(v@) == file_chunks(
                lines_text(content@),
                packed_spans(
                    lines_text(content@),
                    definition_spans(nodes, lang, lines_text(content@).len() as int),
                    budget,
                ),
                budget,
            ),
            (None, None) => true,
            _ => false,
        },
{
    let nodes = match syntax(lang, content) {
        Some(v) => v,
        None => {
            return None;
        },
    };
    let lines = lines_of(content);
    let total: usize = lines.len();
    assert(texts(lines@).len() == total);
    let spans = top_spans(&nodes, lang, total);
    let packed = pack_spans(content, &spans, budget);
    Some(chunk_by_spans(content, &packed, budget))
}

// ---------------------------------------------------------------------------------------------
// What holds of the chunks of every file.
// ---------------------------------------------------------------------------------------------

/// Whether spans are ranges of the first `total` lines.
pub open spec fn spans_within(spans: Seq<Span>, total: int) -> bool {
    forall|i: int| 0 <= i < spans.len() ==> 1 <= (#[trigger] spans[i]).0 <= spans[i].1 <= total
}

/// Whether every line from `a` to `b` that is not blank is in the range of some chunk.
pub open spec fn holds_lines(lines: Seq<Seq<char>>, chunks: Seq<CodeChunk>, a: int, b: int) -> bool {
    forall|x: int|
        a <= x <= b && trim_text(#[trigger] lines[x - 1]).len() > 0 ==> holds_line(chunks, x)
}

proof fn lemma_holds_line_add(a: Seq<CodeChunk>, b: Seq<CodeChunk>, x: int)
    ensures
        holds_line(a, x) ==> holds_line(a + b, x),
        holds_line(b, x) ==> holds_line(a + b, x),
{
    if holds_line(a, x) {
        let i = choose|i: int| 0 <= i < a.len() && (#[trigger] a[i]).start <= x <= a[i].end;
        assert((a + b)[i] == a[i]);
    }
    if holds_line(b, x) {
        let i = choose|i: int| 0 <= i < b.len() && (#[trigger] b[i]).start <= x <= b[i].end;
        assert((a + b)[a.len() + i] == b[i]);
    }
}

/// The chunks of a range hold every line of it that is not blank.
proof fn lemma_range_holds(lines: Seq<Seq<char>>, a: int, b: int, budget: usize)
    requires
        1 <= a <= b <= lines.len(),
        forall|i: int| 0 <= i < lines.len() ==> !(#[trigger] lines[i]).contains('\n'),
    ensures
        holds_lines(lines, range_chunks(lines, a, b, budget), a, b),
{
    let part = lines.subrange(a - 1, b);
    let text = range_text(lines, a, b);
    let chunks = range_chunks(lines, a, b, budget);
    reveal_strlit("\n");
    assert("\n"@ =~= seq!['\n']);
    assert forall|x: int| a <= x <= b && trim_text(#[trigger] lines[x - 1]).len() > 0 implies holds_line(
        chunks,
        x,
    ) by {
        assert(part[x - a] == lines[x - 1]);
        if trim_text(text).len() == 0 {
            lemma_join_blank(part, "\n"@);
        } else if tokens(text) <= budget {
            assert(chunks[0].start <= x <= chunks[0].end);
        } else {
            let ls = lines_text(text);
            let marks = definition_marks(ls, false);
            let sub = chunk_lines_spec(ls, marks);
            assert forall|i: int| 0 <= i < part.len() implies !(#[trigger] part[i]).contains('\n') by {
                assert(part[i] == lines[a - 1 + i]);
            }
            lemma_joined_lines(part);
            if x == b {
                assert(part.last() == lines[x - 1]);
                if part.last().len() == 0 {
                    assert(trim_text(part.last()).len() == 0);
                }
            }
            law_chunk_lines_cover_every_line(ls, marks);
            assert(holds_line(sub, x - a + 1));
            let i = choose|i: int|
                0 <= i < sub.len() && (#[trigger] sub[i]).start <= x - a + 1 <= sub[i].end;
            assert(chunks[i].start == sub[i].start + (a - 1));
            assert(chunks[i].end == sub[i].end + (a - 1));
        }
    }
}

proof fn lemma_spans_hold(lines: Seq<Seq<char>>, spans: Seq<Span>, budget: usize)
    requires
        spans_within(spans, lines.len() as int),
        forall|i: int| 0 <= i < lines.len() ==> !(#[trigger] lines[i]).contains('\n'),
    ensures
        ({
            let (pos, out) = span_chunks(lines, spans, budget);
            1 <= pos <= lines.len() + 1 && holds_lines(lines, out, 1, pos - 1)
        }),
    decreases spans.len(),
{
    if spans.len() > 0 {
        let head = spans.drop_last();
        assert(spans_within(head, lines.len() as int)) by {
            assert forall|i: int| 0 <= i < head.len() implies 1 <= (#[trigger] head[i]).0 <= head[i].1
                <= lines.len() by {
                assert(head[i] == spans[i]);
            }
        }
        lemma_spans_hold(lines, head, budget);
        let (pos, out) = span_chunks(lines, head, budget);
        let (s, e) = spans.last();
        assert(spans[spans.len() - 1] == (s, e));
        if s >= pos {
            let gap = if s > pos {
                range_chunks(lines, pos, s - 1, budget)
            } else {
                Seq::empty()
            };
            let own = range_chunks(lines, s as int, e as int, budget);
            if s > pos {
                lemma_range_holds(lines, pos, s - 1, budget);
            }
            lemma_range_holds(lines, s as int, e as int, budget);
            assert forall|x: int|
                1 <= x <= e && trim_text(#[trigger] lines[x - 1]).len() > 0 implies holds_line(
                out + gap + own,
                x,
            ) by {
                lemma_holds_line_add(out, gap, x);
                lemma_holds_line_add(out + gap, own, x);
            }
        }
    }
}

/// Law: the chunks of a file leave out no line that is not blank, wherever its definitions stand.
pub proof fn law_file_chunks_hold_every_line(lines: Seq<Seq<char>>, spans: Seq<Span>, budget: usize)
    requires
        spans_within(spans, lines.len() as int),
        forall|i: int| 0 <= i < lines.len() ==> !(#[trigger] lines[i]).contains('\n'),
    ensures
        holds_lines(lines, file_chunks(lines, spans, budget), 1, lines.len() as int),
{
    lemma_spans_hold(lines, spans, budget);
    let (pos, out) = span_chunks(lines, spans, budget);
    if pos <= lines.len() {
        lemma_range_holds(lines, pos, lines.len() as int, budget);
        let rest = range_chunks(lines, pos, lines.len() as int, budget);
        assert forall|x: int|
            1 <= x <= lines.len() && trim_text(#[trigger] lines[x - 1]).len() > 0 implies holds_line(
            out + rest,
            x,
        ) by {
            lemma_holds_line_add(out, rest, x);
        }
    }
}

proof fn lemma_spans_among_within(nodes: Seq<Syntax>, kids: Seq<int>, lang: Lang, total: int)
    requires
        0 <= total <= usize::MAX,
    ensures
        spans_within(spans_among(nodes, kids, lang, total), total),
    decreases kids.len(),
{
    if kids.len() > 0 {
        lemma_spans_among_within(nodes, kids.drop_last(), lang, total);
    }
}

/// Law: chunking a parsed file by its definitions leaves out no line that is not blank, whether or
/// not small definitions are packed together.
pub proof fn law_definitions_hold_every_line(content: Seq<char>, nodes: Seq<Syntax>, lang: Lang, budget: usize)
    requires
        lines_text(content).len() <= usize::MAX,
    ensures
        ({
            let lines = lines_text(content);
            let spans = definition_spans(nodes, lang, lines.len() as int);
            &&& holds_lines(lines, file_chunks(lines, spans, budget), 1, lines.len() as int)
            &&& holds_lines(
                lines,
                file_chunks(lines, packed_spans(lines, spans, budget), budget),
                1,
                lines.len() as int,
            )
        }),
{
    let lines = lines_text(content);
    let total = lines.len() as int;
    let spans = definition_spans(nodes, lang, total);
    lemma_lines_free(content);
    lemma_definition_spans_within(nodes, lang, total);
    lemma_packed_within(lines, spans, budget);
    law_file_chunks_hold_every_line(lines, spans, budget);
    law_file_chunks_hold_every_line(lines, packed_spans(lines, spans, budget), budget);
}

pub proof fn lemma_definition_spans_within(nodes: Seq<Syntax>, lang: Lang, total: int)
    requires
        0 <= total <= usize::MAX,
    ensures
        spans_within(definition_spans(nodes, lang, total), total),
{
    let spans = definition_spans(nodes, lang, total);
    if nodes.len() > 0 {
        let found = spans_among(nodes, named_children(nodes, 0), lang, total);
        lemma_spans_among_within(nodes, named_children(nodes, 0), lang, total);
        lemma_sorted_members(found);
        assert forall|i: int| 0 <= i < spans.len() implies 1 <= (#[trigger] spans[i]).0 <= spans[i].1
            <= total by {
            assert(spans.contains(spans[i]));
            let j = choose|j: int| 0 <= j < found.len() && found[j] == spans[i];
            assert(1 <= found[j].0 <= found[j].1 <= total);
        }
    }
}

pub proof fn lemma_packed_within(lines: Seq<Seq<char>>, spans: Seq<Span>, budget: usize)
    requires
        spans_within(spans, lines.len() as int),
    ensures
        spans_within(packed_spans(lines, spans, budget), lines.len() as int),
    decreases spans.len(),
{
    if spans.len() > 0 {
        let head = spans.drop_last();
        assert forall|i: int| 0 <= i < head.len() implies 1 <= (#[trigger] head[i]).0 <= head[i].1
            <= lines.len() by {
            assert(head[i] == spans[i]);
        }
        lemma_packed_within(lines, head, budget);
        let before = packed_spans(lines, head, budget);
        let after = packed_spans(lines, spans, budget);
        assert(spans[spans.len() - 1] == spans.last());
        assert forall|i: int| 0 <= i < after.len() implies 1 <= (#[trigger] after[i]).0 <= after[i].1
            <= lines.len() by {
            if before.len() > 0 {
                assert(before[before.len() - 1] == before.last());
                if i < before.len() {
                    assert(1 <= before[i].0);
                }
            }
        }
    }
}

/// Whether a chunk is small enough: within the budget, or as small as packing by line makes it.
pub open spec fn small_enough(c: CodeChunk, budget: usize) -> bool {
    tokens(c.text) <= budget || within_caps(c)
}

proof fn lemma_range_small(lines: Seq<Seq<char>>, a: int, b: int, budget: usize)
    ensures
        forall|i: int|
            0 <= i < range_chunks(lines, a, b, budget).len() ==> small_enough(
                #[trigger] range_chunks(lines, a, b, budget)[i],
                budget,
            ),
{
    let chunks = range_chunks(lines, a, b, budget);
    if 1 <= a <= b <= lines.len() {
        let ls = lines_text(range_text(lines, a, b));
        let marks = definition_marks(ls, false);
        let sub = chunk_lines_spec(ls, marks);
        law_chunk_lines_within_caps(ls, marks);
        assert forall|i: int| 0 <= i < chunks.len() implies small_enough(#[trigger] chunks[i], budget) by {
            if tokens(range_text(lines, a, b)) > budget {
                assert(within_caps(sub[i]));
                assert(chunks[i].text == sub[i].text);
            }
        }
    }
}

/// Law: every chunk of a file is within the token budget, or as small as packing by line makes it.
pub proof fn law_file_chunks_small(lines: Seq<Seq<char>>, spans: Seq<Span>, budget: usize)
    ensures
        forall|i: int|
            0 <= i < file_chunks(lines, spans, budget).len() ==> small_enough(
                #[trigger] file_chunks(lines, spans, budget)[i],
                budget,
            ),
{
    lemma_spans_small(lines, spans, budget);
    let (pos, out) = span_chunks(lines, spans, budget);
    lemma_range_small(lines, pos, lines.len() as int, budget);
}

proof fn lemma_spans_small(lines: Seq<Seq<char>>, spans: Seq<Span>, budget: usize)
    ensures
        forall|i: int|
            0 <= i < span_chunks(lines, spans, budget).1.len() ==> small_enough(
                #[trigger] span_chunks(lines, spans, budget).1[i],
                budget,
            ),
    decreases spans.len(),
{
    if spans.len() > 0 {
        lemma_spans_small(lines, spans.drop_last(), budget);
        let (pos, out) = span_chunks(lines, spans.drop_last(), budget);
        let (s, e) = spans.last();
        lemma_range_small(lines, pos, s - 1, budget);
        lemma_range_small(lines, s as int, e as int, budget);
    }
}

/// Whether node `k` is a definition at the top of the tree: a named child of the root, of a kind that
/// delimits a definition, that begins within the first `total` lines.
pub open spec fn is_top_definition(nodes: Seq<Syntax>, lang: Lang, total: int, k: int) -> bool {
    &&& is_child(nodes, 0, k)
    &&& nodes[k].named
    &&& chunkable(lang, nodes[k].kind)
    &&& nodes[k].start_row < total
}

/// The last line of node `k`, within a file of `total` lines.
pub open spec fn last_line_of(nodes: Seq<Syntax>, total: int, k: int) -> int {
    if nodes[k].end_row < nodes[k].start_row {
        nodes[k].start_row + 1
    } else if nodes[k].end_row + 1 > total {
        total
    } else {
        nodes[k].end_row + 1
    }
}

proof fn lemma_spans_among(nodes: Seq<Syntax>, kids: Seq<int>, lang: Lang, total: int)
    requires
        0 <= total <= usize::MAX,
    ensures
        forall|x: Span| #[trigger]
            spans_among(nodes, kids, lang, total).contains(x) <==> exists|a: int|
                0 <= a < kids.len() && spans_definition(lang, total)(nodes[#[trigger] kids[a]]) && x == (
                    (nodes[kids[a]].start_row + 1) as usize,
                    last_line_of(nodes, total, kids[a]) as usize,
                ),
    decreases kids.len(),
{
    if kids.len() > 0 {
        let head = kids.drop_last();
        lemma_spans_among(nodes, head, lang, total);
        let before = spans_among(nodes, head, lang, total);
        let all = spans_among(nodes, kids, lang, total);
        assert(kids[kids.len() - 1] == kids.last());
        assert forall|x: Span| #[trigger] all.contains(x) <==> exists|a: int|
            0 <= a < kids.len() && spans_definition(lang, total)(nodes[#[trigger] kids[a]]) && x == (
                (nodes[kids[a]].start_row + 1) as usize,
                last_line_of(nodes, total, kids[a]) as usize,
            ) by {
            if before.contains(x) {
                let a = choose|a: int|
                    0 <= a < head.len() && spans_definition(lang, total)(nodes[#[trigger] head[a]]) && x == (
                        (nodes[head[a]].start_row + 1) as usize,
                        last_line_of(nodes, total, head[a]) as usize,
                    );
                assert(kids[a] == head[a]);
                let m = choose|m: int| 0 <= m < before.len() && before[m] == x;
                assert(all[m] == x);
            }
            if all.contains(x) {
                let m = choose|m: int| 0 <= m < all.len() && all[m] == x;
                if m < before.len() {
                    assert(before[m] == x);
                    assert(before.contains(x));
                }
            }
            if exists|a: int|
                0 <= a < kids.len() && spans_definition(lang, total)(nodes[#[trigger] kids[a]]) && x == (
                    (nodes[kids[a]].start_row + 1) as usize,
                    last_line_of(nodes, total, kids[a]) as usize,
                ) {
                let a = choose|a: int|
                    0 <= a < kids.len() && spans_definition(lang, total)(nodes[#[trigger] kids[a]]) && x == (
                        (nodes[kids[a]].start_row + 1) as usize,
                        last_line_of(nodes, total, kids[a]) as usize,
                    );
                if a < head.len() {
                    assert(head[a] == kids[a]);
                    assert(before.contains(x));
                } else {
                    assert(all[before.len() as int] == x);
                }
            }
        }
    }
}

/// Law: the spans of a file are those of its definitions, and of no other node: each reaches from the
/// first line of its definition to the last. They come in the order of their first lines.
pub proof fn law_definition_spans(nodes: Seq<Syntax>, lang: Lang, total: int)
    requires
        nodes.len() > 0,
        0 <= total <= usize::MAX,
    ensures
        forall|k: int| #[trigger]
            is_top_definition(nodes, lang, total, k) ==> definition_spans(nodes, lang, total).contains(
                ((nodes[k].start_row + 1) as usize, last_line_of(nodes, total, k) as usize),
            ),
        forall|x: Span| #[trigger]
            definition_spans(nodes, lang, total).contains(x) ==> exists|k: int| #[trigger]
                is_top_definition(nodes, lang, total, k) && x.0 == nodes[k].start_row + 1 && x.1
                    == last_line_of(nodes, total, k),
        forall|a: int, b: int|
            0 <= a < b < definition_spans(nodes, lang, total).len() ==> (#[trigger] definition_spans(
                nodes,
                lang,
                total,
            )[a]).0 <= (#[trigger] definition_spans(nodes, lang, total)[b]).0,
{
    broadcast use vstd::seq_lib::group_to_multiset_ensures;

    let kids = named_children(nodes, 0);
    let found = spans_among(nodes, kids, lang, total);
    let spans = definition_spans(nodes, lang, total);
    law_children(nodes, 0);
    lemma_spans_among(nodes, kids, lang, total);
    lemma_sorted_members(found);
    assert(crate::table::is_order(span_before()));
    crate::table::law_sorted_rows(found, span_before());
    assert forall|k: int| #[trigger] is_top_definition(nodes, lang, total, k) implies spans.contains(
        ((nodes[k].start_row + 1) as usize, last_line_of(nodes, total, k) as usize),
    ) by {
        assert(kids.contains(k));
        let a = choose|a: int| 0 <= a < kids.len() && kids[a] == k;
        let x = ((nodes[k].start_row + 1) as usize, last_line_of(nodes, total, k) as usize);
        assert(spans_definition(lang, total)(nodes[kids[a]]));
        assert(found.contains(x));
        assert(found.to_multiset().count(x) > 0);
        assert(spans.to_multiset().count(x) > 0);
    }
    assert forall|x: Span| #[trigger] spans.contains(x) implies exists|k: int| #[trigger]
        is_top_definition(nodes, lang, total, k) && x.0 == nodes[k].start_row + 1 && x.1 == last_line_of(
            nodes,
            total,
            k,
        ) by {
        assert(found.contains(x));
        let a = choose|a: int|
            0 <= a < kids.len() && spans_definition(lang, total)(nodes[#[trigger] kids[a]]) && x == (
                (nodes[kids[a]].start_row + 1) as usize,
                last_line_of(nodes, total, kids[a]) as usize,
            );
        assert(kids.contains(kids[a]));
        assert(is_top_definition(nodes, lang, total, kids[a]));
    }
    assert forall|a: int, b: int| 0 <= a < b < spans.len() implies (#[trigger] spans[a]).0 <= (
    #[trigger] spans[b]).0 by {
        assert(!span_before()(spans[b], spans[a]));
    }
}

/// The chunks of the first spans stand at the front of those of all.
proof fn lemma_span_chunks_grow(lines: Seq<Seq<char>>, spans: Seq<Span>, budget: usize, n: int, c: CodeChunk)
    requires
        0 <= n <= spans.len(),
        span_chunks(lines, spans.take(n), budget).1.contains(c),
    ensures
        span_chunks(lines, spans, budget).1.contains(c),
    decreases spans.len() - n,
{
    if n == spans.len() {
        assert(spans.take(n) =~= spans);
    } else {
        let a = span_chunks(lines, spans.take(n), budget).1;
        let b = span_chunks(lines, spans.take(n + 1), budget).1;
        assert(spans.take(n + 1).drop_last() =~= spans.take(n));
        let k = choose|k: int| 0 <= k < a.len() && a[k] == c;
        assert(b[k] == c);
        lemma_span_chunks_grow(lines, spans, budget, n + 1, c);
    }
}

proof fn lemma_spans_before(lines: Seq<Seq<char>>, spans: Seq<Span>, budget: usize, s: int)
    requires
        1 <= s,
        forall|i: int| 0 <= i < spans.len() ==> (#[trigger] spans[i]).1 < s,
    ensures
        span_chunks(lines, spans, budget).0 <= s,
    decreases spans.len(),
{
    if spans.len() > 0 {
        let head = spans.drop_last();
        assert forall|i: int| 0 <= i < head.len() implies (#[trigger] head[i]).1 < s by {
            assert(head[i] == spans[i]);
        }
        lemma_spans_before(lines, head, budget, s);
        assert(spans[spans.len() - 1].1 < s);
    }
}

/// Law: a definition is a chunk of its own. Where the lines of a definition at the top of a file fit the
/// token budget and are not blank, and no other definition shares a line with its first one, the chunks
/// of the file hold one that says those lines, from the first to the last, and nothing else.
pub proof fn law_definition_is_a_chunk(lines: Seq<Seq<char>>, nodes: Seq<Syntax>, lang: Lang, budget: usize, k: int)
    requires
        nodes.len() > 0,
        lines.len() <= usize::MAX,
        is_top_definition(nodes, lang, lines.len() as int, k),
        forall|m: int| #[trigger]
            is_top_definition(nodes, lang, lines.len() as int, m) && m != k ==> nodes[m].start_row
                > nodes[k].start_row || (nodes[m].start_row < nodes[k].start_row && nodes[m].end_row
                < nodes[k].start_row),
        ({
            let text = join_texts(
                lines.subrange(
                    nodes[k].start_row as int,
                    last_line_of(nodes, lines.len() as int, k),
                ),
                "\n"@,
            );
            tokens(text) <= budget && trim_text(text).len() > 0
        }),
    ensures
        ({
            let last = last_line_of(nodes, lines.len() as int, k);
            file_chunks(lines, definition_spans(nodes, lang, lines.len() as int), budget).contains(
                CodeChunk {
                    text: join_texts(lines.subrange(nodes[k].start_row as int, last), "\n"@),
                    start: nodes[k].start_row + 1,
                    end: last,
                },
            )
        }),
{
    let total = lines.len() as int;
    let spans = definition_spans(nodes, lang, total);
    let s = (nodes[k].start_row + 1) as usize;
    let e = last_line_of(nodes, total, k) as usize;
    law_definition_spans(nodes, lang, total);
    assert(spans.contains((s, e)));
    let p = choose|p: int| 0 <= p < spans.len() && spans[p] == (s, e);
    let q = lemma_first_place(spans, (s, e), p);
    let head = spans.take(q);
    assert forall|i: int| 0 <= i < head.len() implies (#[trigger] head[i]).1 < s by {
        let x = spans[i];
        assert(head[i] == x);
        assert(spans.contains(x));
        let m = choose|m: int| #[trigger]
            is_top_definition(nodes, lang, total, m) && x.0 == nodes[m].start_row + 1 && x.1 == last_line_of(
                nodes,
                total,
                m,
            );
        assert(spans[i].0 <= spans[q].0);
        assert(m != k);
    }
    lemma_spans_before(lines, head, budget, s as int);
    let c = CodeChunk { text: range_text(lines, s as int, e as int), start: s as int, end: e as int };
    let own = range_chunks(lines, s as int, e as int, budget);
    assert(own[0] == c);
    let some = spans.take(q + 1);
    assert(some.drop_last() =~= head);
    assert(some.last() == (s, e));
    let (pos, out) = span_chunks(lines, head, budget);
    let gap = if s > pos {
        range_chunks(lines, pos, s - 1, budget)
    } else {
        Seq::empty()
    };
    let grown = span_chunks(lines, some, budget).1;
    assert(grown == out + gap + own);
    let at = (out.len() + gap.len()) as int;
    assert(grown[at] == c);
    lemma_span_chunks_grow(lines, spans, budget, q + 1, c);
    let all = span_chunks(lines, spans, budget).1;
    let z = choose|z: int| 0 <= z < all.len() && all[z] == c;
    assert(file_chunks(lines, spans, budget)[z] == c);
}

/// The first place of a span.
proof fn lemma_first_place(spans: Seq<Span>, x: Span, p: int) -> (q: int)
    requires
        0 <= p < spans.len(),
        spans[p] == x,
    ensures
        0 <= q <= p,
        spans[q] == x,
        forall|i: int| 0 <= i < q ==> #[trigger] spans[i] != x,
    decreases p,
{
    if exists|i: int| 0 <= i < p && #[trigger] spans[i] == x {
        let i = choose|i: int| 0 <= i < p && #[trigger] spans[i] == x;
        lemma_first_place(spans, x, i)
    } else {
        p
    }
}

/// Whether a chunk of a file says what its lines say: their text, joined by line feeds, with one at the
/// end or without; or a part of the one line that it comes from.
pub open spec fn says_file_lines(lines: Seq<Seq<char>>, c: CodeChunk) -> bool {
    ||| 1 <= c.start <= c.end <= lines.len() && c.text == join_texts(
        lines.subrange(c.start - 1, c.end),
        "\n"@,
    )
    ||| says_its_lines(lines, c)
}

/// Whether no line ends with a carriage return.
pub open spec fn without_returns(lines: Seq<Seq<char>>) -> bool {
    forall|i: int|
        0 <= i < lines.len() && (#[trigger] lines[i]).len() > 0 ==> lines[i].last() != '\r'
}

proof fn lemma_rejoined_lines(parts: Seq<Seq<char>>)
    requires
        parts.len() > 0,
        without_returns(parts),
        forall|i: int| 0 <= i < parts.len() ==> !(#[trigger] parts[i]).contains('\n'),
    ensures
        ({
            let again = lines_text(join_texts(parts, seq!['\n']));
            &&& again.len() <= parts.len()
            &&& forall|i: int| 0 <= i < again.len() ==> #[trigger] again[i] == parts[i]
        }),
{
    let t = join_texts(parts, seq!['\n']);
    lemma_split_joined(parts, '\n');
    let again = lines_text(t);
    assert forall|i: int| 0 <= i < again.len() implies #[trigger] again[i] == parts[i] by {
        if parts[i].len() > 0 {
            assert(parts[i].last() != '\r');
        }
    }
}

proof fn lemma_range_says(lines: Seq<Seq<char>>, a: int, b: int, budget: usize)
    requires
        1 <= a <= b <= lines.len(),
        without_returns(lines),
        forall|i: int| 0 <= i < lines.len() ==> !(#[trigger] lines[i]).contains('\n'),
    ensures
        forall|i: int|
            0 <= i < range_chunks(lines, a, b, budget).len() ==> {
                let c = #[trigger] range_chunks(lines, a, b, budget)[i];
                says_file_lines(lines, c) && a <= c.start && c.end <= b
            },
        forall|i: int, j: int|
            0 <= i < j < range_chunks(lines, a, b, budget).len() ==> (#[trigger] range_chunks(
                lines,
                a,
                b,
                budget,
            )[i]).end <= (#[trigger] range_chunks(lines, a, b, budget)[j]).start,
{
    let part = lines.subrange(a - 1, b);
    let text = range_text(lines, a, b);
    let chunks = range_chunks(lines, a, b, budget);
    reveal_strlit("\n");
    assert("\n"@ =~= seq!['\n']);
    if trim_text(text).len() > 0 && tokens(text) > budget {
        assert forall|i: int| 0 <= i < part.len() implies !(#[trigger] part[i]).contains('\n') by {
            assert(part[i] == lines[a - 1 + i]);
        }
        assert forall|i: int| 0 <= i < part.len() && (#[trigger] part[i]).len() > 0 implies part[i].last()
            != '\r' by {
            assert(part[i] == lines[a - 1 + i]);
        }
        lemma_rejoined_lines(part);
        let ls = lines_text(text);
        let marks = definition_marks(ls, false);
        let sub = chunk_lines_spec(ls, marks);
        law_chunk_lines_say_their_lines(ls, marks);
        law_chunk_lines_cover_every_line(ls, marks);
        assert forall|i: int| 0 <= i < chunks.len() implies {
            let c = #[trigger] chunks[i];
            says_file_lines(lines, c) && a <= c.start && c.end <= b
        } by {
            let d = sub[i];
            let c = chunks[i];
            assert(c.text == d.text && c.start == d.start + (a - 1) && c.end == d.end + (a - 1));
            assert(says_its_lines(ls, d));
            assert(ls.subrange(d.start - 1, d.end) =~= lines.subrange(c.start - 1, c.end)) by {
                assert forall|x: int| 0 <= x < d.end - d.start + 1 implies #[trigger] ls.subrange(
                    d.start - 1,
                    d.end,
                )[x] == lines.subrange(c.start - 1, c.end)[x] by {
                    assert(ls[d.start - 1 + x] == part[d.start - 1 + x]);
                }
            }
            assert(ls[d.start - 1] == part[d.start - 1]);
            assert(says_its_lines(lines, c));
        }
        assert forall|i: int, j: int| 0 <= i < j < chunks.len() implies (#[trigger] chunks[i]).end <= (
        #[trigger] chunks[j]).start by {
            lemma_in_line_order(sub, i, j);
            assert(chunks[i].end == sub[i].end + (a - 1));
            assert(chunks[j].start == sub[j].start + (a - 1));
        }
    }
}

proof fn lemma_in_line_order(chunks: Seq<CodeChunk>, i: int, j: int)
    requires
        0 <= i < j < chunks.len(),
        forall|k: int| 0 <= k < chunks.len() ==> (#[trigger] chunks[k]).start <= chunks[k].end,
        forall|k: int|
            0 < k < chunks.len() ==> (#[trigger] chunks[k]).start == chunks[k - 1].end + 1 || chunks[k].start
                == chunks[k].end == chunks[k - 1].end,
    ensures
        chunks[i].end <= chunks[j].start,
    decreases j - i,
{
    assert(chunks[j].start >= chunks[j - 1].end);
    if i < j - 1 {
        lemma_in_line_order(chunks, i, j - 1);
        assert(chunks[j - 1].start <= chunks[j - 1].end);
    }
}

proof fn lemma_spans_say(lines: Seq<Seq<char>>, spans: Seq<Span>, budget: usize)
    requires
        spans_within(spans, lines.len() as int),
        without_returns(lines),
        forall|i: int| 0 <= i < lines.len() ==> !(#[trigger] lines[i]).contains('\n'),
    ensures
        ({
            let (pos, out) = span_chunks(lines, spans, budget);
            &&& 1 <= pos <= lines.len() + 1
            &&& forall|i: int|
                0 <= i < out.len() ==> says_file_lines(lines, #[trigger] out[i]) && out[i].end < pos
            &&& forall|i: int, j: int|
                0 <= i < j < out.len() ==> (#[trigger] out[i]).end <= (#[trigger] out[j]).start
        }),
    decreases spans.len(),
{
    if spans.len() > 0 {
        let head = spans.drop_last();
        assert forall|i: int| 0 <= i < head.len() implies 1 <= (#[trigger] head[i]).0 <= head[i].1
            <= lines.len() by {
            assert(head[i] == spans[i]);
        }
        lemma_spans_say(lines, head, budget);
        let (pos, out) = span_chunks(lines, head, budget);
        let (s, e) = spans.last();
        assert(spans[spans.len() - 1] == (s, e));
        if s >= pos {
            let gap = if s > pos {
                range_chunks(lines, pos, s - 1, budget)
            } else {
                Seq::empty()
            };
            let own = range_chunks(lines, s as int, e as int, budget);
            if s > pos {
                lemma_range_says(lines, pos, s - 1, budget);
            }
            lemma_range_says(lines, s as int, e as int, budget);
            let all = out + gap + own;
            assert forall|i: int| 0 <= i < all.len() implies says_file_lines(lines, #[trigger] all[i])
                && all[i].end < e + 1 by {
                if i < out.len() {
                    assert(all[i] == out[i]);
                } else if i < out.len() + gap.len() {
                    assert(all[i] == gap[i - out.len()]);
                } else {
                    assert(all[i] == own[i - out.len() - gap.len()]);
                }
            }
            assert forall|i: int, j: int| 0 <= i < j < all.len() implies (#[trigger] all[i]).end <= (
            #[trigger] all[j]).start by {
                if j < out.len() {
                    assert(all[i] == out[i] && all[j] == out[j]);
                } else if j < out.len() + gap.len() {
                    assert(all[j] == gap[j - out.len()]);
                    if i < out.len() {
                        assert(all[i] == out[i]);
                    } else {
                        assert(all[i] == gap[i - out.len()]);
                    }
                } else {
                    assert(all[j] == own[j - out.len() - gap.len()]);
                    if i < out.len() {
                        assert(all[i] == out[i]);
                    } else if i < out.len() + gap.len() {
                        assert(all[i] == gap[i - out.len()]);
                    } else {
                        assert(all[i] == own[i - out.len() - gap.len()]);
                    }
                }
            }
        }
    }
}

/// Law: every chunk of a file says what the lines of its range say, and the chunks come in the order of
/// the lines; no line is told twice, but for pieces of one line.
pub proof fn law_file_chunks_say_their_lines(lines: Seq<Seq<char>>, spans: Seq<Span>, budget: usize)
    requires
        spans_within(spans, lines.len() as int),
        without_returns(lines),
        forall|i: int| 0 <= i < lines.len() ==> !(#[trigger] lines[i]).contains('\n'),
    ensures
        ({
            let chunks = file_chunks(lines, spans, budget);
            &&& forall|i: int| 0 <= i < chunks.len() ==> says_file_lines(lines, #[trigger] chunks[i])
            &&& forall|i: int, j: int|
                0 <= i < j < chunks.len() ==> (#[trigger] chunks[i]).end <= (#[trigger] chunks[j]).start
        }),
{
    lemma_spans_say(lines, spans, budget);
    let (pos, out) = span_chunks(lines, spans, budget);
    if pos <= lines.len() {
        let rest = range_chunks(lines, pos, lines.len() as int, budget);
        lemma_range_says(lines, pos, lines.len() as int, budget);
        let all = out + rest;
        assert forall|i: int| 0 <= i < all.len() implies says_file_lines(lines, #[trigger] all[i]) by {
            if i < out.len() {
                assert(all[i] == out[i]);
            } else {
                assert(all[i] == rest[i - out.len()]);
            }
        }
        assert forall|i: int, j: int| 0 <= i < j < all.len() implies (#[trigger] all[i]).end <= (
        #[trigger] all[j]).start by {
            if i < out.len() {
                assert(all[i] == out[i]);
            } else {
                assert(all[i] == rest[i - out.len()]);
            }
            if j < out.len() {
                assert(all[j] == out[j]);
            } else {
                assert(all[j] == rest[j - out.len()]);
            }
        }
    }
}

/// Law: which nodes delimit a definition: functions, types and what holds them, by the names that each
/// grammar gives them.
pub proof fn law_definition_kinds(kind: Seq<char>)
    ensures
        chunkable(Lang::Rust, kind) <==> (kind == "function_item"@ || kind == "struct_item"@ || kind
            == "enum_item"@ || kind == "union_item"@ || kind == "trait_item"@ || kind == "impl_item"@ || kind
            == "type_item"@ || kind == "mod_item"@ || kind == "macro_definition"@),
        chunkable(Lang::Python, kind) <==> (kind == "function_definition"@ || kind == "class_definition"@
            || kind == "decorated_definition"@),
        chunkable(Lang::JavaScript, kind) <==> (kind == "function_declaration"@ || kind
            == "generator_function_declaration"@ || kind == "method_definition"@ || kind
            == "class_declaration"@ || kind == "abstract_class_declaration"@ || kind
            == "interface_declaration"@ || kind == "enum_declaration"@ || kind == "type_alias_declaration"@),
        chunkable(Lang::TypeScript, kind) == chunkable(Lang::JavaScript, kind),
        chunkable(Lang::Tsx, kind) == chunkable(Lang::JavaScript, kind),
        chunkable(Lang::Go, kind) <==> (kind == "function_declaration"@ || kind == "method_declaration"@
            || kind == "type_declaration"@),
        chunkable(Lang::Java, kind) <==> (kind == "class_declaration"@ || kind == "interface_declaration"@
            || kind == "enum_declaration"@ || kind == "record_declaration"@ || kind == "method_declaration"@
            || kind == "constructor_declaration"@),
        chunkable(Lang::Kotlin, kind) <==> (kind == "class_declaration"@ || kind == "object_declaration"@
            || kind == "function_declaration"@),
        chunkable(Lang::C, kind) <==> (kind == "function_definition"@ || kind == "struct_specifier"@ || kind
            == "union_specifier"@ || kind == "enum_specifier"@ || kind == "type_definition"@),
        chunkable(Lang::Cpp, kind) <==> (chunkable(Lang::C, kind) || kind == "class_specifier"@ || kind
            == "namespace_definition"@ || kind == "template_declaration"@),
{
}

// ---------------------------------------------------------------------------------------------
// Symbols.
// ---------------------------------------------------------------------------------------------

/// The name that a declarator declares: its own text where it is a plain name, else that of the
/// declarator or name inside it.
pub open spec fn declared_name(content: Seq<char>, nodes: Seq<Syntax>, i: int) -> Option<Seq<char>>
    decreases nodes.len() - i,
{
    if i < 0 || i >= nodes.len() {
        None
    } else {
        let kind = nodes[i].kind;
        if kind == "identifier"@ || kind == "field_identifier"@ || kind == "type_identifier"@ || kind
            == "namespace_identifier"@ || kind == "destructor_name"@ || kind == "operator_name"@ {
            match node_text(content, nodes[i]) {
                Some(t) => if t.len() > 0 {
                    Some(t)
                } else {
                    None
                },
                None => None,
            }
        } else {
            let inner = if kind == "qualified_identifier"@ || kind == "template_function"@ {
                child_in_role(nodes, i, "name"@)
            } else {
                child_in_role(nodes, i, "declarator"@)
            };
            match inner {
                Some(c) => if i < c < nodes.len() {
                    declared_name(content, nodes, c)
                } else {
                    None
                },
                None => None,
            }
        }
    }
}

/// The name that a declarator declares.
pub fn declarator_name(content: &str, nodes: &Vec<SyntaxNode>, i: usize) -> (r: Option<String>)
    requires
        i < nodes@.len(),
    ensures
        crate::text::opt_text(r) == declared_name(content@, rows(nodes@), i as int),
    decreases nodes@.len() - i,
{
    let kind = nodes[i].kind.as_str();
    assert(rows(nodes@)[i as int] == nodes@[i as int]@);
    if same(kind, "identifier") || same(kind, "field_identifier") || same(kind, "type_identifier")
        || same(kind, "namespace_identifier") || same(kind, "destructor_name") || same(
        kind,
        "operator_name",
    ) {
        match text_of(content, &nodes[i]) {
            Some(t) => if t.as_str().is_empty() {
                None
            } else {
                Some(t)
            },
            None => None,
        }
    } else {
        let inner = if same(kind, "qualified_identifier") || same(kind, "template_function") {
            child_by_field(nodes, i, "name")
        } else {
            child_by_field(nodes, i, "declarator")
        };
        match inner {
            Some(c) => declarator_name(content, nodes, c),
            None => None,
        }
    }
}

/// The name of a definition: its name, or what its declarator declares.
pub open spec fn definition_name(content: Seq<char>, nodes: Seq<Syntax>, i: int) -> Option<Seq<char>> {
    match child_in_role(nodes, i, "name"@) {
        Some(c) => match node_text(content, nodes[c]) {
            Some(t) => if t.len() > 0 {
                Some(t)
            } else {
                None
            },
            None => None,
        },
        None => match child_in_role(nodes, i, "declarator"@) {
            Some(c) => declared_name(content, nodes, c),
            None => None,
        },
    }
}

fn name_of_definition(content: &str, nodes: &Vec<SyntaxNode>, i: usize) -> (r: Option<String>)
    requires
        i < nodes@.len(),
    ensures
        crate::text::opt_text(r) == definition_name(content@, rows(nodes@), i as int),
{
    match child_by_field(nodes, i, "name") {
        Some(c) => {
            assert(rows(nodes@)[c as int] == nodes@[c as int]@);
            match text_of(content, &nodes[c]) {
                Some(t) => if t.as_str().is_empty() {
                    None
                } else {
                    Some(t)
                },
                None => None,
            }
        },
        None => match child_by_field(nodes, i, "declarator") {
            Some(c) => declarator_name(content, nodes, c),
            None => None,
        },
    }
}

/// The symbols that the visited nodes define.
pub open spec fn symbols_among(content: Seq<char>, nodes: Seq<Syntax>, lang: Lang, visited: Seq<int>) -> Seq<
    Seq<char>,
>
    decreases visited.len(),
{
    if visited.len() == 0 {
        Seq::empty()
    } else {
        let before = symbols_among(content, nodes, lang, visited.drop_last());
        let i = visited.last();
        if chunkable(lang, nodes[i].kind) {
            match definition_name(content, nodes, i) {
                Some(t) => before.push("sym:"@ + t),
                None => before,
            }
        } else {
            before
        }
    }
}

/// The symbols that a parsed text defines, in ascending order, each once.
pub fn symbols_of(content: &str, nodes: &Vec<SyntaxNode>, lang: Lang) -> (r: Vec<String>)
    ensures
        texts(r@) == sorted_set_text(
            symbols_among(content@, rows(nodes@), lang, walk_all(rows(nodes@))),
        ),
{
    let ghost all = rows(nodes@);
    let visited = walk_nodes(nodes);
    let ghost vs = numbers(visited@);
    let mut syms: Vec<String> = Vec::new();
    assert(vs.take(0) =~= Seq::<int>::empty());
    assert(texts(syms@) =~= Seq::<Seq<char>>::empty());
    for k in 0..visited.len()
        invariant
            all == rows(nodes@),
            vs == numbers(visited@),
            forall|m: int| 0 <= m < visited@.len() ==> #[trigger] visited@[m] < nodes@.len(),
            texts(syms@) == symbols_among(content@, all, lang, vs.take(k as int)),
    {
        assert(vs.take(k + 1).drop_last() =~= vs.take(k as int));
        assert(vs.take(k + 1).last() == visited@[k as int] as int);
        let i: usize = visited[k];
        assert(all[i as int] == nodes@[i as int]@);
        if is_chunkable(lang, nodes[i].kind.as_str()) {
            match name_of_definition(content, nodes, i) {
                Some(t) => {
                    let ghost syms0 = syms@;
                    let sym = cat2("sym:", t.as_str());
                    syms.push(sym);
                    proof {
                        lemma_texts_push(syms0, sym);
                    }
                },
                None => {},
            }
        }
    }
    assert(vs.take(vs.len() as int) =~= vs);
    sorted_set(&syms)
}

/// The `sym:` entities of every definition in a text, in ascending order, each once, or none
/// where the text cannot be parsed.
pub fn extract_symbols_ts(content: &str, lang: Lang) -> (r: Option<Vec<String>>)
    ensures
        match (r, syntax_of(lang, content@)) {
            (Some(v), Some(nodes)) => texts(v@) == sorted_set_text(
                symbols_among(content@, nodes, lang, walk_all(nodes)),
            ),
            (None, None) => true,
            _ => false,
        },
{
    match syntax(lang, content) {
        Some(nodes) => Some(symbols_of(content, &nodes, lang)),
        None => None,
    }
}

proof fn lemma_symbols_among(content: Seq<char>, nodes: Seq<Syntax>, lang: Lang, visited: Seq<int>)
    ensures
        forall|t: Seq<char>| #[trigger]
            symbols_among(content, nodes, lang, visited).contains(t) <==> exists|k: int|
                0 <= k < visited.len() && chunkable(lang, nodes[#[trigger] visited[k]].kind)
                    && definition_name(content, nodes, visited[k]) is Some && t == "sym:"@ + definition_name(
                    content,
                    nodes,
                    visited[k],
                )->0,
    decreases visited.len(),
{
    if visited.len() > 0 {
        let head = visited.drop_last();
        lemma_symbols_among(content, nodes, lang, head);
        let before = symbols_among(content, nodes, lang, head);
        let all = symbols_among(content, nodes, lang, visited);
        assert(visited[visited.len() - 1] == visited.last());
        assert forall|t: Seq<char>| #[trigger] all.contains(t) <==> exists|k: int|
            0 <= k < visited.len() && chunkable(lang, nodes[#[trigger] visited[k]].kind) && definition_name(
                content,
                nodes,
                visited[k],
            ) is Some && t == "sym:"@ + definition_name(content, nodes, visited[k])->0 by {
            if before.contains(t) {
                let m = choose|m: int| 0 <= m < before.len() && before[m] == t;
                assert(all[m] == t);
                let k = choose|k: int|
                    0 <= k < head.len() && chunkable(lang, nodes[#[trigger] head[k]].kind) && definition_name(
                        content,
                        nodes,
                        head[k],
                    ) is Some && t == "sym:"@ + definition_name(content, nodes, head[k])->0;
                assert(visited[k] == head[k]);
            }
            if all.contains(t) && !before.contains(t) {
                let m = choose|m: int| 0 <= m < all.len() && all[m] == t;
                if m < before.len() {
                    assert(before[m] == t);
                }
            }
            if exists|k: int|
                0 <= k < visited.len() && chunkable(lang, nodes[#[trigger] visited[k]].kind)
                    && definition_name(content, nodes, visited[k]) is Some && t == "sym:"@ + definition_name(
                    content,
                    nodes,
                    visited[k],
                )->0 {
                let k = choose|k: int|
                    0 <= k < visited.len() && chunkable(lang, nodes[#[trigger] visited[k]].kind)
                        && definition_name(content, nodes, visited[k]) is Some && t == "sym:"@
                        + definition_name(content, nodes, visited[k])->0;
                if k < head.len() {
                    assert(head[k] == visited[k]);
                    assert(before.contains(t));
                } else {
                    assert(all[before.len() as int] == t);
                }
            }
        }
    }
}

/// The symbols of a parsed file.
pub open spec fn file_symbols(content: Seq<char>, nodes: Seq<Syntax>, lang: Lang) -> Seq<Seq<char>> {
    sorted_set_text(symbols_among(content, nodes, lang, walk_all(nodes)))
}

/// Law: every definition that has a name is a symbol of the file under that name, however deep it stands,
/// and a definition without one that has a plain declarator is a symbol under what that declares.
pub proof fn law_symbols(
    content: Seq<char>,
    nodes: Seq<Syntax>,
    lang: Lang,
    i: int,
    m: int,
    name: Seq<char>,
)
    requires
        walk_all(nodes).contains(i),
        chunkable(lang, nodes[i].kind),
        is_child_as(nodes, i, m, "name"@) || (is_child_as(nodes, i, m, "declarator"@) && (forall|c: int|
            !#[trigger] is_child_as(nodes, i, c, "name"@)) && (nodes[m].kind == "identifier"@ || nodes[m].kind
            == "field_identifier"@ || nodes[m].kind == "type_identifier"@)),
        node_text(content, nodes[m]) == Some(name),
        name.len() > 0,
    ensures
        file_symbols(content, nodes, lang).contains("sym:"@ + name),
{
    law_walk(nodes);
    law_child_in_role(nodes, i, "name"@);
    law_child_in_role(nodes, i, "declarator"@);
    let visited = walk_all(nodes);
    let all = symbols_among(content, nodes, lang, visited);
    if is_child_as(nodes, i, m, "name"@) {
        assert(child_in_role(nodes, i, "name"@) == Some(m));
    } else {
        assert(child_in_role(nodes, i, "name"@) is None);
        assert(child_in_role(nodes, i, "declarator"@) == Some(m));
        assert(declared_name(content, nodes, m) == Some(name));
    }
    assert(definition_name(content, nodes, i) == Some(name));
    let k = choose|k: int| 0 <= k < visited.len() && visited[k] == i;
    lemma_symbols_among(content, nodes, lang, visited);
    assert(chunkable(lang, nodes[visited[k]].kind));
    assert(all.contains("sym:"@ + name));
    lemma_sorted_set(all);
}

proof fn lemma_declared_name(content: Seq<char>, nodes: Seq<Syntax>, d: int) -> (m: int)
    requires
        0 <= d < nodes.len(),
        declared_name(content, nodes, d) is Some,
    ensures
        d <= m < nodes.len(),
        node_text(content, nodes[m]) == declared_name(content, nodes, d),
        (declared_name(content, nodes, d)->0).len() > 0,
        nodes[m].kind == "identifier"@ || nodes[m].kind == "field_identifier"@ || nodes[m].kind
            == "type_identifier"@ || nodes[m].kind == "namespace_identifier"@ || nodes[m].kind
            == "destructor_name"@ || nodes[m].kind == "operator_name"@,
    decreases nodes.len() - d,
{
    let kind = nodes[d].kind;
    if kind == "identifier"@ || kind == "field_identifier"@ || kind == "type_identifier"@ || kind
        == "namespace_identifier"@ || kind == "destructor_name"@ || kind == "operator_name"@ {
        d
    } else if kind == "qualified_identifier"@ || kind == "template_function"@ {
        lemma_declared_name(content, nodes, child_in_role(nodes, d, "name"@)->0)
    } else {
        lemma_declared_name(content, nodes, child_in_role(nodes, d, "declarator"@)->0)
    }
}

/// Law: every symbol of a file is the text of a name in one of its definitions: the name of the
/// definition, or a plain name within its declarator. The symbols come in ascending order, each once.
pub proof fn law_symbols_only(content: Seq<char>, nodes: Seq<Syntax>, lang: Lang)
    ensures
        forall|t: Seq<char>| #[trigger]
            file_symbols(content, nodes, lang).contains(t) ==> exists|i: int, m: int|
                #![trigger walk_all(nodes).contains(i), node_text(content, nodes[m])]
                walk_all(nodes).contains(i) && chunkable(lang, nodes[i].kind) && i < m < nodes.len() && (
                is_child_as(nodes, i, m, "name"@) || nodes[m].kind == "identifier"@ || nodes[m].kind
                    == "field_identifier"@ || nodes[m].kind == "type_identifier"@ || nodes[m].kind
                    == "namespace_identifier"@ || nodes[m].kind == "destructor_name"@ || nodes[m].kind
                    == "operator_name"@) && node_text(content, nodes[m]) is Some && t == "sym:"@ + node_text(
                    content,
                    nodes[m],
                )->0 && t.len() > 4,
        forall|a: int, b: int|
            0 <= a < b < file_symbols(content, nodes, lang).len() ==> text_less(
                #[trigger] file_symbols(content, nodes, lang)[a],
                #[trigger] file_symbols(content, nodes, lang)[b],
            ),
{
    let visited = walk_all(nodes);
    let all = symbols_among(content, nodes, lang, visited);
    lemma_sorted_set(all);
    lemma_symbols_among(content, nodes, lang, visited);
    reveal_strlit("sym:");
    assert forall|t: Seq<char>| #[trigger] file_symbols(content, nodes, lang).contains(t) implies exists|
        i: int,
        m: int,
    |
        #![trigger walk_all(nodes).contains(i), node_text(content, nodes[m])]
        walk_all(nodes).contains(i) && chunkable(lang, nodes[i].kind) && i < m < nodes.len() && (is_child_as(
            nodes,
            i,
            m,
            "name"@,
        ) || nodes[m].kind == "identifier"@ || nodes[m].kind == "field_identifier"@ || nodes[m].kind
            == "type_identifier"@ || nodes[m].kind == "namespace_identifier"@ || nodes[m].kind
            == "destructor_name"@ || nodes[m].kind == "operator_name"@) && node_text(content, nodes[m]) is Some
            && t == "sym:"@ + node_text(content, nodes[m])->0 && t.len() > 4 by {
        assert(all.contains(t));
        let k = choose|k: int|
            0 <= k < visited.len() && chunkable(lang, nodes[#[trigger] visited[k]].kind) && definition_name(
                content,
                nodes,
                visited[k],
            ) is Some && t == "sym:"@ + definition_name(content, nodes, visited[k])->0;
        let i = visited[k];
        assert(visited.contains(i));
        law_walk(nodes);
        law_child_in_role(nodes, i, "name"@);
        law_child_in_role(nodes, i, "declarator"@);
        let m = if child_in_role(nodes, i, "name"@) is Some {
            child_in_role(nodes, i, "name"@)->0
        } else {
            lemma_declared_name(content, nodes, child_in_role(nodes, i, "declarator"@)->0)
        };
        assert(node_text(content, nodes[m]) is Some);
    }
}

/// Law: the language of a file is told by its extension, whatever its case and whatever stands before it.
pub proof fn law_language_by_extension(path: Seq<char>, ext: Seq<char>)
    requires
        !ext.contains('.'),
    ensures
        ({
            let told = lang_of_extension(ascii_lower_text(last_segment_text(path + seq!['.'] + ext, '.')));
            let low = ascii_lower_text(ext);
            &&& told == Some(Lang::Rust) ==> low == "rs"@
            &&& told == Some(Lang::Python) ==> (low == "py"@ || low == "pyi"@)
            &&& told == Some(Lang::JavaScript) ==> (low == "js"@ || low == "jsx"@ || low == "mjs"@ || low
                == "cjs"@)
            &&& told == Some(Lang::TypeScript) ==> (low == "ts"@ || low == "mts"@ || low == "cts"@)
            &&& told == Some(Lang::Tsx) ==> low == "tsx"@
            &&& told == Some(Lang::Go) ==> low == "go"@
            &&& told == Some(Lang::Java) ==> low == "java"@
            &&& told == Some(Lang::Kotlin) ==> (low == "kt"@ || low == "kts"@)
            &&& told == Some(Lang::C) ==> low == "c"@
            &&& told == Some(Lang::Cpp) ==> (low == "cpp"@ || low == "cc"@ || low == "cxx"@ || low == "h"@
                || low == "hh"@ || low == "hpp"@ || low == "hxx"@)
            &&& (low == "rs"@ || low == "py"@ || low == "pyi"@ || low == "js"@ || low == "jsx"@ || low == "mjs"@
                || low == "cjs"@ || low == "ts"@ || low == "mts"@ || low == "cts"@ || low == "tsx"@ || low
                == "go"@ || low == "java"@ || low == "kt"@ || low == "kts"@ || low == "c"@ || low == "cpp"@
                || low == "cc"@ || low == "cxx"@ || low == "h"@ || low == "hh"@ || low == "hpp"@ || low
                == "hxx"@) ==> told is Some
        }),
{
    lemma_last_of_join(path, ext, '.');
}

proof fn lemma_longer_range(lines: Seq<Seq<char>>, a: int, b: int, c: int)
    requires
        1 <= a <= b <= c <= lines.len(),
    ensures
        tokens(range_text(lines, a, b)) <= tokens(range_text(lines, a, c)),
    decreases c - b,
{
    if b < c {
        lemma_longer_range(lines, a, b, c - 1);
        let part = lines.subrange(a - 1, c);
        let shorter = lines.subrange(a - 1, c - 1);
        assert(part.drop_last() =~= shorter);
        let t = range_text(lines, a, c - 1);
        assert(range_text(lines, a, c) =~= t + ("\n"@ + part.last()));
        law_tokens_subadditive(t, "\n"@ + part.last());
    }
}

/// Whether two neighbours would not fit into the budget together.
pub open spec fn apart(lines: Seq<Seq<char>>, a: Span, b: Span, budget: usize) -> bool {
    a.1 < b.0 && tokens(join_texts(lines.subrange(a.0 - 1, b.1 as int), "\n"@)) > budget
}

/// Law: small definitions are packed together as far as they go: no two neighbours would fit into the budget
/// with what stands between them, and each definition begins within one of the spans.
pub proof fn law_packed_spans(lines: Seq<Seq<char>>, spans: Seq<Span>, budget: usize)
    requires
        spans_within(spans, lines.len() as int),
        forall|i: int, j: int| 0 <= i < j < spans.len() ==> (#[trigger] spans[i]).0 <= (#[trigger] spans[j]).0,
    ensures
        forall|i: int|
            0 <= i < packed_spans(lines, spans, budget).len() - 1 ==> apart(
                lines,
                #[trigger] packed_spans(lines, spans, budget)[i],
                packed_spans(lines, spans, budget)[i + 1],
                budget,
            ),
        forall|j: int| 0 <= j < spans.len() ==> begins_within(packed_spans(lines, spans, budget), #[trigger] spans[j]),
    decreases spans.len(),
{
    if spans.len() > 0 {
        let head = spans.drop_last();
        assert forall|i: int| 0 <= i < head.len() implies 1 <= (#[trigger] head[i]).0 <= head[i].1 <= lines.len() by {
            assert(head[i] == spans[i]);
        }
        assert forall|i: int, j: int| 0 <= i < j < head.len() implies (#[trigger] head[i]).0 <= (
        #[trigger] head[j]).0 by {
            assert(head[i] == spans[i] && head[j] == spans[j]);
        }
        law_packed_spans(lines, head, budget);
        lemma_packed_within(lines, head, budget);
        lemma_packed_starts(lines, head, budget);
        let before = packed_spans(lines, head, budget);
        let all = packed_spans(lines, spans, budget);
        let last = spans.last();
        assert(spans[spans.len() - 1] == last);
        let n = before.len() as int;
        assert forall|i: int| 0 <= i < all.len() - 1 implies apart(lines, #[trigger] all[i], all[i + 1], budget) by {
            if n > 0 && last.0 > before.last().1 {
                assert(1 <= before[n - 1].0 <= before[n - 1].1 <= lines.len());
                if all.len() == n {
                    assert(all[i] == before[i]);
                    assert(apart(lines, before[i], before[i + 1], budget));
                    if i + 1 == n - 1 {
                        assert(1 <= before[i].0 <= before[i].1 <= lines.len());
                        lemma_longer_range(
                            lines,
                            before[i].0 as int,
                            before[n - 1].1 as int,
                            last.1 as int,
                        );
                    } else {
                        assert(all[i + 1] == before[i + 1]);
                    }
                } else {
                    if i + 1 < n {
                        assert(all[i] == before[i] && all[i + 1] == before[i + 1]);
                        assert(apart(lines, before[i], before[i + 1], budget));
                    }
                }
            } else if n > 0 {
                assert(all == before);
            }
        }
        assert forall|j: int| 0 <= j < spans.len() implies begins_within(all, #[trigger] spans[j]) by {
            if j < head.len() {
                assert(head[j] == spans[j]);
                assert(begins_within(before, head[j]));
                let i = choose|i: int| 0 <= i < before.len() && (#[trigger] before[i]).0 <= head[j].0 <= before[i].1;
                assert(all[i].0 == before[i].0 && all[i].1 >= before[i].1);
            } else if n == 0 {
                assert(all[0] == last);
            } else if last.0 <= before.last().1 {
                assert(all == before);
                let first = lemma_last_start(lines, head, budget);
                assert(head[first] == spans[first]);
                assert(before[n - 1].0 <= last.0 <= before[n - 1].1);
            } else if all.len() == n {
                let first = lemma_last_start(lines, head, budget);
                assert(head[first] == spans[first]);
                assert(all[n - 1].0 <= last.0 <= all[n - 1].1);
            } else {
                assert(all[n] == last);
            }
        }
    }
}

/// Whether a definition begins within one of some spans.
pub open spec fn begins_within(packed: Seq<Span>, s: Span) -> bool {
    exists|i: int| 0 <= i < packed.len() && (#[trigger] packed[i]).0 <= s.0 <= packed[i].1
}

proof fn lemma_last_start(lines: Seq<Seq<char>>, spans: Seq<Span>, budget: usize) -> (first: int)
    requires
        packed_spans(lines, spans, budget).len() > 0,
    ensures
        0 <= first < spans.len(),
        packed_spans(lines, spans, budget).last().0 == spans[first].0,
    decreases spans.len(),
{
    let head = spans.drop_last();
    let before = packed_spans(lines, head, budget);
    let all = packed_spans(lines, spans, budget);
    if before.len() == 0 {
        spans.len() - 1
    } else if all.len() > before.len() {
        spans.len() - 1
    } else {
        let first = lemma_last_start(lines, head, budget);
        assert(head[first] == spans[first]);
        first
    }
}

proof fn lemma_packed_starts(lines: Seq<Seq<char>>, spans: Seq<Span>, budget: usize)
    ensures
        spans.len() > 0 ==> packed_spans(lines, spans, budget).len() > 0,
    decreases spans.len(),
{
    if spans.len() > 0 {
        lemma_packed_starts(lines, spans.drop_last(), budget);
    }
}

} // verus!
