//! Ingesting documents: chunking, entities, edges, embedding, and the commit.

use crate::chunking::{
    chunk_lines_spec, code_chunks, definition_marks, law_chunk_lines_cover_every_line,
    law_chunk_lines_say_their_lines, CODE_CHUNK_TOKEN_BUDGET, CodeChunk,
};
use crate::embed::Embedder;
use crate::graph::{extract_edges, file_edges, law_file_edges_distinct};
use crate::json::{json_as_str, json_get, json_member, json_string};
use crate::model::{distinct_edges, Doc, Edge, Error, MemoryDoc, NewDoc, RawEdge};
use crate::pattern::{
    regex_between, regex_capture_all, regex_captures, regex_find_all, regex_matches, regex_split_all,
};
use crate::store::docs::{chunk_of, doc_is, doc_upserted, id_taken, lemma_docs_upserted, upsert_refused};
use crate::store::edges::edges_from_doc;
use crate::store::ingest::{
    chunk_clash, chunk_id_of, commit_refused, committed, embeddings_of, holds_commit,
    law_commit_stores_chunks, law_commit_twice, text_lists, Parts,
};
use crate::store::{copy_embedding, random_id, Chunk, State, Store};
use crate::syntax::{syntax_of, walk_all, Syntax};
use crate::table::{
    first_row, lemma_distinct_where, lemma_rows_push, lemma_rows_where_contains, rows, rows_where, select,
};
use crate::text::{
    ascii_lower_text, cat2, copy_texts, decimal, decimal_of, has_prefix, last_segment_text, lemma_lines_free,
    lemma_sorted_set, lemma_texts_push, lines_text, lowercase, opt_text, opt_texts, same, sorted_set,
    sorted_set_text, strip_prefix, strip_prefix_text, text_less, texts,
};
use crate::treesit::{
    chunk_code_ts, chunk_native, definition_spans, extract_symbols_ts, file_chunks, file_symbols,
    lang_for_path, lang_of_extension, law_file_chunks_say_their_lines, lemma_definition_spans_within,
    lemma_packed_within, packed_spans, says_file_lines, symbols_among, without_returns, Lang,
};
use vstd::prelude::*;
use vstd::utf8::encode_utf8;

pub use crate::chunking::{chunk, chunk_code, chunk_code_with, chunk_spec, estimate_tokens};

verus! {

/// Number of chunks per batch embedding call.
pub const EMBED_BATCH: usize = 64;

// ---------------------------------------------------------------------------------------------
// Entities.
// ---------------------------------------------------------------------------------------------

pub const EMAIL: &'static str = r"[\w.+-]+@[\w-]+\.[\w.-]+";

pub const URL: &'static str = r"https?://[^\s]+";

pub const HANDLE: &'static str = r"(?:^|[^\w@])@(\w+)";

pub const HASHTAG: &'static str = r"(?:^|[^\w#])#(\w+)";

pub const DEFINITION: &'static str = r"(?m)^\s*(?:pub\s+)?(?:async\s+)?(?:fn|def|class|struct|enum|interface|trait|type|func)\s+([A-Za-z_][A-Za-z0-9_]*)";

pub const IMPORT: &'static str = r#"(?m)^\s*(?:use|import|from|require|include|using)\s+([^\s;(){}'"]+)"#;

/// What a search found, or nothing where its pattern is not valid.
pub open spec fn found(o: Option<Seq<Seq<char>>>) -> Seq<Seq<char>> {
    match o {
        Some(s) => s,
        None => Seq::empty(),
    }
}

fn or_none(o: Option<Vec<String>>) -> (r: Vec<String>)
    ensures
        texts(r@) == found(opt_texts(o)),
{
    match o {
        Some(v) => v,
        None => {
            let v: Vec<String> = Vec::new();
            assert(texts(v@) =~= Seq::<Seq<char>>::empty());
            v
        },
    }
}

/// The entities with this prefix and these names.
pub open spec fn prefixed(prefix: Seq<char>, names: Seq<Seq<char>>) -> Seq<Seq<char>> {
    names.map_values(|n: Seq<char>| prefix + n)
}

/// The entities with this prefix and these names in lower case.
pub open spec fn prefixed_lower(prefix: Seq<char>, names: Seq<Seq<char>>) -> Seq<Seq<char>> {
    names.map_values(|n: Seq<char>| prefix + lowercase(n))
}

fn push_prefixed(out: &mut Vec<String>, prefix: &str, names: &Vec<String>)
    ensures
        texts(final(out)@) == texts(old(out)@) + prefixed(prefix@, texts(names@)),
{
    let ghost before = texts(out@);
    let ghost all = prefixed(prefix@, texts(names@));
    assert(before + all.take(0) =~= before);
    for i in 0..names.len()
        invariant
            all == prefixed(prefix@, texts(names@)),
            texts(out@) == before + all.take(i as int),
    {
        let ghost out0 = out@;
        let e = cat2(prefix, names[i].as_str());
        out.push(e);
        proof {
            lemma_texts_push(out0, e);
            assert(all.take(i + 1) =~= all.take(i as int).push(e@));
            assert(texts(out@) =~= before + all.take(i + 1));
        }
    }
    assert(all.take(all.len() as int) =~= all);
}

fn push_prefixed_lower(out: &mut Vec<String>, prefix: &str, names: &Vec<String>)
    ensures
        texts(final(out)@) == texts(old(out)@) + prefixed_lower(prefix@, texts(names@)),
{
    let ghost before = texts(out@);
    let ghost all = prefixed_lower(prefix@, texts(names@));
    assert(before + all.take(0) =~= before);
    for i in 0..names.len()
        invariant
            all == prefixed_lower(prefix@, texts(names@)),
            texts(out@) == before + all.take(i as int),
    {
        let ghost out0 = out@;
        let lower = names[i].as_str().to_lowercase();
        let e = cat2(prefix, lower.as_str());
        out.push(e);
        proof {
            lemma_texts_push(out0, e);
            assert(all.take(i + 1) =~= all.take(i as int).push(e@));
            assert(texts(out@) =~= before + all.take(i + 1));
        }
    }
    assert(all.take(all.len() as int) =~= all);
}

/// `n` spaces.
pub open spec fn spaces(n: nat) -> Seq<char> {
    Seq::new(n, |i: int| ' ')
}

/// A text in which each match is replaced by as many spaces as it has bytes, given the texts
/// around the matches.
pub open spec fn masked(around: Seq<Seq<char>>, matches: Seq<Seq<char>>, n: int) -> Seq<char>
    decreases n,
{
    if n <= 0 {
        Seq::empty()
    } else {
        masked(around, matches, n - 1) + around[n - 1] + if n - 1 < matches.len() {
            spaces(encode_utf8(matches[n - 1]).len())
        } else {
            Seq::empty()
        }
    }
}

/// The text with every match masked by spaces.
pub fn mask(around: &Vec<String>, matches: &Vec<String>) -> (r: String)
    ensures
        r@ == masked(texts(around@), texts(matches@), around@.len() as int),
{
    let mut out = String::new();
    for i in 0..around.len()
        invariant
            out@ == masked(texts(around@), texts(matches@), i as int),
    {
        out.push_str(around[i].as_str());
        let ghost with_around = out@;
        assert(with_around + Seq::<char>::empty() =~= with_around);
        if i < matches.len() {
            let n: usize = matches[i].as_str().as_bytes().len();
            assert(with_around + spaces(0) =~= with_around);
            for k in 0..n
                invariant
                    out@ == with_around + spaces(k as nat),
            {
                out.push(' ');
                assert(out@ =~= with_around + spaces((k + 1) as nat));
            }
        }
    }
    out
}

/// The entities that prose mentions, given the addresses, links, handles and tags in it.
pub open spec fn mention_ids(
    emails: Seq<Seq<char>>,
    urls: Seq<Seq<char>>,
    handles: Seq<Seq<char>>,
    hashtags: Seq<Seq<char>>,
) -> Seq<Seq<char>> {
    sorted_set_text(
        prefixed_lower("email:"@, emails) + prefixed("url:"@, urls) + prefixed_lower(
            "handle:"@,
            handles,
        ) + prefixed_lower("hashtag:"@, hashtags),
    )
}

/// The entities that prose mentions, given the addresses, links, handles and tags in it: in
/// ascending order, each once. All but links are in lower case.
pub fn mention_entities(
    emails: &Vec<String>,
    urls: &Vec<String>,
    handles: &Vec<String>,
    hashtags: &Vec<String>,
) -> (r: Vec<String>)
    ensures
        texts(r@) == mention_ids(
            texts(emails@),
            texts(urls@),
            texts(handles@),
            texts(hashtags@),
        ),
{
    let mut out: Vec<String> = Vec::new();
    assert(texts(out@) =~= Seq::<Seq<char>>::empty());
    push_prefixed_lower(&mut out, "email:", emails);
    assert(texts(out@) =~= prefixed_lower("email:"@, texts(emails@)));
    push_prefixed(&mut out, "url:", urls);
    push_prefixed_lower(&mut out, "handle:", handles);
    push_prefixed_lower(&mut out, "hashtag:", hashtags);
    sorted_set(&out)
}

/// The text with its links masked.
pub open spec fn without_links(text: Seq<char>) -> Seq<char> {
    let around = found(regex_between(URL@, text));
    masked(around, found(regex_matches(URL@, text)), around.len() as int)
}

/// The entities that a text of prose mentions.
pub open spec fn prose_entities(text: Seq<char>) -> Seq<Seq<char>> {
    mention_ids(
        found(regex_matches(EMAIL@, text)),
        found(regex_matches(URL@, text)),
        found(regex_captures(HANDLE@, without_links(text))),
        found(regex_captures(HASHTAG@, without_links(text))),
    )
}

/// The entities that a text of prose mentions: `email:`, `url:`, `handle:` and `hashtag:` ids,
/// in ascending order, each once. Handles and tags inside a link do not count.
pub fn extract_entities(text: &str) -> (r: Vec<String>)
    ensures
        texts(r@) == prose_entities(text@),
{
    let emails = or_none(regex_find_all(EMAIL, text));
    let urls = or_none(regex_find_all(URL, text));
    let around = or_none(regex_split_all(URL, text));
    let plain = mask(&around, &urls);
    let handles = or_none(regex_capture_all(HANDLE, plain.as_str()));
    let hashtags = or_none(regex_capture_all(HASHTAG, plain.as_str()));
    assert(texts(around@).len() == around@.len());
    mention_entities(&emails, &urls, &handles, &hashtags)
}

/// The entities of a chunk of code, given the names that it defines and imports.
pub open spec fn code_ids(defined: Seq<Seq<char>>, imported: Seq<Seq<char>>) -> Seq<Seq<char>> {
    sorted_set_text(prefixed("sym:"@, defined) + prefixed("import:"@, imported))
}

/// The entities of a chunk of code, given the names that it defines and imports: in ascending
/// order, each once, the case kept.
pub fn code_entities(defined: &Vec<String>, imported: &Vec<String>) -> (r: Vec<String>)
    ensures
        texts(r@) == code_ids(texts(defined@), texts(imported@)),
{
    let mut out: Vec<String> = Vec::new();
    assert(texts(out@) =~= Seq::<Seq<char>>::empty());
    push_prefixed(&mut out, "sym:", defined);
    assert(texts(out@) =~= prefixed("sym:"@, texts(defined@)));
    push_prefixed(&mut out, "import:", imported);
    sorted_set(&out)
}

/// The entities of a chunk of code, found by line patterns.
pub open spec fn pattern_entities(text: Seq<char>) -> Seq<Seq<char>> {
    code_ids(found(regex_captures(DEFINITION@, text)), found(regex_captures(IMPORT@, text)))
}

/// The entities of a chunk of code, found by line patterns: `sym:` for definitions, `import:`
/// for imports.
pub fn extract_code_entities(text: &str) -> (r: Vec<String>)
    ensures
        texts(r@) == pattern_entities(text@),
{
    let defined = or_none(regex_capture_all(DEFINITION, text));
    let imported = or_none(regex_capture_all(IMPORT, text));
    code_entities(&defined, &imported)
}

// ---------------------------------------------------------------------------------------------
// The plan of an ingest.
// ---------------------------------------------------------------------------------------------

/// How code is ingested.
#[derive(Debug, Clone, Copy)]
pub struct IngestOptions {
    /// Split code chunks where a definition starts (line patterns only).
    pub symbol_split: bool,
    /// Chunk code and find its symbols by syntax tree, where the language has a grammar.
    pub tree_sitter: bool,
    /// Pack small definitions of C and C++ together, up to so many tokens.
    pub native_budget: Option<usize>,
    /// Extract code-graph edges.
    pub code_graph: bool,
    /// Drop edges that are less sure than this, in hundredths.
    pub min_confidence: u32,
}

/// Whether meta data say that a document is a file.
pub open spec fn meta_is_file(meta: Option<Seq<char>>) -> bool {
    match meta {
        Some(m) => match json_member(m, "kind"@) {
            Some(k) => json_string(k) == Some("file"@),
            None => false,
        },
        None => false,
    }
}

/// Whether meta data say that a document is a file, which makes it code.
pub fn is_file_meta(meta: &Option<String>) -> (r: bool)
    ensures
        r == meta_is_file(opt_text(*meta)),
{
    match meta {
        Some(m) => match json_get(m.as_str(), "kind") {
            Some(k) => match json_as_str(k.as_str()) {
                Some(s) => same(s.as_str(), "file"),
                None => false,
            },
            None => false,
        },
        None => false,
    }
}

/// Whether a document is code.
pub open spec fn is_file(new: NewDoc) -> bool {
    meta_is_file(opt_text(new.meta))
}

/// Whether a document is code.
pub fn is_code(new: &NewDoc) -> (r: bool)
    ensures
        r == is_file(*new),
{
    is_file_meta(&new.meta)
}

/// The language by whose grammar a file is read, if any.
pub open spec fn grammar_of(key: Seq<char>, opts: IngestOptions) -> Option<Lang> {
    if opts.tree_sitter {
        lang_of_extension(
            crate::text::ascii_lower_text(crate::text::last_segment_text(key, '.')),
        )
    } else {
        None
    }
}

fn grammar_for(key: &str, opts: &IngestOptions) -> (r: Option<Lang>)
    ensures
        r == grammar_of(key@, *opts),
{
    if opts.tree_sitter {
        lang_for_path(key)
    } else {
        None
    }
}

/// The chunks that packing by line gives.
pub open spec fn line_chunks(content: Seq<char>, opts: IngestOptions) -> Seq<CodeChunk> {
    chunk_lines_spec(lines_text(content), definition_marks(lines_text(content), opts.symbol_split))
}

/// The token budget of packing, where definitions of this language are packed.
pub open spec fn packing_budget(lang: Lang, opts: IngestOptions) -> Option<usize> {
    if lang == Lang::C || lang == Lang::Cpp {
        opts.native_budget
    } else {
        None
    }
}

/// The chunks of a file: by syntax tree where there is a grammar and the text can be parsed,
/// else by line.
pub open spec fn code_pieces(content: Seq<char>, lang: Option<Lang>, opts: IngestOptions) -> Seq<CodeChunk> {
    match lang {
        Some(l) => match syntax_of(l, content) {
            Some(nodes) => {
                let lines = lines_text(content);
                let spans = definition_spans(nodes, l, lines.len() as int);
                match packing_budget(l, opts) {
                    Some(b) => file_chunks(lines, packed_spans(lines, spans, b), b),
                    None => file_chunks(lines, spans, CODE_CHUNK_TOKEN_BUDGET),
                }
            },
            None => line_chunks(content, opts),
        },
        None => line_chunks(content, opts),
    }
}

fn chunk_file(content: &str, lang: Option<Lang>, opts: &IngestOptions) -> (r: Vec<
    (String, usize, usize),
>)
    ensures
        code_chunks(r@) == code_pieces(content@, lang, *opts),
{
    match lang {
        Some(l) => {
            let budget: Option<usize> = match l {
                Lang::C => opts.native_budget,
                Lang::Cpp => opts.native_budget,
                _ => None,
            };
            let chunks = match budget {
                Some(b) => chunk_native(content, l, b),
                None => chunk_code_ts(content, l),
            };
            match chunks {
                Some(v) => v,
                None => chunk_code_with(content, opts.symbol_split),
            }
        },
        None => chunk_code_with(content, opts.symbol_split),
    }
}

/// The entities of one chunk of a file: its symbols (by syntax tree where there is a grammar),
/// its imports, and the path of the file; in ascending order, each once.
pub open spec fn piece_entities(text: Seq<char>, key: Seq<char>, lang: Option<Lang>) -> Seq<Seq<char>> {
    let mechanical = match lang {
        Some(l) => match syntax_of(l, text) {
            Some(nodes) => sorted_set_text(symbols_among(text, nodes, l, walk_all(nodes)))
                + prefixed("import:"@, found(regex_captures(IMPORT@, text))),
            None => pattern_entities(text),
        },
        None => pattern_entities(text),
    };
    sorted_set_text(mechanical.push("path:"@ + key))
}

fn entities_of_piece(text: &str, key: &str, lang: Option<Lang>) -> (r: Vec<String>)
    ensures
        texts(r@) == piece_entities(text@, key@, lang),
{
    let mut es: Vec<String> = match lang {
        Some(l) => match extract_symbols_ts(text, l) {
            Some(v) => {
                let mut v = v;
                let imported = or_none(regex_capture_all(IMPORT, text));
                push_prefixed(&mut v, "import:", &imported);
                v
            },
            None => extract_code_entities(text),
        },
        None => extract_code_entities(text),
    };
    let path = cat2("path:", key);
    let ghost es0 = es@;
    es.push(path);
    proof {
        lemma_texts_push(es0, path);
    }
    sorted_set(&es)
}

/// One chunk that is to be embedded and stored.
#[verifier::ext_equal]
pub struct Planned {
    pub text: Seq<char>,
    pub range: Option<(u64, u64)>,
    pub entities: Seq<Seq<char>>,
}

/// One chunk that is to be embedded and stored.
#[derive(Debug)]
pub struct PlannedChunk {
    pub text: String,
    pub range: Option<(u64, u64)>,
    pub entities: Vec<String>,
}

impl View for PlannedChunk {
    type V = Planned;

    open spec fn view(&self) -> Planned {
        Planned { text: self.text@, range: self.range, entities: texts(self.entities@) }
    }
}

/// The chunks of a document: code by line or syntax tree with line ranges, prose by paragraph.
pub open spec fn planned_chunks(new: NewDoc, opts: IngestOptions) -> Seq<Planned> {
    if is_file(new) {
        let lang = grammar_of(new.key@, opts);
        code_pieces(new.content@, lang, opts).map_values(
            |c: CodeChunk|
                Planned {
                    text: c.text,
                    range: Some((c.start as u64, c.end as u64)),
                    entities: piece_entities(c.text, new.key@, lang),
                },
        )
    } else {
        chunk_spec(new.content@).map_values(
            |t: Seq<char>| Planned { text: t, range: None, entities: prose_entities(t) },
        )
    }
}

/// Plans the chunks of a document.
pub fn plan_chunks(new: &NewDoc, opts: &IngestOptions) -> (r: Vec<PlannedChunk>)
    ensures
        rows(r@) == planned_chunks(*new, *opts),
{
    let ghost all = planned_chunks(*new, *opts);
    let mut out: Vec<PlannedChunk> = Vec::new();
    assert(rows(out@) =~= all.take(0));
    if is_code(new) {
        let lang = grammar_for(new.key.as_str(), opts);
        let pieces = chunk_file(new.content.as_str(), lang, opts);
        for i in 0..pieces.len()
            invariant
                lang == grammar_of(new.key@, *opts),
                code_chunks(pieces@) == code_pieces(new.content@, lang, *opts),
                is_file(*new),
                all == planned_chunks(*new, *opts),
                rows(out@) == all.take(i as int),
        {
            let ghost out0 = out@;
            assert(code_chunks(pieces@)[i as int].text == pieces@[i as int].0@);
            let p = PlannedChunk {
                text: pieces[i].0.clone(),
                range: Some((pieces[i].1 as u64, pieces[i].2 as u64)),
                entities: entities_of_piece(pieces[i].0.as_str(), new.key.as_str(), lang),
            };
            out.push(p);
            proof {
                lemma_rows_push(out0, p);
                assert(p@ =~= all[i as int]);
                assert(all.take(i + 1) =~= all.take(i as int).push(all[i as int]));
            }
        }
    } else {
        let pieces = chunk(new.content.as_str());
        for i in 0..pieces.len()
            invariant
                texts(pieces@) == chunk_spec(new.content@),
                !is_file(*new),
                all == planned_chunks(*new, *opts),
                rows(out@) == all.take(i as int),
        {
            let ghost out0 = out@;
            assert(texts(pieces@)[i as int] == pieces@[i as int]@);
            let p = PlannedChunk {
                text: pieces[i].clone(),
                range: None,
                entities: extract_entities(pieces[i].as_str()),
            };
            out.push(p);
            proof {
                lemma_rows_push(out0, p);
                assert(p@ =~= all[i as int]);
                assert(all.take(i + 1) =~= all.take(i as int).push(all[i as int]));
            }
        }
    }
    assert(all.take(all.len() as int) =~= all);
    out
}

/// The names of a list of symbols, without their prefix.
pub open spec fn bare_names(syms: Seq<Seq<char>>) -> Seq<Seq<char>> {
    syms.map_values(
        |s: Seq<char>|
            match strip_prefix_text(s, "sym:"@) {
                Some(t) => t,
                None => s,
            },
    )
}

/// The edges that are sure enough.
pub open spec fn sure_enough(min: u32) -> spec_fn(Edge) -> bool {
    |e: Edge| e.confidence >= min
}

/// The edges of a document: those of its syntax tree that are sure enough, where it is code with
/// a grammar and edges are asked for.
pub open spec fn planned_edges(new: NewDoc, opts: IngestOptions) -> Seq<Edge> {
    if opts.code_graph && is_file(new) {
        match grammar_of(new.key@, opts) {
            Some(l) => match syntax_of(l, new.content@) {
                Some(nodes) => if l == Lang::Rust || l == Lang::C || l == Lang::Cpp {
                    rows_where(
                        file_edges(
                            new.content@,
                            nodes,
                            l,
                            bare_names(
                                sorted_set_text(
                                    symbols_among(new.content@, nodes, l, walk_all(nodes)),
                                ),
                            ),
                        ),
                        sure_enough(opts.min_confidence),
                    )
                } else {
                    Seq::empty()
                },
                None => Seq::empty(),
            },
            None => Seq::empty(),
        }
    } else {
        Seq::empty()
    }
}

/// Plans the edges of a document.
pub fn plan_edges(new: &NewDoc, opts: &IngestOptions) -> (r: Vec<RawEdge>)
    ensures
        rows(r@) == planned_edges(*new, *opts),
{
    let none: Vec<RawEdge> = Vec::new();
    assert(rows(none@) =~= Seq::<Edge>::empty());
    if !opts.code_graph || !is_code(new) {
        return none;
    }
    let l = match grammar_for(new.key.as_str(), opts) {
        Some(l) => l,
        None => {
            return none;
        },
    };
    let syms = match extract_symbols_ts(new.content.as_str(), l) {
        Some(v) => v,
        None => {
            return none;
        },
    };
    let ghost bare = bare_names(texts(syms@));
    let mut names: Vec<String> = Vec::new();
    assert(texts(names@) =~= bare.take(0));
    for i in 0..syms.len()
        invariant
            bare == bare_names(texts(syms@)),
            texts(names@) == bare.take(i as int),
    {
        let ghost names0 = names@;
        let name = match strip_prefix(syms[i].as_str(), "sym:") {
            Some(t) => t,
            None => syms[i].clone(),
        };
        names.push(name);
        proof {
            lemma_texts_push(names0, name);
            assert(bare.take(i + 1) =~= bare.take(i as int).push(bare[i as int]));
        }
    }
    assert(bare.take(bare.len() as int) =~= bare);
    let edges = extract_edges(new.content.as_str(), l, &names);
    let min: u32 = opts.min_confidence;
    let r = select(
        &edges,
        |e: &RawEdge| -> (b: bool)
            ensures
                b == (e@.confidence >= min)
        { e.confidence >= min },
        Ghost(sure_enough(min)),
    );
    if edges.len() == 0 {
        assert(rows(edges@) =~= Seq::<Edge>::empty());
    }
    r
}

// ---------------------------------------------------------------------------------------------
// Embedding and commit.
// ---------------------------------------------------------------------------------------------

/// The chunks that were embedded, each with its embedding.
pub open spec fn kept_chunks(plan: Seq<Planned>, embs: Seq<Option<Seq<u32>>>) -> Seq<(Planned, Seq<u32>)>
    decreases plan.len(),
{
    if plan.len() == 0 {
        Seq::empty()
    } else {
        let before = kept_chunks(plan.drop_last(), embs.drop_last());
        match embs.last() {
            Some(e) => before.push((plan.last(), e)),
            None => before,
        }
    }
}

/// What is committed of the chunks that were embedded.
pub open spec fn kept_parts(kept: Seq<(Planned, Seq<u32>)>, edges: Seq<Edge>, signature: Seq<char>) -> Parts {
    Parts {
        texts: kept.map_values(|k: (Planned, Seq<u32>)| k.0.text),
        embeddings: kept.map_values(|k: (Planned, Seq<u32>)| k.1),
        entities: kept.map_values(|k: (Planned, Seq<u32>)| k.0.entities),
        ranges: kept.map_values(|k: (Planned, Seq<u32>)| k.0.range),
        edges,
        signature,
    }
}

/// The optional embeddings of a list.
pub open spec fn opt_embeddings(v: Seq<Option<Vec<u32>>>) -> Seq<Option<Seq<u32>>> {
    v.map_values(
        |o: Option<Vec<u32>>|
            match o {
                Some(e) => Some(e@),
                None => None,
            },
    )
}

/// The message when no chunk could be embedded.
pub open spec fn all_failed_text(n: nat, key: Seq<char>) -> Seq<char> {
    "all "@ + decimal(n) + " chunks failed to embed for "@ + key
}

/// What becomes of an ingest once it is known which chunks could be embedded: where there are
/// chunks and none could be, it is an error and nothing is stored; else the embedded ones are
/// committed.
pub open spec fn ingested(
    s: State,
    t: State,
    r: Result<MemoryDoc, Error>,
    ns: Seq<char>,
    new: NewDoc,
    plan: Seq<Planned>,
    embs: Seq<Option<Seq<u32>>>,
    edges: Seq<Edge>,
    signature: Seq<char>,
    id: Seq<char>,
    now: u64,
) -> bool {
    let kept = kept_chunks(plan, embs);
    let p = kept_parts(kept, edges, signature);
    if plan.len() > 0 && kept.len() == 0 {
        &&& t == s
        &&& match r {
            Err(Error::Embed(m)) => m@ == all_failed_text(plan.len(), new.key@),
            _ => false,
        }
    } else if commit_refused(s, ns, new, p, id, now) {
        &&& t == s
        &&& r is Err
        &&& r->Err_0 is Conflict
    } else {
        &&& t == committed(s, ns, new, p, id, now)
        &&& r is Ok
        &&& r->Ok_0@ == doc_upserted(s.docs, ns, new, id, now)
    }
}

proof fn lemma_kept_push(
    kept: Seq<(Planned, Seq<u32>)>,
    x: (Planned, Seq<u32>),
    edges: Seq<Edge>,
    signature: Seq<char>,
)
    ensures
        ({
            let p = kept_parts(kept, edges, signature);
            let q = kept_parts(kept.push(x), edges, signature);
            &&& q.texts == p.texts.push(x.0.text)
            &&& q.embeddings == p.embeddings.push(x.1)
            &&& q.entities == p.entities.push(x.0.entities)
            &&& q.ranges == p.ranges.push(x.0.range)
        }),
{
    let p = kept_parts(kept, edges, signature);
    let q = kept_parts(kept.push(x), edges, signature);
    assert(q.texts =~= p.texts.push(x.0.text));
    assert(q.embeddings =~= p.embeddings.push(x.1));
    assert(q.entities =~= p.entities.push(x.0.entities));
    assert(q.ranges =~= p.ranges.push(x.0.range));
}

/// Commits the chunks of a plan that could be embedded.
pub fn commit_embedded(
    store: &mut Store,
    namespace: &str,
    new: &NewDoc,
    plan: &Vec<PlannedChunk>,
    embs: &Vec<Option<Vec<u32>>>,
    edges: &Vec<RawEdge>,
    signature: &str,
    id: &str,
    now: u64,
) -> (r: Result<MemoryDoc, Error>)
    requires
        old(store)@.wf(),
        embs@.len() == plan@.len(),
    ensures
        final(store)@.wf(),
        ingested(
            old(store)@,
            final(store)@,
            r,
            namespace@,
            *new,
            rows(plan@),
            opt_embeddings(embs@),
            rows(edges@),
            signature@,
            id@,
            now,
        ),
{
    let ghost ps = rows(plan@);
    let ghost es = opt_embeddings(embs@);
    let mut kept_texts: Vec<String> = Vec::new();
    let mut kept_embeddings: Vec<Vec<u32>> = Vec::new();
    let mut kept_entities: Vec<Vec<String>> = Vec::new();
    let mut kept_ranges: Vec<Option<(u64, u64)>> = Vec::new();
    let ghost kept0 = kept_parts(kept_chunks(ps.take(0), es.take(0)), rows(edges@), signature@);
    assert(ps.take(0) =~= Seq::<Planned>::empty());
    assert(texts(kept_texts@) =~= kept0.texts);
    assert(embeddings_of(kept_embeddings@) =~= kept0.embeddings);
    assert(text_lists(kept_entities@) =~= kept0.entities);
    assert(kept_ranges@ =~= kept0.ranges);
    for i in 0..plan.len()
        invariant
            embs@.len() == plan@.len(),
            ps == rows(plan@),
            es == opt_embeddings(embs@),
            kept_texts@.len() == kept_chunks(ps.take(i as int), es.take(i as int)).len(),
            texts(kept_texts@) == kept_parts(
                kept_chunks(ps.take(i as int), es.take(i as int)),
                rows(edges@),
                signature@,
            ).texts,
            embeddings_of(kept_embeddings@) == kept_parts(
                kept_chunks(ps.take(i as int), es.take(i as int)),
                rows(edges@),
                signature@,
            ).embeddings,
            text_lists(kept_entities@) == kept_parts(
                kept_chunks(ps.take(i as int), es.take(i as int)),
                rows(edges@),
                signature@,
            ).entities,
            kept_ranges@ == kept_parts(
                kept_chunks(ps.take(i as int), es.take(i as int)),
                rows(edges@),
                signature@,
            ).ranges,
    {
        let ghost before = kept_chunks(ps.take(i as int), es.take(i as int));
        let ghost after = kept_chunks(ps.take(i + 1), es.take(i + 1));
        proof {
            assert(ps.take(i + 1).drop_last() =~= ps.take(i as int));
            assert(es.take(i + 1).drop_last() =~= es.take(i as int));
            assert(ps.take(i + 1).last() == plan@[i as int]@);
            assert(es.take(i + 1).last() == es[i as int]);
        }
        match &embs[i] {
            Some(e) => {
                let ghost t0 = kept_texts@;
                let ghost e0 = kept_embeddings@;
                let ghost n0 = kept_entities@;
                let text = plan[i].text.clone();
                let emb = copy_embedding(e);
                let ents = copy_texts(&plan[i].entities);
                kept_texts.push(text);
                kept_embeddings.push(emb);
                kept_entities.push(ents);
                kept_ranges.push(plan[i].range);
                proof {
                    let x = (plan@[i as int]@, e@);
                    assert(after == before.push(x));
                    lemma_kept_push(before, x, rows(edges@), signature@);
                    lemma_texts_push(t0, text);
                    assert(embeddings_of(kept_embeddings@) =~= embeddings_of(e0).push(emb@));
                    assert(text_lists(kept_entities@) =~= text_lists(n0).push(texts(ents@)));
                }
            },
            None => {},
        }
    }
    proof {
        assert(ps.take(ps.len() as int) =~= ps);
        assert(es.take(es.len() as int) =~= es);
    }
    let ghost p = kept_parts(kept_chunks(ps, es), rows(edges@), signature@);
    if plan.len() > 0 && kept_texts.len() == 0 {
        let mut m = cat2("all ", decimal_of(plan.len() as u64).as_str());
        m.push_str(" chunks failed to embed for ");
        m.push_str(new.key.as_str());
        return Err(Error::Embed(m));
    }
    proof {
        assert(p.texts.len() == kept_texts@.len());
        assert(p.embeddings.len() == kept_embeddings@.len());
        assert(p.entities.len() == kept_entities@.len());
        assert(p == (Parts {
            texts: texts(kept_texts@),
            embeddings: embeddings_of(kept_embeddings@),
            entities: text_lists(kept_entities@),
            ranges: kept_ranges@,
            edges: rows(edges@),
            signature: signature@,
        }));
    }
    store.commit_ingest_as(
        namespace,
        new,
        &kept_texts,
        &kept_embeddings,
        &kept_entities,
        &kept_ranges,
        edges,
        signature,
        id,
        now,
    )
}

/// Where the embedding of chunk `i` may come from: from the batch call on the window of chunks
/// that it stands in, or, where that call failed, from a call on its text alone; it has none
/// where that call failed too, or the batch gave too few.
pub open spec fn embedding_from<E: Embedder>(
    embedder: &E,
    chunk_texts: Seq<Seq<char>>,
    i: int,
    e: Option<Seq<u32>>,
) -> bool {
    let start = i / (EMBED_BATCH as int) * (EMBED_BATCH as int);
    let end = if start + EMBED_BATCH < chunk_texts.len() {
        start + EMBED_BATCH
    } else {
        chunk_texts.len() as int
    };
    ||| exists|w: &Vec<String>, out: Vec<Vec<u32>>|
        texts(w@) == chunk_texts.subrange(start, end) && #[trigger] call_ensures(
            E::embed_batch,
            (embedder, w),
            Ok::<Vec<Vec<u32>>, Error>(out),
        ) && e == if i - start < out@.len() {
            Some(out@[i - start]@)
        } else {
            None
        }
    ||| {
        &&& exists|w: &Vec<String>, err: Error|
            texts(w@) == chunk_texts.subrange(start, end) && #[trigger] call_ensures(
                E::embed_batch,
                (embedder, w),
                Err::<Vec<Vec<u32>>, Error>(err),
            )
        &&& exists|t: &str, out: Result<Vec<u32>, Error>|
            t@ == chunk_texts[i] && #[trigger] call_ensures(E::embed, (embedder, t), out) && e
                == match out {
                Ok(v) => Some(v@),
                Err(_) => None,
            }
    }
}

/// Embeds the chunks of a plan in windows of [`EMBED_BATCH`]. Where the call for a window fails,
/// its chunks are embedded one by one, and those that fail have no embedding.
pub fn embed_chunks<E: Embedder>(embedder: &E, plan: &Vec<PlannedChunk>) -> (r: Vec<Option<Vec<u32>>>)
    ensures
        r@.len() == plan@.len(),
        forall|i: int|
            0 <= i < plan@.len() ==> embedding_from(
                embedder,
                rows(plan@).map_values(|p: Planned| p.text),
                i,
                #[trigger] opt_embeddings(r@)[i],
            ),
{
    let ghost all = rows(plan@).map_values(|p: Planned| p.text);
    let mut out: Vec<Option<Vec<u32>>> = Vec::new();
    let total: usize = plan.len();
    let mut start: usize = 0;
    while start < total
        invariant
            total == plan@.len(),
            all == rows(plan@).map_values(|p: Planned| p.text),
            start <= total,
            start < total ==> start as int % (EMBED_BATCH as int) == 0,
            out@.len() == start,
            forall|i: int|
                0 <= i < start ==> embedding_from(
                    embedder,
                    all,
                    i,
                    #[trigger] opt_embeddings(out@)[i],
                ),
        decreases total - start,
    {
        let end: usize = if total - start > EMBED_BATCH {
            start + EMBED_BATCH
        } else {
            total
        };
        let mut window: Vec<String> = Vec::new();
        assert(texts(window@) =~= all.subrange(start as int, start as int));
        for i in start..end
            invariant
                start <= end <= total,
                total == plan@.len(),
                all == rows(plan@).map_values(|p: Planned| p.text),
                texts(window@) == all.subrange(start as int, i as int),
        {
            let ghost window0 = window@;
            let t = plan[i].text.clone();
            window.push(t);
            proof {
                lemma_texts_push(window0, t);
                assert(all[i as int] == rows(plan@)[i as int].text);
                assert(all.subrange(start as int, i + 1) =~= all.subrange(
                    start as int,
                    i as int,
                ).push(all[i as int]));
            }
        }
        let ghost out0 = out@;
        let batch = embedder.embed_batch(&window);
        match batch {
            Ok(embs) => {
                for k in 0..window.len()
                    invariant
                        window@.len() == end - start,
                        start < end <= total,
                        end - start <= EMBED_BATCH,
                        end < total ==> end - start == EMBED_BATCH,
                        start as int % (EMBED_BATCH as int) == 0,
                        total == all.len(),
                        texts(window@) == all.subrange(start as int, end as int),
                        call_ensures(
                            E::embed_batch,
                            (embedder, &window),
                            Ok::<Vec<Vec<u32>>, Error>(embs),
                        ),
                        out@.len() == start + k,
                        forall|i: int|
                            0 <= i < start + k ==> embedding_from(
                                embedder,
                                all,
                                i,
                                #[trigger] opt_embeddings(out@)[i],
                            ),
                {
                    let ghost prev = out@;
                    let e: Option<Vec<u32>> = if k < embs.len() {
                        Some(copy_embedding(&embs[k]))
                    } else {
                        None
                    };
                    out.push(e);
                    proof {
                        let i = start + k;
                        assert(i / (EMBED_BATCH as int) * (EMBED_BATCH as int) == start) by {
                            lemma_window(start as int, k as int);
                        }
                        assert(embedding_from(embedder, all, i, opt_embeddings(out@)[i]));
                        assert forall|j: int| 0 <= j < start + k + 1 implies embedding_from(
                            embedder,
                            all,
                            j,
                            #[trigger] opt_embeddings(out@)[j],
                        ) by {
                            if j < start + k {
                                assert(opt_embeddings(out@)[j] == opt_embeddings(prev)[j]);
                            }
                        }
                    }
                }
            },
            Err(err) => {
                for k in 0..window.len()
                    invariant
                        window@.len() == end - start,
                        start < end <= total,
                        end - start <= EMBED_BATCH,
                        end < total ==> end - start == EMBED_BATCH,
                        start as int % (EMBED_BATCH as int) == 0,
                        total == all.len(),
                        call_ensures(
                            E::embed_batch,
                            (embedder, &window),
                            Err::<Vec<Vec<u32>>, Error>(err),
                        ),
                        texts(window@) == all.subrange(start as int, end as int),
                        out@.len() == start + k,
                        forall|i: int|
                            0 <= i < start + k ==> embedding_from(
                                embedder,
                                all,
                                i,
                                #[trigger] opt_embeddings(out@)[i],
                            ),
                {
                    let ghost prev = out@;
                    let t = window[k].as_str();
                    let single = embedder.embed(t);
                    let ghost res = single;
                    assert(texts(window@)[k as int] == t@);
                    let e: Option<Vec<u32>> = match single {
                        Ok(v) => Some(v),
                        Err(_) => None,
                    };
                    out.push(e);
                    proof {
                        let i = start + k;
                        assert(i / (EMBED_BATCH as int) * (EMBED_BATCH as int) == start) by {
                            lemma_window(start as int, k as int);
                        }
                        assert(t@ == all[i]);
                        assert(call_ensures(E::embed, (embedder, t), res));
                        assert(embedding_from(embedder, all, i, opt_embeddings(out@)[i]));
                        assert forall|j: int| 0 <= j < start + k + 1 implies embedding_from(
                            embedder,
                            all,
                            j,
                            #[trigger] opt_embeddings(out@)[j],
                        ) by {
                            if j < start + k {
                                assert(opt_embeddings(out@)[j] == opt_embeddings(prev)[j]);
                            }
                        }
                    }
                }
            },
        }
        start = end;
    }
    out
}

proof fn lemma_window(start: int, k: int)
    requires
        start % 64 == 0,
        0 <= k < 64,
    ensures
        (start + k) / 64 * 64 == start,
{
}

/// Whether ingesting a document may have this outcome: some of its chunks could be embedded, under
/// the name the embedder gave itself, and they were committed under some id.
pub open spec fn ingest_gives<E: Embedder>(
    embedder: &E,
    s: State,
    t: State,
    r: Result<MemoryDoc, Error>,
    ns: Seq<char>,
    new: NewDoc,
    opts: IngestOptions,
    now: u64,
) -> bool {
    exists|embs: Seq<Option<Seq<u32>>>, signature: String, id: Seq<char>|
        {
            &&& embs.len() == planned_chunks(new, opts).len()
            &&& forall|i: int|
                0 <= i < embs.len() ==> embedding_from(
                    embedder,
                    planned_chunks(new, opts).map_values(|p: Planned| p.text),
                    i,
                    #[trigger] embs[i],
                )
            &&& call_ensures(E::signature, (embedder,), signature)
            &&& #[trigger] ingested(
                s,
                t,
                r,
                ns,
                new,
                planned_chunks(new, opts),
                embs,
                planned_edges(new, opts),
                signature@,
                id,
                now,
            )
        }
}

/// Ingests a document: chunks and entities are found, every chunk is embedded, and the document
/// is committed with the chunks that could be embedded. It is an error if none could be.
pub fn ingest_document<E: Embedder>(
    store: &mut Store,
    embedder: &E,
    namespace: &str,
    new: &NewDoc,
    opts: &IngestOptions,
    now: u64,
) -> (r: Result<MemoryDoc, Error>)
    requires
        old(store)@.wf(),
    ensures
        final(store)@.wf(),
        ingest_gives(embedder, old(store)@, final(store)@, r, namespace@, *new, *opts, now),
{
    let plan = plan_chunks(new, opts);
    let embs = embed_chunks(embedder, &plan);
    let edges = plan_edges(new, opts);
    let signature = embedder.signature();
    let id = random_id();
    let ghost before = store@;
    let r = commit_embedded(
        store,
        namespace,
        new,
        &plan,
        &embs,
        &edges,
        signature.as_str(),
        id.as_str(),
        now,
    );
    assert(ingested(
        before,
        store@,
        r,
        namespace@,
        *new,
        planned_chunks(*new, *opts),
        opt_embeddings(embs@),
        planned_edges(*new, *opts),
        signature@,
        id@,
        now,
    ));
    r
}

// ---------------------------------------------------------------------------------------------
// Laws.
// ---------------------------------------------------------------------------------------------

/// How many chunks were embedded.
pub open spec fn embedded(embs: Seq<Option<Seq<u32>>>) -> nat
    decreases embs.len(),
{
    if embs.len() == 0 {
        0
    } else {
        embedded(embs.drop_last()) + if embs.last() is Some {
            1nat
        } else {
            0nat
        }
    }
}

/// Law: a chunk that cannot be embedded is skipped and takes no other with it: each chunk that was
/// embedded is kept, with its embedding, at the place that the embedded chunks before it leave it,
/// and nothing else is kept.
pub proof fn law_skips_only_failures(plan: Seq<Planned>, embs: Seq<Option<Seq<u32>>>)
    requires
        plan.len() == embs.len(),
    ensures
        kept_chunks(plan, embs).len() == embedded(embs),
        forall|i: int|
            0 <= i < plan.len() && (#[trigger] embs[i]) is Some ==> embedded(embs.take(i))
                < kept_chunks(plan, embs).len() && kept_chunks(plan, embs)[embedded(
                embs.take(i),
            ) as int] == (plan[i], embs[i]->0),
    decreases plan.len(),
{
    if plan.len() > 0 {
        let p = plan.drop_last();
        let e = embs.drop_last();
        law_skips_only_failures(p, e);
        assert forall|i: int| 0 <= i < plan.len() && (#[trigger] embs[i]) is Some implies embedded(
            embs.take(i),
        ) < kept_chunks(plan, embs).len() && kept_chunks(plan, embs)[embedded(embs.take(i)) as int]
            == (plan[i], embs[i]->0) by {
            if i < p.len() {
                assert(e[i] == embs[i]);
                assert(e.take(i) =~= embs.take(i));
            } else {
                assert(embs.take(i) =~= e);
            }
        }
    }
}

/// Law: the plan is committed whole where every chunk could be embedded.
pub proof fn law_keeps_every_chunk(plan: Seq<Planned>, embs: Seq<Option<Seq<u32>>>)
    requires
        plan.len() == embs.len(),
        forall|i: int| 0 <= i < embs.len() ==> (#[trigger] embs[i]) is Some,
    ensures
        kept_chunks(plan, embs).len() == plan.len(),
        forall|i: int|
            0 <= i < plan.len() ==> #[trigger] kept_chunks(plan, embs)[i] == (plan[i], embs[i]->0),
    decreases plan.len(),
{
    if plan.len() > 0 {
        assert forall|i: int| 0 <= i < embs.drop_last().len() implies (
        #[trigger] embs.drop_last()[i]) is Some by {
            assert(embs.drop_last()[i] == embs[i]);
        }
        law_keeps_every_chunk(plan.drop_last(), embs.drop_last());
        assert(embs[embs.len() - 1] is Some);
    }
}

/// Law: the edges of a document hold each target and kind once, so that a commit stores them as they
/// are.
pub proof fn law_planned_edges_distinct(new: NewDoc, opts: IngestOptions)
    ensures
        distinct_edges(planned_edges(new, opts)),
{
    if opts.code_graph && is_file(new) && grammar_of(new.key@, opts) is Some {
        let l = grammar_of(new.key@, opts)->0;
        if syntax_of(l, new.content@) is Some {
            let nodes = syntax_of(l, new.content@)->0;
            let names = bare_names(sorted_set_text(symbols_among(new.content@, nodes, l, walk_all(nodes))));
            let all = file_edges(new.content@, nodes, l, names);
            let key = |e: Edge| (e.dst_sym, e.edge_kind);
            law_file_edges_distinct(new.content@, nodes, l, names);
            assert forall|i: int, j: int| 0 <= i < j < all.len() implies key(#[trigger] all[i]) != key(
                #[trigger] all[j],
            ) by {
                assert(all[i].dst_sym != all[j].dst_sym || all[i].edge_kind != all[j].edge_kind);
            }
            lemma_distinct_where(all, sure_enough(opts.min_confidence), key);
            let kept = rows_where(all, sure_enough(opts.min_confidence));
            assert forall|i: int, j: int| 0 <= i < j < kept.len() implies (#[trigger] kept[i]).dst_sym != (
            #[trigger] kept[j]).dst_sym || kept[i].edge_kind != kept[j].edge_kind by {
                assert(key(kept[i]) != key(kept[j]));
            }
        }
    }
}

/// Law: what was ingested is what its key gives back, with what was handed in, under the id that the
/// key had before if there was one. An ingest that fails leaves the store as it was.
pub proof fn law_ingest_is_read_back<E: Embedder>(
    embedder: &E,
    s: State,
    t: State,
    r: Result<MemoryDoc, Error>,
    ns: Seq<char>,
    new: NewDoc,
    opts: IngestOptions,
    now: u64,
)
    requires
        s.wf(),
        ingest_gives(embedder, s, t, r, ns, new, opts, now),
    ensures
        match r {
            Ok(doc) => {
                &&& first_row(t.docs, doc_is(ns, new.key@)) == Some(doc@)
                &&& doc@.title == new.title@
                &&& doc@.content == new.content@
                &&& doc@.author == new.author@
                &&& doc@.taint == new.taint
                &&& doc@.meta == opt_text(new.meta)
                &&& doc@.updated_at == now
                &&& match first_row(s.docs, doc_is(ns, new.key@)) {
                    Some(before) => doc@.document_id == before.document_id,
                    None => doc@.created_at == now,
                }
            },
            Err(_) => t == s,
        },
{
    let (embs, signature, id) = choose|embs: Seq<Option<Seq<u32>>>, signature: String, id: Seq<char>|
        #[trigger]
        ingested(
            s,
            t,
            r,
            ns,
            new,
            planned_chunks(new, opts),
            embs,
            planned_edges(new, opts),
            signature@,
            id,
            now,
        );
    if r is Ok {
        lemma_docs_upserted(s.docs, ns, new, id, now);
    }
}

/// What is committed of a plan of which every chunk could be embedded.
pub open spec fn whole_plan(p: Parts, plan: Seq<Planned>) -> bool {
    &&& p.texts == plan.map_values(|c: Planned| c.text)
    &&& p.entities == plan.map_values(|c: Planned| c.entities)
    &&& p.ranges == plan.map_values(|c: Planned| c.range)
}

/// Whether store `t` holds this ingest of a document and, apart from that, what store `s` holds:
/// the chunks that could be embedded, all of them where none failed, with their entities, the
/// edges that were found, and the job.
pub open spec fn holds_ingest(
    s: State,
    t: State,
    ns: Seq<char>,
    doc: Doc,
    new: NewDoc,
    opts: IngestOptions,
    embs: Seq<Option<Seq<u32>>>,
    signature: Seq<char>,
    now: u64,
) -> bool {
    let plan = planned_chunks(new, opts);
    let p = kept_parts(kept_chunks(plan, embs), planned_edges(new, opts), signature);
    &&& embs.len() == plan.len()
    &&& holds_commit(s, t, ns, doc, p, now)
    &&& edges_from_doc(t, ns, doc.document_id) == planned_edges(new, opts)
    &&& (forall|i: int| 0 <= i < embs.len() ==> (#[trigger] embs[i]) is Some) ==> whole_plan(p, plan)
}

/// Law: ingesting a document again under its key updates the document that the first ingest
/// stored, under its id and with the time of its creation. The store then holds the second ingest
/// and nothing of the first: where every chunk could be embedded, the document has exactly the
/// chunks and entities of the new text, and its job is pending; of everything else the store
/// holds what it held before both.
pub proof fn law_ingest_twice<E: Embedder, F: Embedder>(
    embedder: &E,
    other_embedder: &F,
    s: State,
    t: State,
    u: State,
    d1: MemoryDoc,
    d2: MemoryDoc,
    ns: Seq<char>,
    first: NewDoc,
    second: NewDoc,
    opts: IngestOptions,
    other_opts: IngestOptions,
    now: u64,
    later: u64,
)
    requires
        s.wf(),
        ingest_gives(embedder, s, t, Ok(d1), ns, first, opts, now),
        ingest_gives(other_embedder, t, u, Ok(d2), ns, second, other_opts, later),
        first.key@ == second.key@,
    ensures
        d2@.document_id == d1@.document_id,
        d2@.created_at == d1@.created_at,
        exists|embs: Seq<Option<Seq<u32>>>, signature: String|
            {
                &&& #[trigger] holds_ingest(s, u, ns, d2@, second, other_opts, embs, signature@, later)
                &&& call_ensures(F::signature, (other_embedder,), signature)
                &&& forall|i: int|
                    0 <= i < embs.len() ==> embedding_from(
                        other_embedder,
                        planned_chunks(second, other_opts).map_values(|p: Planned| p.text),
                        i,
                        #[trigger] embs[i],
                    )
            },
{
    let plan = planned_chunks(second, other_opts);
    let (embs1, sig1, id1) = choose|embs: Seq<Option<Seq<u32>>>, signature: String, id: Seq<char>|
        #[trigger]
        ingested(
            s,
            t,
            Ok(d1),
            ns,
            first,
            planned_chunks(first, opts),
            embs,
            planned_edges(first, opts),
            signature@,
            id,
            now,
        );
    let (embs, signature, id) = choose|embs: Seq<Option<Seq<u32>>>, signature: String, id: Seq<char>|
        {
            &&& embs.len() == plan.len()
            &&& forall|i: int|
                0 <= i < embs.len() ==> embedding_from(
                    other_embedder,
                    plan.map_values(|p: Planned| p.text),
                    i,
                    #[trigger] embs[i],
                )
            &&& call_ensures(F::signature, (other_embedder,), signature)
            &&& #[trigger] ingested(
                t,
                u,
                Ok(d2),
                ns,
                second,
                plan,
                embs,
                planned_edges(second, other_opts),
                signature@,
                id,
                later,
            )
        };
    let p1 = kept_parts(
        kept_chunks(planned_chunks(first, opts), embs1),
        planned_edges(first, opts),
        sig1@,
    );
    let p = kept_parts(kept_chunks(plan, embs), planned_edges(second, other_opts), signature@);
    law_planned_edges_distinct(second, other_opts);
    law_commit_twice(s, ns, first, p1, id1, now, second, p, id, later);
    if forall|i: int| 0 <= i < embs.len() ==> (#[trigger] embs[i]) is Some {
        law_keeps_every_chunk(plan, embs);
        assert(p.texts =~= plan.map_values(|c: Planned| c.text));
        assert(p.entities =~= plan.map_values(|c: Planned| c.entities));
        assert(p.ranges =~= plan.map_values(|c: Planned| c.range));
    }
    assert(holds_ingest(s, u, ns, d2@, second, other_opts, embs, signature@, later));
}

// ---------------------------------------------------------------------------------------------
// What is found in a text.
// ---------------------------------------------------------------------------------------------

proof fn lemma_mapped(names: Seq<Seq<char>>, f: spec_fn(Seq<char>) -> Seq<char>, e: Seq<char>)
    ensures
        names.map_values(f).contains(e) <==> exists|k: int| 0 <= k < names.len() && f(#[trigger] names[k]) == e,
{
    let all = names.map_values(f);
    if all.contains(e) {
        let k = choose|k: int| 0 <= k < all.len() && all[k] == e;
        assert(f(names[k]) == e);
    }
    if exists|k: int| 0 <= k < names.len() && f(#[trigger] names[k]) == e {
        let k = choose|k: int| 0 <= k < names.len() && f(#[trigger] names[k]) == e;
        assert(all[k] == e);
    }
}

proof fn lemma_in_both(a: Seq<Seq<char>>, b: Seq<Seq<char>>, e: Seq<char>)
    ensures
        (a + b).contains(e) <==> a.contains(e) || b.contains(e),
{
    let all = a + b;
    if all.contains(e) {
        let k = choose|k: int| 0 <= k < all.len() && all[k] == e;
        if k < a.len() {
            assert(a[k] == e);
        } else {
            assert(b[k - a.len()] == e);
        }
    }
    if a.contains(e) {
        let k = choose|k: int| 0 <= k < a.len() && a[k] == e;
        assert(all[k] == e);
    }
    if b.contains(e) {
        let k = choose|k: int| 0 <= k < b.len() && b[k] == e;
        assert(all[a.len() + k] == e);
    }
}

/// Whether one of some names makes an entity under a prefix.
pub open spec fn made_of(prefix: Seq<char>, names: Seq<Seq<char>>, e: Seq<char>) -> bool {
    exists|k: int| 0 <= k < names.len() && prefix + #[trigger] names[k] == e
}

/// Whether one of some names makes an entity under a prefix, whatever its case.
pub open spec fn made_of_lower(prefix: Seq<char>, names: Seq<Seq<char>>, e: Seq<char>) -> bool {
    exists|k: int| 0 <= k < names.len() && prefix + lowercase(#[trigger] names[k]) == e
}

/// Law: a text mentions the addresses, links, handles and tags that stand in it, each under its own prefix,
/// and nothing else; only links keep their case, and handles and tags inside links do not count. They are told
/// in ascending order, each once.
pub proof fn law_prose_entities(text: Seq<char>, e: Seq<char>)
    ensures
        prose_entities(text).contains(e) <==> made_of_lower("email:"@, found(regex_matches(EMAIL@, text)), e)
            || made_of("url:"@, found(regex_matches(URL@, text)), e) || made_of_lower(
            "handle:"@,
            found(regex_captures(HANDLE@, without_links(text))),
            e,
        ) || made_of_lower("hashtag:"@, found(regex_captures(HASHTAG@, without_links(text))), e),
        forall|i: int, j: int|
            0 <= i < j < prose_entities(text).len() ==> text_less(
                #[trigger] prose_entities(text)[i],
                #[trigger] prose_entities(text)[j],
            ),
{
    let emails = found(regex_matches(EMAIL@, text));
    let urls = found(regex_matches(URL@, text));
    let handles = found(regex_captures(HANDLE@, without_links(text)));
    let tags = found(regex_captures(HASHTAG@, without_links(text)));
    let a = prefixed_lower("email:"@, emails);
    let b = prefixed("url:"@, urls);
    let c = prefixed_lower("handle:"@, handles);
    let d = prefixed_lower("hashtag:"@, tags);
    lemma_sorted_set(a + b + c + d);
    lemma_in_both(a + b + c, d, e);
    lemma_in_both(a + b, c, e);
    lemma_in_both(a, b, e);
    lemma_mapped(emails, |n: Seq<char>| "email:"@ + lowercase(n), e);
    lemma_mapped(urls, |n: Seq<char>| "url:"@ + n, e);
    lemma_mapped(handles, |n: Seq<char>| "handle:"@ + lowercase(n), e);
    lemma_mapped(tags, |n: Seq<char>| "hashtag:"@ + lowercase(n), e);
}

/// Whether a text is made of parts at certain places, with blanks before, between and after them.
pub open spec fn parts_among_blanks(text: Seq<char>, parts: Seq<Seq<char>>, places: Seq<int>) -> bool {
    &&& places.len() == parts.len()
    &&& forall|i: int|
        0 <= i < parts.len() ==> 0 <= #[trigger] places[i] && places[i] + parts[i].len() <= text.len()
            && text.subrange(places[i], places[i] + parts[i].len()) == parts[i]
    &&& forall|p: int|
        0 <= p < text.len() && (forall|i: int|
            0 <= i < parts.len() ==> !(#[trigger] places[i] <= p < places[i] + parts[i].len()))
            ==> #[trigger] text[p] == ' '
}

proof fn lemma_masked(around: Seq<Seq<char>>, matches: Seq<Seq<char>>, n: int) -> (places: Seq<int>)
    requires
        0 <= n <= around.len(),
    ensures
        parts_among_blanks(masked(around, matches, n), around.take(n), places),
        n > 0 ==> places[0] == 0,
        forall|i: int, j: int|
            0 <= i && j == i + 1 && j < n && i < matches.len() ==> #[trigger] places[j] == #[trigger] places[i]
                + around[i].len() + encode_utf8(matches[i]).len(),
        n > 0 ==> masked(around, matches, n).len() == places[n - 1] + around[n - 1].len() + if n - 1
            < matches.len() {
            encode_utf8(matches[n - 1]).len()
        } else {
            0
        },
    decreases n,
{
    let all = masked(around, matches, n);
    if n == 0 {
        Seq::empty()
    } else {
        let some = lemma_masked(around, matches, n - 1);
        let before = masked(around, matches, n - 1);
        let blanks = if n - 1 < matches.len() {
            spaces(encode_utf8(matches[n - 1]).len())
        } else {
            Seq::empty()
        };
        let places = some.push(before.len() as int);
        assert(all == before + around[n - 1] + blanks);
        let parts = around.take(n);
        assert forall|i: int| 0 <= i < parts.len() implies 0 <= #[trigger] places[i] && places[i]
            + parts[i].len() <= all.len() && all.subrange(places[i], places[i] + parts[i].len()) == parts[i] by {
            if i < n - 1 {
                assert(places[i] == some[i] && around.take(n - 1)[i] == parts[i]);
                assert(all.subrange(places[i], places[i] + parts[i].len()) =~= before.subrange(
                    some[i],
                    some[i] + parts[i].len(),
                ));
            } else {
                assert(all.subrange(places[i], places[i] + parts[i].len()) =~= parts[i]);
            }
        }
        assert forall|p: int|
            0 <= p < all.len() && (forall|i: int|
                0 <= i < parts.len() ==> !(#[trigger] places[i] <= p < places[i] + parts[i].len())) implies
            #[trigger] all[p] == ' ' by {
            if p < before.len() {
                assert forall|i: int| 0 <= i < n - 1 implies !(#[trigger] some[i] <= p < some[i]
                    + around.take(n - 1)[i].len()) by {
                    assert(places[i] == some[i] && around.take(n - 1)[i] == parts[i]);
                }
                assert(before[p] == ' ');
            } else {
                assert(!(places[n - 1] <= p < places[n - 1] + parts[n - 1].len()));
            }
        }
        assert forall|i: int, j: int|
            0 <= i && j == i + 1 && j < n && i < matches.len() implies #[trigger] places[j]
            == #[trigger] places[i] + around[i].len() + encode_utf8(matches[i]).len() by {
            assert(places[i] == some[i]);
            if j < n - 1 {
                assert(places[j] == some[j]);
            }
        }
        places
    }
}

/// Law: a text without its links says what stood around them, and has blanks in their stead, as many as a
/// link has bytes.
pub proof fn law_mask(around: Seq<Seq<char>>, matches: Seq<Seq<char>>)
    ensures
        exists|places: Seq<int>|
            #![trigger parts_among_blanks(
                masked(around, matches, around.len() as int),
                around,
                places,
            )]
            parts_among_blanks(masked(around, matches, around.len() as int), around, places) && forall|
                i: int,
                j: int,
            |
                0 <= i && j == i + 1 && j < around.len() && i < matches.len() ==> #[trigger] places[j]
                    == #[trigger] places[i] + around[i].len() + encode_utf8(matches[i]).len(),
{
    let places = lemma_masked(around, matches, around.len() as int);
    assert(around.take(around.len() as int) =~= around);
}

/// Law: a piece of a file mentions the path of the file, what it imports, and what it defines: every symbol
/// that the grammar finds, or, where the piece has no grammar, the names that stand behind a word that opens a
/// definition.
pub proof fn law_piece_entities(text: Seq<char>, key: Seq<char>, lang: Option<Lang>, e: Seq<char>)
    ensures
        piece_entities(text, key, lang).contains(e) <==> e == "path:"@ + key || made_of(
            "import:"@,
            found(regex_captures(IMPORT@, text)),
            e,
        ) || if lang is Some && syntax_of(lang->0, text) is Some {
            file_symbols(text, syntax_of(lang->0, text)->0, lang->0).contains(e)
        } else {
            made_of("sym:"@, found(regex_captures(DEFINITION@, text)), e)
        },
{
    let imports = found(regex_captures(IMPORT@, text));
    let defined = found(regex_captures(DEFINITION@, text));
    let path = "path:"@ + key;
    lemma_mapped(imports, |n: Seq<char>| "import:"@ + n, e);
    lemma_mapped(defined, |n: Seq<char>| "sym:"@ + n, e);
    let first = if lang is Some && syntax_of(lang->0, text) is Some {
        file_symbols(text, syntax_of(lang->0, text)->0, lang->0)
    } else {
        prefixed("sym:"@, defined)
    };
    let second = prefixed("import:"@, imports);
    lemma_in_both(first, second, e);
    lemma_sorted_set(first + second);
    let mechanical = if lang is Some && syntax_of(lang->0, text) is Some {
        first + second
    } else {
        sorted_set_text(first + second)
    };
    assert(mechanical.push(path) =~= mechanical + seq![path]);
    lemma_in_both(mechanical, seq![path], e);
    assert(seq![path].contains(e) <==> e == path) by {
        assert(seq![path][0] == path);
    }
    lemma_sorted_set(mechanical.push(path));
}

/// Law: prose is cut as [`chunk`] cuts it, and no chunk of it has lines; each chunk mentions what stands in it.
pub proof fn law_prose_plan(new: NewDoc, opts: IngestOptions, i: int)
    requires
        !is_file(new),
        0 <= i < planned_chunks(new, opts).len(),
    ensures
        planned_chunks(new, opts).len() == chunk_spec(new.content@).len(),
        planned_chunks(new, opts)[i].text == chunk_spec(new.content@)[i],
        planned_chunks(new, opts)[i].range is None,
        planned_chunks(new, opts)[i].entities == prose_entities(planned_chunks(new, opts)[i].text),
{
}

/// Law: each chunk of a file says what the lines say that it is said to come from, and mentions what stands
/// in it and the path of the file; the chunks follow the file.
pub proof fn law_file_plan(new: NewDoc, opts: IngestOptions, i: int)
    requires
        is_file(new),
        lines_text(new.content@).len() <= usize::MAX,
        without_returns(lines_text(new.content@)),
        0 <= i < planned_chunks(new, opts).len(),
    ensures
        ({
            let c = planned_chunks(new, opts)[i];
            &&& c.range is Some
            &&& says_file_lines(
                lines_text(new.content@),
                CodeChunk { text: c.text, start: (c.range->0).0 as int, end: (c.range->0).1 as int },
            )
            &&& c.entities == piece_entities(
                c.text,
                new.key@,
                if opts.tree_sitter {
                    lang_of_extension(ascii_lower_text(last_segment_text(new.key@, '.')))
                } else {
                    None
                },
            )
            &&& i > 0 ==> (planned_chunks(new, opts)[i - 1].range->0).1 <= (c.range->0).0
        }),
{
    let lang = grammar_of(new.key@, opts);
    let lines = lines_text(new.content@);
    let pieces = code_pieces(new.content@, lang, opts);
    let c = pieces[i];
    lemma_pieces_say(new.content@, lang, opts, i);
    if i > 0 {
        lemma_pieces_say(new.content@, lang, opts, i - 1);
    }
    assert(c =~= (CodeChunk { text: c.text, start: (c.start as u64) as int, end: (c.end as u64) as int }));
}

proof fn lemma_pieces_say(content: Seq<char>, lang: Option<Lang>, opts: IngestOptions, i: int)
    requires
        lines_text(content).len() <= usize::MAX,
        without_returns(lines_text(content)),
        0 <= i < code_pieces(content, lang, opts).len(),
    ensures
        says_file_lines(lines_text(content), code_pieces(content, lang, opts)[i]),
        i > 0 ==> code_pieces(content, lang, opts)[i - 1].end <= code_pieces(content, lang, opts)[i].start,
{
    let lines = lines_text(content);
    lemma_lines_free(content);
    if lang is Some && syntax_of(lang->0, content) is Some {
        let l = lang->0;
        let nodes = syntax_of(l, content)->0;
        let spans = definition_spans(nodes, l, lines.len() as int);
        lemma_definition_spans_within(nodes, l, lines.len() as int);
        match packing_budget(l, opts) {
            Some(b) => {
                lemma_packed_within(lines, spans, b);
                law_file_chunks_say_their_lines(lines, packed_spans(lines, spans, b), b);
            },
            None => {
                law_file_chunks_say_their_lines(lines, spans, CODE_CHUNK_TOKEN_BUDGET);
            },
        }
    } else {
        let marks = definition_marks(lines, opts.symbol_split);
        law_chunk_lines_say_their_lines(lines, marks);
        law_chunk_lines_cover_every_line(lines, marks);
    }
}

/// Law: the edges of a document are those of its file that are sure enough; there are none without the code
/// graph, of prose, or in a language that has no edges.
pub proof fn law_planned_edges(new: NewDoc, opts: IngestOptions, lang: Lang, nodes: Seq<Syntax>, e: Edge)
    requires
        grammar_of(new.key@, opts) == Some(lang),
        syntax_of(lang, new.content@) == Some(nodes),
    ensures
        planned_edges(new, opts).contains(e) <==> opts.code_graph && is_file(new) && (lang == Lang::Rust || lang
            == Lang::C || lang == Lang::Cpp) && e.confidence >= opts.min_confidence && file_edges(
            new.content@,
            nodes,
            lang,
            bare_names(file_symbols(new.content@, nodes, lang)),
        ).contains(e),
{
    lemma_rows_where_contains(
        file_edges(new.content@, nodes, lang, bare_names(file_symbols(new.content@, nodes, lang))),
        sure_enough(opts.min_confidence),
    );
}

/// Law: a symbol without its prefix is its name.
pub proof fn law_bare_names(syms: Seq<Seq<char>>, i: int, name: Seq<char>)
    requires
        0 <= i < syms.len(),
        syms[i] == "sym:"@ + name,
    ensures
        bare_names(syms).len() == syms.len(),
        bare_names(syms)[i] == name,
{
    let s = syms[i];
    assert(s.take("sym:"@.len() as int) =~= "sym:"@);
    assert(s.subrange(0, "sym:"@.len() as int) =~= "sym:"@);
    assert(s.skip("sym:"@.len() as int) =~= name);
    assert(s.subrange("sym:"@.len() as int, s.len() as int) =~= name);
}

// ---------------------------------------------------------------------------------------------
// What is stored of a document.
// ---------------------------------------------------------------------------------------------

/// Whether an embedder gives each text an embedding of its own, whichever texts it is asked of together.
pub open spec fn embeds_by<E: Embedder>(embedder: &E, f: spec_fn(Seq<char>) -> Seq<u32>) -> bool {
    &&& forall|w: &Vec<String>, out: Vec<Vec<u32>>| #[trigger]
        call_ensures(E::embed_batch, (embedder, w), Ok::<Vec<Vec<u32>>, Error>(out)) ==> out@.len() == w@.len()
            && forall|j: int| 0 <= j < w@.len() ==> (#[trigger] out@[j])@ == f(w@[j]@)
    &&& forall|t: &str, out: Vec<u32>| #[trigger]
        call_ensures(E::embed, (embedder, t), Ok::<Vec<u32>, Error>(out)) ==> out@ == f(t@)
}

/// Law: a chunk that is embedded has the embedding of its own text, and one fails only where the embedder
/// failed on a batch and on its text alone.
pub proof fn law_chunk_has_its_own_embedding<E: Embedder>(
    embedder: &E,
    f: spec_fn(Seq<char>) -> Seq<u32>,
    chunk_texts: Seq<Seq<char>>,
    i: int,
    e: Option<Seq<u32>>,
)
    requires
        embeds_by(embedder, f),
        0 <= i < chunk_texts.len(),
        embedding_from(embedder, chunk_texts, i, e),
    ensures
        e is Some ==> e->0 == f(chunk_texts[i]),
        e is None ==> exists|t: &str, err: Error|
            t@ == chunk_texts[i] && #[trigger] call_ensures(
                E::embed,
                (embedder, t),
                Err::<Vec<u32>, Error>(err),
            ),
{
    let start = i / (EMBED_BATCH as int) * (EMBED_BATCH as int);
    assert(start <= i < start + EMBED_BATCH) by (nonlinear_arith)
        requires
            start == i / (EMBED_BATCH as int) * (EMBED_BATCH as int),
            0 <= i,
            EMBED_BATCH == 64,
    ;
    let end = if start + EMBED_BATCH < chunk_texts.len() {
        start + EMBED_BATCH
    } else {
        chunk_texts.len() as int
    };
    if exists|w: &Vec<String>, out: Vec<Vec<u32>>|
        texts(w@) == chunk_texts.subrange(start, end) && #[trigger] call_ensures(
            E::embed_batch,
            (embedder, w),
            Ok::<Vec<Vec<u32>>, Error>(out),
        ) && e == if i - start < out@.len() {
            Some(out@[i - start]@)
        } else {
            None
        } {
        let (w, out) = choose|w: &Vec<String>, out: Vec<Vec<u32>>|
            texts(w@) == chunk_texts.subrange(start, end) && #[trigger] call_ensures(
                E::embed_batch,
                (embedder, w),
                Ok::<Vec<Vec<u32>>, Error>(out),
            ) && e == if i - start < out@.len() {
                Some(out@[i - start]@)
            } else {
                None
            };
        assert(texts(w@).len() == w@.len());
        assert(texts(w@)[i - start] == chunk_texts[i]);
        assert(w@[i - start]@ == chunk_texts[i]);
    } else {
        let (t, out) = choose|t: &str, out: Result<Vec<u32>, Error>|
            t@ == chunk_texts[i] && #[trigger] call_ensures(E::embed, (embedder, t), out) && e == match out {
                Ok(v) => Some(v@),
                Err(_) => None,
            };
        match out {
            Ok(v) => {
                assert(call_ensures(E::embed, (embedder, t), Ok::<Vec<u32>, Error>(v)));
            },
            Err(err) => {
                assert(call_ensures(E::embed, (embedder, t), Err::<Vec<u32>, Error>(err)));
            },
        }
    }
}

/// Whether a chunk of a document is stored as it was planned, with the embedding that belongs to its text.
pub open spec fn stores_planned(c: Chunk, plan: Planned, f: spec_fn(Seq<char>) -> Seq<u32>) -> bool {
    &&& c.text == plan.text
    &&& c.embedding == f(plan.text)
    &&& match plan.range {
        Some((first, last)) => c.line_start == Some(first) && c.line_end == Some(last),
        None => c.line_start is None && c.line_end is None,
    }
}

/// Law: where the embedder does not fail, an ingested document has exactly its planned chunks in the store, in
/// their order, each with its text, its lines and the embedding of its text.
pub proof fn law_ingest_stores_every_chunk<E: Embedder>(
    embedder: &E,
    f: spec_fn(Seq<char>) -> Seq<u32>,
    s: State,
    t: State,
    doc: MemoryDoc,
    ns: Seq<char>,
    new: NewDoc,
    opts: IngestOptions,
    now: u64,
)
    requires
        s.wf(),
        embeds_by(embedder, f),
        forall|t: &str, err: Error| !#[trigger]
            call_ensures(E::embed, (embedder, t), Err::<Vec<u32>, Error>(err)),
        ingest_gives(embedder, s, t, Ok(doc), ns, new, opts, now),
    ensures
        ({
            let stored = rows_where(t.chunks, chunk_of(ns, doc@.document_id));
            &&& stored.len() == planned_chunks(new, opts).len()
            &&& forall|i: int|
                0 <= i < stored.len() ==> stores_planned(#[trigger] stored[i], planned_chunks(new, opts)[i], f)
        }),
{
    let plan = planned_chunks(new, opts);
    let plan_texts = plan.map_values(|p: Planned| p.text);
    let r: Result<MemoryDoc, Error> = Ok(doc);
    let (embs, signature, id) = choose|embs: Seq<Option<Seq<u32>>>, signature: String, id: Seq<char>|
        {
            &&& embs.len() == planned_chunks(new, opts).len()
            &&& forall|i: int|
                0 <= i < embs.len() ==> embedding_from(
                    embedder,
                    planned_chunks(new, opts).map_values(|p: Planned| p.text),
                    i,
                    #[trigger] embs[i],
                )
            &&& call_ensures(E::signature, (embedder,), signature)
            &&& #[trigger] ingested(
                s,
                t,
                r,
                ns,
                new,
                planned_chunks(new, opts),
                embs,
                planned_edges(new, opts),
                signature@,
                id,
                now,
            )
        };
    assert forall|i: int| 0 <= i < embs.len() implies (#[trigger] embs[i]) is Some && embs[i]->0 == f(
        plan[i].text,
    ) by {
        law_chunk_has_its_own_embedding(embedder, f, plan_texts, i, embs[i]);
        assert(plan_texts[i] == plan[i].text);
    }
    let kept = kept_chunks(plan, embs);
    law_keeps_every_chunk(plan, embs);
    let p = kept_parts(kept, planned_edges(new, opts), signature@);
    law_commit_stores_chunks(s, ns, new, p, id, now);
    let stored = rows_where(t.chunks, chunk_of(ns, doc@.document_id));
    assert forall|i: int| 0 <= i < stored.len() implies stores_planned(#[trigger] stored[i], plan[i], f) by {
        assert(kept[i] == (plan[i], embs[i]->0));
        assert(p.texts[i] == kept[i].0.text);
        assert(p.embeddings[i] == kept[i].1);
        assert(p.ranges[i] == kept[i].0.range);
    }
}

/// Law: where not one chunk of a document could be embedded, nothing is stored and the error says so.
pub proof fn law_nothing_embedded(
    s: State,
    t: State,
    r: Result<MemoryDoc, Error>,
    ns: Seq<char>,
    new: NewDoc,
    plan: Seq<Planned>,
    embs: Seq<Option<Seq<u32>>>,
    edges: Seq<Edge>,
    signature: Seq<char>,
    id: Seq<char>,
    now: u64,
)
    requires
        ingested(s, t, r, ns, new, plan, embs, edges, signature, id, now),
        plan.len() == embs.len(),
        plan.len() > 0,
        forall|i: int| 0 <= i < embs.len() ==> (#[trigger] embs[i]) is None,
    ensures
        t == s,
        r is Err && r->Err_0 is Embed,
{
    law_skips_only_failures(plan, embs);
    lemma_none_embedded(embs);
}

proof fn lemma_none_embedded(embs: Seq<Option<Seq<u32>>>)
    requires
        forall|i: int| 0 <= i < embs.len() ==> (#[trigger] embs[i]) is None,
    ensures
        embedded(embs) == 0,
    decreases embs.len(),
{
    if embs.len() > 0 {
        let head = embs.drop_last();
        assert forall|i: int| 0 <= i < head.len() implies (#[trigger] head[i]) is None by {
            assert(head[i] == embs[i]);
        }
        assert(embs[embs.len() - 1] is None);
        lemma_none_embedded(head);
    }
}

/// Law: an ingest of which some chunk was embedded is stored, unless the new id, or that of one of its chunks,
/// is taken by another document; a document that is there already needs no new id.
pub proof fn law_ingest_succeeds(
    s: State,
    t: State,
    r: Result<MemoryDoc, Error>,
    ns: Seq<char>,
    new: NewDoc,
    plan: Seq<Planned>,
    embs: Seq<Option<Seq<u32>>>,
    edges: Seq<Edge>,
    signature: Seq<char>,
    id: Seq<char>,
    now: u64,
    i: int,
)
    requires
        ingested(s, t, r, ns, new, plan, embs, edges, signature, id, now),
        plan.len() == embs.len(),
        0 <= i < embs.len(),
        embs[i] is Some,
        (exists|k: int| 0 <= k < s.docs.len() && (#[trigger] s.docs[k]).namespace == ns && s.docs[k].key == new.key@)
            || forall|k: int| 0 <= k < s.docs.len() ==> (#[trigger] s.docs[k]).document_id != id,
        forall|k: int|
            0 <= k < s.chunks.len() ==> (#[trigger] s.chunks[k]).namespace != ns || s.chunks[k].document_id
                == doc_upserted(s.docs, ns, new, id, now).document_id || !has_prefix(
                s.chunks[k].chunk_id,
                doc_upserted(s.docs, ns, new, id, now).document_id,
            ),
    ensures
        r is Ok,
{
    law_skips_only_failures(plan, embs);
    let kept = kept_chunks(plan, embs);
    assert(kept.len() > 0);
    let p = kept_parts(kept, edges, signature);
    let doc = doc_upserted(s.docs, ns, new, id, now).document_id;
    assert(!upsert_refused(s.docs, ns, new.key@, id)) by {
        if exists|k: int|
            0 <= k < s.docs.len() && (#[trigger] s.docs[k]).namespace == ns && s.docs[k].key == new.key@ {
            let k = choose|k: int|
                0 <= k < s.docs.len() && (#[trigger] s.docs[k]).namespace == ns && s.docs[k].key == new.key@;
            assert(doc_is(ns, new.key@)(s.docs[k]));
        } else {
            assert forall|k: int| 0 <= k < s.docs.len() implies !id_taken(id)(#[trigger] s.docs[k]) by {
                assert(s.docs[k].document_id != id);
            }
        }
    }
    assert(!chunk_clash(s.chunks, ns, doc, p.texts.len() as int)) by {
        if chunk_clash(s.chunks, ns, doc, p.texts.len() as int) {
            let (a, b) = choose|a: int, b: int|
                #![trigger s.chunks[a], chunk_id_of(doc, b)]
                0 <= a < s.chunks.len() && 0 <= b < p.texts.len() && s.chunks[a].namespace == ns
                    && s.chunks[a].document_id != doc && s.chunks[a].chunk_id == chunk_id_of(doc, b);
            let c = chunk_id_of(doc, b);
            assert(c.subrange(0, doc.len() as int) =~= doc);
        }
    }
}

} // verus!
