//! Digests of a namespace, written into its meta namespace: the coding conventions, and the
//! architecture of the whole or of one module. Each is one pass of the language model over the
//! sources, so that the specifics are kept which a summary of summaries loses.

use crate::embed::Embedder;
use crate::ingest::{
    ingest_document, ingest_gives, is_file_meta, law_ingest_is_read_back, meta_is_file, IngestOptions,
};
use crate::json::{json_quote, json_quoted};
use crate::llm::{chat_gives, ChatClient, ChatResult};
use crate::model::{Doc, Error, MemoryDoc, NewDoc, Taint};
use crate::retrieve::drill::{digests, top_digests, NodeHit, TreeHit};
use crate::store::docs::{crowded_out, doc_in, doc_is, law_listed, newer};
use crate::store::{State, Store};
use crate::table::{
    first_row, first_rows, is_order, law_sorted_rows, lemma_rows_push, lemma_rows_where_contains, rows,
    rows_where, sort, sorted_rows, Row,
};
use crate::text::{
    ascii_lower, ascii_lower_text, cat2, contains_text, decimal, decimal_of, has_prefix, last_segment,
    last_segment_text, lemma_holds_middle, lemma_holds_part, lemma_last_of_join, lemma_split_whole,
    lemma_text_less_irreflexive, lemma_text_less_total, lemma_text_less_transitive, less, occurs_at, opt_text,
    same, starts_with, take_chars, take_text, text_less, trim, trim_end_char, trim_end_char_text, trim_text,
};
use vstd::prelude::*;
use vstd::utf8::encode_utf8;

verus! {

/// The meta namespace of a namespace.
pub fn meta_namespace(namespace: &str) -> (r: String)
    ensures
        r@ == namespace@ + ":meta"@,
{
    cat2(namespace, ":meta")
}

// ---------------------------------------------------------------------------------------------
// Configuration files.
// ---------------------------------------------------------------------------------------------

/// Whether a file name in lowercase is one from which conventions can be read.
pub open spec fn is_config_name(base: Seq<char>) -> bool {
    ||| base == ".editorconfig"@
    ||| base == "rustfmt.toml"@
    ||| base == ".rustfmt.toml"@
    ||| base == "clippy.toml"@
    ||| base == "contributing.md"@
    ||| base == "pyproject.toml"@
    ||| base == "setup.cfg"@
    ||| base == ".pylintrc"@
    ||| base == "tsconfig.json"@
    ||| base == ".gitattributes"@
    ||| has_prefix(base, ".eslintrc"@)
    ||| has_prefix(base, ".prettierrc"@)
}

/// Whether a key is that of a configuration file: what follows its last slash decides, whatever
/// the case.
pub open spec fn is_config_key(key: Seq<char>) -> bool {
    is_config_name(ascii_lower_text(last_segment_text(key, '/')))
}

/// Whether a key looks like a configuration file from which conventions can be read.
pub fn is_config_file(key: &str) -> (r: bool)
    ensures
        r == is_config_key(key@),
{
    let last = last_segment(key, '/');
    let base = ascii_lower(last.as_str());
    let b = base.as_str();
    same(b, ".editorconfig") || same(b, "rustfmt.toml") || same(b, ".rustfmt.toml") || same(
        b,
        "clippy.toml",
    ) || same(b, "contributing.md") || same(b, "pyproject.toml") || same(b, "setup.cfg") || same(
        b,
        ".pylintrc",
    ) || same(b, "tsconfig.json") || same(b, ".gitattributes") || starts_with(b, ".eslintrc")
        || starts_with(b, ".prettierrc")
}

// ---------------------------------------------------------------------------------------------
// What the prompts are made of.
// ---------------------------------------------------------------------------------------------

/// A document as a section of a prompt: its key as a heading, then the first `max` characters.
pub open spec fn section(d: Doc, max: int) -> Seq<char> {
    "### "@ + d.key + "\n"@ + take_text(d.content, max) + "\n\n"@
}

fn write_section(d: &MemoryDoc, max: usize) -> (r: String)
    ensures
        r@ == section(d@, max as int),
{
    let mut s = cat2("### ", d.key.as_str());
    s.push_str("\n");
    s.push_str(take_chars(d.content.as_str(), max).as_str());
    s.push_str("\n\n");
    s
}

/// The sections of some documents, one after the other.
pub open spec fn sections(docs: Seq<Doc>, max: int) -> Seq<char>
    decreases docs.len(),
{
    if docs.len() == 0 {
        Seq::empty()
    } else {
        sections(docs.drop_last(), max) + section(docs.last(), max)
    }
}

/// The sections of documents until the budget, in bytes, is reached.
pub open spec fn corpus(docs: Seq<Doc>, max: int, budget: int) -> Seq<char>
    decreases docs.len(),
{
    if docs.len() == 0 {
        Seq::empty()
    } else {
        let before = corpus(docs.drop_last(), max, budget);
        if encode_utf8(before).len() >= budget {
            before
        } else {
            before + section(docs.last(), max)
        }
    }
}

/// One line for a digest: its label, or the start of its body.
pub open spec fn digest_line(h: NodeHit) -> Seq<char> {
    "- "@ + match h.label {
        Some(l) => l,
        None => take_text(h.body, 120),
    } + "\n"@
}

pub open spec fn digest_lines(hits: Seq<NodeHit>) -> Seq<char>
    decreases hits.len(),
{
    if hits.len() == 0 {
        Seq::empty()
    } else {
        digest_lines(hits.drop_last()) + digest_line(hits.last())
    }
}

fn write_digest_lines(hits: &Vec<TreeHit>) -> (r: String)
    ensures
        r@ == digest_lines(rows(hits@)),
{
    let ghost all = rows(hits@);
    let mut out = String::new();
    assert(all.take(0) =~= Seq::<NodeHit>::empty());
    for i in 0..hits.len()
        invariant
            all == rows(hits@),
            out@ == digest_lines(all.take(i as int)),
    {
        proof {
            assert(all.take(i + 1).drop_last() =~= all.take(i as int));
            assert(all.take(i + 1).last() == all[i as int]);
        }
        let mut line = "- ".to_owned();
        match &hits[i].label {
            Some(l) => line.push_str(l.as_str()),
            None => line.push_str(take_chars(hits[i].body.as_str(), 120).as_str()),
        }
        line.push_str("\n");
        out.push_str(line.as_str());
    }
    assert(all.take(all.len() as int) =~= all);
    out
}

/// The reply of the language model where it gave one that is not blank, or else the fallback.
pub open spec fn body_from(reply: Result<ChatResult, Error>, fallback: Seq<char>) -> Seq<char> {
    match reply {
        Ok(c) => if trim_text(c.text@).len() > 0 {
            c.text@
        } else {
            fallback
        },
        Err(_) => fallback,
    }
}

pub fn choose_body(reply: Result<ChatResult, Error>, fallback: String) -> (r: String)
    ensures
        r@ == body_from(reply, fallback@),
{
    match reply {
        Ok(c) => {
            let t = trim(c.text.as_str());
            if t.as_str().is_empty() {
                fallback
            } else {
                c.text
            }
        },
        Err(_) => fallback,
    }
}

/// A document that the library writes itself.
pub open spec fn own_doc(new: NewDoc, key: Seq<char>, content: Seq<char>, meta: Seq<char>) -> bool {
    &&& new.key@ == key
    &&& new.title@ == key
    &&& new.content@ == content
    &&& new.author@ == "engram"@
    &&& new.taint == Taint::Internal
    &&& opt_text(new.meta) == Some(meta)
}

fn make_own_doc(key: String, content: String, meta: String) -> (r: NewDoc)
    ensures
        own_doc(r, key@, content@, meta@),
{
    NewDoc {
        key: key.clone(),
        title: key,
        content,
        author: "engram".to_owned(),
        taint: Taint::Internal,
        meta: Some(meta),
    }
}

// ---------------------------------------------------------------------------------------------
// The conventions.
// ---------------------------------------------------------------------------------------------

/// How many documents are looked at for configuration files.
pub const CONVENTIONS_WINDOW: i64 = 1000;

/// How much of a configuration file the prompt shows.
pub const CONFIG_CHARS: usize = 1500;

pub const CONVENTIONS_TASK: &'static str = "You are documenting the coding conventions of a software project. Using ONLY the evidence below (configuration files and architecture digests), produce a markdown bullet list of the project's concrete conventions. Each bullet states one rule, then '(evidence: <file/area>)'. Do not invent rules unsupported by the evidence. Aim for at least 10 distinct conventions.\n\n## Config files (";

pub const CONVENTIONS_FALLBACK: &'static str = "Conventions (mechanical fallback — LLM unavailable):\n";

/// The most recent documents of a namespace.
pub open spec fn latest_docs(s: State, ns: Seq<char>, max: int) -> Seq<Doc> {
    first_rows(sorted_rows(rows_where(s.docs, doc_in(ns)), newer()), max)
}

pub open spec fn is_config_doc() -> spec_fn(Doc) -> bool {
    |d: Doc| is_config_key(d.key)
}

/// The configuration files of a namespace.
pub open spec fn config_docs(s: State, ns: Seq<char>) -> Seq<Doc> {
    rows_where(latest_docs(s, ns, CONVENTIONS_WINDOW as int), is_config_doc())
}

/// The prompt for the conventions of a namespace.
pub open spec fn conventions_prompt(s: State, ns: Seq<char>) -> Seq<char> {
    let configs = config_docs(s, ns);
    CONVENTIONS_TASK@ + decimal(configs.len()) + ")\n"@ + sections(configs, CONFIG_CHARS as int)
        + "\n## Architecture digests\n"@ + digest_lines(digests(s, ns, "global"@, "global"@, 3, 12))
}

/// What stands for the conventions where the language model gave none: the configuration files.
pub open spec fn conventions_fallback(configs: Seq<Doc>) -> Seq<char>
    decreases configs.len(),
{
    if configs.len() == 0 {
        CONVENTIONS_FALLBACK@
    } else {
        conventions_fallback(configs.drop_last()) + "- config present: "@ + configs.last().key
            + " (evidence: "@ + configs.last().key + ")\n"@
    }
}

/// The outcome of rebuilding the conventions, given the language model's reply.
pub open spec fn conventions_rebuilt<E: Embedder>(
    embedder: &E,
    s: State,
    t: State,
    r: Result<MemoryDoc, Error>,
    ns: Seq<char>,
    reply: Result<ChatResult, Error>,
    opts: IngestOptions,
    now: u64,
) -> bool {
    exists|new: NewDoc|
        own_doc(
            new,
            "conventions"@,
            body_from(reply, conventions_fallback(config_docs(s, ns))),
            "{\"kind\":\"conventions\"}"@,
        ) && #[trigger] ingest_gives(embedder, s, t, r, ns + ":meta"@, new, opts, now)
}

/// Whether rebuilding the conventions may have this outcome: the language model was asked with the
/// prompt, and its reply was made into the document.
pub open spec fn chat_reply_rebuilds_conventions<C: ChatClient, E: Embedder>(
    chat: &C,
    embedder: &E,
    s: State,
    t: State,
    r: Result<MemoryDoc, Error>,
    ns: Seq<char>,
    max_tokens: usize,
    opts: IngestOptions,
    now: u64,
) -> bool {
    exists|reply: Result<ChatResult, Error>| #[trigger]
        chat_gives(chat, conventions_prompt(s, ns), max_tokens, reply) && conventions_rebuilt(
            embedder,
            s,
            t,
            r,
            ns,
            reply,
            opts,
            now,
        )
}

fn find_configs(store: &Store, namespace: &str) -> (r: Vec<MemoryDoc>)
    ensures
        rows(r@) == config_docs(store@, namespace@),
{
    let docs = store.list_namespace(namespace, CONVENTIONS_WINDOW);
    let ghost all = rows(docs@);
    let mut out: Vec<MemoryDoc> = Vec::new();
    assert(all.take(0) =~= Seq::<Doc>::empty());
    assert(rows(out@) =~= Seq::<Doc>::empty());
    for i in 0..docs.len()
        invariant
            all == rows(docs@),
            rows(out@) == rows_where(all.take(i as int), is_config_doc()),
    {
        proof {
            assert(all.take(i + 1).drop_last() =~= all.take(i as int));
            assert(all.take(i + 1).last() == all[i as int]);
        }
        if is_config_file(docs[i].key.as_str()) {
            let ghost out0 = out@;
            let d = docs[i].copy();
            out.push(d);
            proof {
                lemma_rows_push(out0, d);
            }
        }
    }
    assert(all.take(all.len() as int) =~= all);
    out
}

fn write_conventions_prompt(store: &Store, namespace: &str, configs: &Vec<MemoryDoc>) -> (r: String)
    requires
        rows(configs@) == config_docs(store@, namespace@),
    ensures
        r@ == conventions_prompt(store@, namespace@),
{
    let ghost all = rows(configs@);
    let mut text = String::new();
    assert(all.take(0) =~= Seq::<Doc>::empty());
    for i in 0..configs.len()
        invariant
            all == rows(configs@),
            text@ == sections(all.take(i as int), CONFIG_CHARS as int),
    {
        proof {
            assert(all.take(i + 1).drop_last() =~= all.take(i as int));
            assert(all.take(i + 1).last() == all[i as int]);
        }
        text.push_str(write_section(&configs[i], CONFIG_CHARS).as_str());
    }
    assert(all.take(all.len() as int) =~= all);
    let hits = top_digests(store, namespace, "global", "global", 3, 12);
    let mut prompt = CONVENTIONS_TASK.to_owned();
    prompt.push_str(decimal_of(configs.len() as u64).as_str());
    prompt.push_str(")\n");
    prompt.push_str(text.as_str());
    prompt.push_str("\n## Architecture digests\n");
    prompt.push_str(write_digest_lines(&hits).as_str());
    prompt
}

fn write_conventions_fallback(configs: &Vec<MemoryDoc>) -> (r: String)
    ensures
        r@ == conventions_fallback(rows(configs@)),
{
    let ghost all = rows(configs@);
    let mut out = CONVENTIONS_FALLBACK.to_owned();
    assert(all.take(0) =~= Seq::<Doc>::empty());
    for i in 0..configs.len()
        invariant
            all == rows(configs@),
            out@ == conventions_fallback(all.take(i as int)),
    {
        proof {
            assert(all.take(i + 1).drop_last() =~= all.take(i as int));
            assert(all.take(i + 1).last() == all[i as int]);
        }
        out.push_str("- config present: ");
        out.push_str(configs[i].key.as_str());
        out.push_str(" (evidence: ");
        out.push_str(configs[i].key.as_str());
        out.push_str(")\n");
    }
    assert(all.take(all.len() as int) =~= all);
    out
}

/// Rebuilds the conventions of a namespace from its configuration files and the digests of its
/// global tree, and stores them in the meta namespace under the key `conventions`. Without a
/// reply of the language model the document lists the configuration files.
pub fn rebuild_conventions<C: ChatClient, E: Embedder>(
    store: &mut Store,
    chat: &C,
    embedder: &E,
    namespace: &str,
    max_tokens: usize,
    opts: &IngestOptions,
    now: u64,
) -> (r: Result<MemoryDoc, Error>)
    requires
        old(store)@.wf(),
    ensures
        final(store)@.wf(),
        chat_reply_rebuilds_conventions(
            chat,
            embedder,
            old(store)@,
            final(store)@,
            r,
            namespace@,
            max_tokens,
            *opts,
            now,
        ),
{
    let ghost s = store@;
    let configs = find_configs(store, namespace);
    let prompt = write_conventions_prompt(store, namespace, &configs);
    let p = prompt.as_str();
    let answer = chat.summarize(p, max_tokens);
    let ghost reply = answer;
    assert(call_ensures(C::summarize, (chat, p, max_tokens), reply));
    assert(chat_gives(chat, conventions_prompt(s, namespace@), max_tokens, reply));
    let body = choose_body(answer, write_conventions_fallback(&configs));
    let new = make_own_doc(
        "conventions".to_owned(),
        body,
        "{\"kind\":\"conventions\"}".to_owned(),
    );
    let meta = meta_namespace(namespace);
    let r = ingest_document(store, embedder, meta.as_str(), &new, opts, now);
    assert(conventions_rebuilt(embedder, s, store@, r, namespace@, reply, *opts, now));
    r
}

// ---------------------------------------------------------------------------------------------
// The architecture digest.
// ---------------------------------------------------------------------------------------------

/// How many documents are looked at for sources.
pub const DIGEST_WINDOW: i64 = 5000;

/// How much of a source the prompt shows.
pub const PER_FILE_CHARS: usize = 1200;

/// The size of the sources, in bytes, from which on no further source is shown.
pub const TOTAL_BUDGET_CHARS: usize = 60_000;

pub const DIGEST_TASK: &'static str = "You are writing an architecture digest of a software project";

pub const DIGEST_GUIDANCE: &'static str = " for an engineer who will work on it. Using ONLY the source files below, produce a dense, specific overview: the key modules/files and their responsibilities, the main data and control flow, and the load-bearing invariants. PRESERVE concrete specifics — identifier names, file names, and mechanisms — never replace a specific with vague prose.\n\n## Source files (";

pub const DIGEST_FALLBACK: &'static str = "Architecture digest (mechanical fallback — LLM unavailable):\n";

/// The sources of a namespace, or of one module: the files, and for a module those whose key
/// starts with its directory.
pub open spec fn is_source_in(module: Option<&str>) -> spec_fn(Doc) -> bool {
    |d: Doc|
        meta_is_file(d.meta) && match module {
            Some(p) => has_prefix(d.key, trim_end_char_text(p@, '/') + "/"@),
            None => true,
        }
}

/// Keys in the order of their text.
pub open spec fn key_order() -> spec_fn(Doc, Doc) -> bool {
    |a: Doc, b: Doc| text_less(a.key, b.key)
}

/// The sources that a digest is made of, in the order of their keys.
pub open spec fn source_docs(s: State, ns: Seq<char>, module: Option<&str>) -> Seq<Doc> {
    sorted_rows(
        rows_where(latest_docs(s, ns, DIGEST_WINDOW as int), is_source_in(module)),
        key_order(),
    )
}

/// The prompt for the digest of a namespace or of one module.
pub open spec fn digest_prompt(s: State, ns: Seq<char>, module: Option<&str>) -> Seq<char> {
    let sources = source_docs(s, ns, module);
    DIGEST_TASK@ + match module {
        Some(p) => " (module: "@ + p@ + ")"@,
        None => Seq::empty(),
    } + DIGEST_GUIDANCE@ + decimal(sources.len()) + ")\n"@ + corpus(
        sources,
        PER_FILE_CHARS as int,
        TOTAL_BUDGET_CHARS as int,
    )
}

/// What stands for the digest where the language model gave none: the sources.
pub open spec fn digest_fallback(sources: Seq<Doc>) -> Seq<char>
    decreases sources.len(),
{
    if sources.len() == 0 {
        DIGEST_FALLBACK@
    } else {
        digest_fallback(sources.drop_last()) + "- "@ + sources.last().key + "\n"@
    }
}

/// The key of a digest.
pub open spec fn digest_key(module: Option<&str>) -> Seq<char> {
    match module {
        Some(p) => "module:"@ + trim_end_char_text(p@, '/'),
        None => "architecture"@,
    }
}

/// The meta data of a digest, as JSON.
pub open spec fn digest_meta(module: Option<&str>) -> Seq<char> {
    "{\"kind\":\"digest\",\"module\":"@ + match module {
        Some(p) => json_quoted(p@),
        None => "null"@,
    } + "}"@
}

/// The outcome of rebuilding a digest, given the language model's reply.
pub open spec fn digest_rebuilt<E: Embedder>(
    embedder: &E,
    s: State,
    t: State,
    r: Result<MemoryDoc, Error>,
    ns: Seq<char>,
    module: Option<&str>,
    reply: Result<ChatResult, Error>,
    opts: IngestOptions,
    now: u64,
) -> bool {
    exists|new: NewDoc|
        own_doc(
            new,
            digest_key(module),
            body_from(reply, digest_fallback(source_docs(s, ns, module))),
            digest_meta(module),
        ) && #[trigger] ingest_gives(embedder, s, t, r, ns + ":meta"@, new, opts, now)
}

/// Whether rebuilding a digest may have this outcome: the language model was asked with the
/// prompt, and its reply was made into the document.
pub open spec fn chat_reply_rebuilds_digest<C: ChatClient, E: Embedder>(
    chat: &C,
    embedder: &E,
    s: State,
    t: State,
    r: Result<MemoryDoc, Error>,
    ns: Seq<char>,
    module: Option<&str>,
    max_tokens: usize,
    opts: IngestOptions,
    now: u64,
) -> bool {
    exists|reply: Result<ChatResult, Error>| #[trigger]
        chat_gives(chat, digest_prompt(s, ns, module), max_tokens, reply) && digest_rebuilt(
            embedder,
            s,
            t,
            r,
            ns,
            module,
            reply,
            opts,
            now,
        )
}

fn find_sources(store: &Store, namespace: &str, module: Option<&str>) -> (r: Vec<MemoryDoc>)
    ensures
        rows(r@) == source_docs(store@, namespace@, module),
{
    let docs = store.list_namespace(namespace, DIGEST_WINDOW);
    let prefix: Option<String> = match module {
        Some(p) => Some(cat2(trim_end_char(p, '/').as_str(), "/")),
        None => None,
    };
    let ghost all = rows(docs@);
    let mut out: Vec<MemoryDoc> = Vec::new();
    assert(all.take(0) =~= Seq::<Doc>::empty());
    assert(rows(out@) =~= Seq::<Doc>::empty());
    for i in 0..docs.len()
        invariant
            all == rows(docs@),
            match module {
                Some(p) => opt_text(prefix) == Some(trim_end_char_text(p@, '/') + "/"@),
                None => prefix is None,
            },
            rows(out@) == rows_where(all.take(i as int), is_source_in(module)),
    {
        proof {
            assert(all.take(i + 1).drop_last() =~= all.take(i as int));
            assert(all.take(i + 1).last() == all[i as int]);
        }
        let within: bool = match &prefix {
            Some(p) => starts_with(docs[i].key.as_str(), p.as_str()),
            None => true,
        };
        if is_file_meta(&docs[i].meta) && within {
            let ghost out0 = out@;
            let d = docs[i].copy();
            out.push(d);
            proof {
                lemma_rows_push(out0, d);
            }
        }
    }
    assert(all.take(all.len() as int) =~= all);
    sort(
        &mut out,
        |a: &MemoryDoc, b: &MemoryDoc| -> (r: bool)
            ensures
                r == text_less(a@.key, b@.key)
        { less(a.key.as_str(), b.key.as_str()) },
        Ghost(key_order()),
    );
    out
}

fn write_corpus(sources: &Vec<MemoryDoc>) -> (r: String)
    ensures
        r@ == corpus(rows(sources@), PER_FILE_CHARS as int, TOTAL_BUDGET_CHARS as int),
{
    let ghost all = rows(sources@);
    let mut out = String::new();
    assert(all.take(0) =~= Seq::<Doc>::empty());
    for i in 0..sources.len()
        invariant
            all == rows(sources@),
            out@ == corpus(all.take(i as int), PER_FILE_CHARS as int, TOTAL_BUDGET_CHARS as int),
    {
        proof {
            assert(all.take(i + 1).drop_last() =~= all.take(i as int));
            assert(all.take(i + 1).last() == all[i as int]);
        }
        let size: usize = out.as_str().as_bytes().len();
        if size < TOTAL_BUDGET_CHARS {
            out.push_str(write_section(&sources[i], PER_FILE_CHARS).as_str());
        }
    }
    assert(all.take(all.len() as int) =~= all);
    out
}

fn write_digest_prompt(
    store: &Store,
    namespace: &str,
    module: Option<&str>,
    sources: &Vec<MemoryDoc>,
) -> (r: String)
    requires
        rows(sources@) == source_docs(store@, namespace@, module),
    ensures
        r@ == digest_prompt(store@, namespace@, module),
{
    let mut prompt = DIGEST_TASK.to_owned();
    let mut scope = String::new();
    match module {
        Some(p) => {
            scope.push_str(" (module: ");
            scope.push_str(p);
            scope.push_str(")");
            assert(scope@ =~= " (module: "@ + p@ + ")"@);
        },
        None => {},
    }
    prompt.push_str(scope.as_str());
    prompt.push_str(DIGEST_GUIDANCE);
    prompt.push_str(decimal_of(sources.len() as u64).as_str());
    prompt.push_str(")\n");
    prompt.push_str(write_corpus(sources).as_str());
    assert(rows(sources@).len() == sources@.len());
    prompt
}

fn write_digest_fallback(sources: &Vec<MemoryDoc>) -> (r: String)
    ensures
        r@ == digest_fallback(rows(sources@)),
{
    let ghost all = rows(sources@);
    let mut out = DIGEST_FALLBACK.to_owned();
    assert(all.take(0) =~= Seq::<Doc>::empty());
    for i in 0..sources.len()
        invariant
            all == rows(sources@),
            out@ == digest_fallback(all.take(i as int)),
    {
        proof {
            assert(all.take(i + 1).drop_last() =~= all.take(i as int));
            assert(all.take(i + 1).last() == all[i as int]);
        }
        out.push_str("- ");
        out.push_str(sources[i].key.as_str());
        out.push_str("\n");
    }
    assert(all.take(all.len() as int) =~= all);
    out
}

/// Builds the architecture digest of a namespace, or of one module, in one pass over its sources,
/// and stores it in the meta namespace under the key `architecture` or `module:<directory>`.
/// Without a reply of the language model the document lists the sources.
pub fn rebuild_architecture_digest<C: ChatClient, E: Embedder>(
    store: &mut Store,
    chat: &C,
    embedder: &E,
    namespace: &str,
    module: Option<&str>,
    max_tokens: usize,
    opts: &IngestOptions,
    now: u64,
) -> (r: Result<MemoryDoc, Error>)
    requires
        old(store)@.wf(),
    ensures
        final(store)@.wf(),
        chat_reply_rebuilds_digest(
            chat,
            embedder,
            old(store)@,
            final(store)@,
            r,
            namespace@,
            module,
            max_tokens,
            *opts,
            now,
        ),
{
    let ghost s = store@;
    let sources = find_sources(store, namespace, module);
    let prompt = write_digest_prompt(store, namespace, module, &sources);
    let p = prompt.as_str();
    let answer = chat.summarize(p, max_tokens);
    let ghost reply = answer;
    assert(call_ensures(C::summarize, (chat, p, max_tokens), reply));
    assert(chat_gives(chat, digest_prompt(s, namespace@, module), max_tokens, reply));
    let body = choose_body(answer, write_digest_fallback(&sources));
    let key = match module {
        Some(m) => cat2("module:", trim_end_char(m, '/').as_str()),
        None => "architecture".to_owned(),
    };
    let mut about = "{\"kind\":\"digest\",\"module\":".to_owned();
    match module {
        Some(m) => about.push_str(json_quote(m).as_str()),
        None => about.push_str("null"),
    }
    about.push_str("}");
    let new = make_own_doc(key, body, about);
    let meta = meta_namespace(namespace);
    let r = ingest_document(store, embedder, meta.as_str(), &new, opts, now);
    assert(digest_rebuilt(embedder, s, store@, r, namespace@, module, reply, *opts, now));
    r
}

proof fn lemma_conventions_fallback(configs: Seq<Doc>)
    ensures
        conventions_fallback(configs).len() > 0,
    decreases configs.len(),
{
    if configs.len() > 0 {
        lemma_conventions_fallback(configs.drop_last());
    } else {
        reveal_strlit("Conventions (mechanical fallback — LLM unavailable):\n");
    }
}

proof fn lemma_digest_fallback(sources: Seq<Doc>)
    ensures
        digest_fallback(sources).len() > 0,
    decreases sources.len(),
{
    if sources.len() > 0 {
        lemma_digest_fallback(sources.drop_last());
    } else {
        reveal_strlit("Architecture digest (mechanical fallback — LLM unavailable):\n");
    }
}

/// Law: whatever the language model replies, neither the conventions nor a digest is empty.
pub proof fn law_digests_never_empty(reply: Result<ChatResult, Error>, docs: Seq<Doc>)
    ensures
        body_from(reply, conventions_fallback(docs)).len() > 0,
        body_from(reply, digest_fallback(docs)).len() > 0,
{
    lemma_conventions_fallback(docs);
    lemma_digest_fallback(docs);
    match reply {
        Ok(c) => {
            if c.text@.len() == 0 {
                assert(trim_text(c.text@).len() == 0);
            }
        },
        Err(_) => {},
    }
}

/// Law: once they are rebuilt, the conventions and the digests are what the meta namespace gives back
/// under their keys.
pub proof fn law_rebuilt_is_served<E: Embedder>(
    embedder: &E,
    s: State,
    t: State,
    doc: MemoryDoc,
    ns: Seq<char>,
    module: Option<&str>,
    reply: Result<ChatResult, Error>,
    opts: IngestOptions,
    now: u64,
)
    requires
        s.wf(),
    ensures
        conventions_rebuilt(embedder, s, t, Ok(doc), ns, reply, opts, now) ==> first_row(
            t.docs,
            doc_is(ns + ":meta"@, "conventions"@),
        ) == Some(doc@) && doc@.content == body_from(reply, conventions_fallback(config_docs(s, ns))),
        digest_rebuilt(embedder, s, t, Ok(doc), ns, module, reply, opts, now) ==> first_row(
            t.docs,
            doc_is(ns + ":meta"@, digest_key(module)),
        ) == Some(doc@) && doc@.content == body_from(reply, digest_fallback(source_docs(s, ns, module))),
{
    if conventions_rebuilt(embedder, s, t, Ok(doc), ns, reply, opts, now) {
        let new = choose|new: NewDoc|
            own_doc(
                new,
                "conventions"@,
                body_from(reply, conventions_fallback(config_docs(s, ns))),
                "{\"kind\":\"conventions\"}"@,
            ) && #[trigger] ingest_gives(embedder, s, t, Ok(doc), ns + ":meta"@, new, opts, now);
        law_ingest_is_read_back(embedder, s, t, Ok(doc), ns + ":meta"@, new, opts, now);
    }
    if digest_rebuilt(embedder, s, t, Ok(doc), ns, module, reply, opts, now) {
        let new = choose|new: NewDoc|
            own_doc(
                new,
                digest_key(module),
                body_from(reply, digest_fallback(source_docs(s, ns, module))),
                digest_meta(module),
            ) && #[trigger] ingest_gives(embedder, s, t, Ok(doc), ns + ":meta"@, new, opts, now);
        law_ingest_is_read_back(embedder, s, t, Ok(doc), ns + ":meta"@, new, opts, now);
    }
}

// ---------------------------------------------------------------------------------------------
// What the language model is shown.
// ---------------------------------------------------------------------------------------------

proof fn lemma_sections_hold(docs: Seq<Doc>, max: int, i: int)
    requires
        0 <= i < docs.len(),
    ensures
        contains_text(sections(docs, max), section(docs[i], max)),
    decreases docs.len(),
{
    let none = Seq::<char>::empty();
    let head = docs.drop_last();
    let before = sections(head, max);
    let last = section(docs.last(), max);
    if i < head.len() {
        lemma_sections_hold(head, max, i);
        lemma_holds_part(none, before, last, section(docs[i], max));
        assert(none + before + last =~= sections(docs, max));
    } else {
        lemma_holds_middle(before, last, none);
        assert(before + last + none =~= sections(docs, max));
    }
}

proof fn lemma_digest_lines_hold(hits: Seq<NodeHit>, i: int)
    requires
        0 <= i < hits.len(),
    ensures
        contains_text(digest_lines(hits), digest_line(hits[i])),
    decreases hits.len(),
{
    let none = Seq::<char>::empty();
    let head = hits.drop_last();
    let before = digest_lines(head);
    let last = digest_line(hits.last());
    if i < head.len() {
        lemma_digest_lines_hold(head, i);
        lemma_holds_part(none, before, last, digest_line(hits[i]));
        assert(none + before + last =~= digest_lines(hits));
    } else {
        lemma_holds_middle(before, last, none);
        assert(before + last + none =~= digest_lines(hits));
    }
}

/// Law: whether a file is a configuration file is told by its name alone, in whatever directory it stands and
/// in whatever case it is written.
pub proof fn law_config_names(dir: Seq<char>, name: Seq<char>, other: Seq<char>)
    requires
        !name.contains('/'),
        !other.contains('/'),
    ensures
        is_config_key(dir + seq!['/'] + name) == is_config_key(name),
        ascii_lower_text(name) == ascii_lower_text(other) ==> is_config_key(name) == is_config_key(other),
        ascii_lower_text(name) == ".editorconfig"@ || ascii_lower_text(name) == "rustfmt.toml"@
            || ascii_lower_text(name) == ".rustfmt.toml"@ || ascii_lower_text(name) == "clippy.toml"@
            || ascii_lower_text(name) == "contributing.md"@ || ascii_lower_text(name) == "pyproject.toml"@
            || ascii_lower_text(name) == "setup.cfg"@ || ascii_lower_text(name) == ".pylintrc"@
            || ascii_lower_text(name) == "tsconfig.json"@ || ascii_lower_text(name) == ".gitattributes"@
            || has_prefix(ascii_lower_text(name), ".eslintrc"@) || has_prefix(
            ascii_lower_text(name),
            ".prettierrc"@,
        ) <==> is_config_key(name),
{
    lemma_last_of_join(dir, name, '/');
    lemma_split_whole(name, '/');
    lemma_split_whole(other, '/');
}

/// Law: the evidence for the conventions of a namespace holds every configuration file among its thousand
/// newest documents, with its path and what it says as far as it has fifteen hundred characters, and a line
/// for each digest of the top of the global tree.
pub proof fn law_conventions_prompt(s: State, ns: Seq<char>, d: Doc, k: int)
    requires
        s.docs.contains(d),
        d.namespace == ns,
        is_config_key(d.key),
        !crowded_out(latest_docs(s, ns, 1000), d, 1000),
    ensures
        contains_text(
            conventions_prompt(s, ns),
            "### "@ + d.key + "\n"@ + take_text(d.content, 1500) + "\n\n"@,
        ),
        0 <= k < digests(s, ns, "global"@, "global"@, 3, 12).len() ==> contains_text(
            conventions_prompt(s, ns),
            "- "@ + match digests(s, ns, "global"@, "global"@, 3, 12)[k].label {
                Some(l) => l,
                None => take_text(digests(s, ns, "global"@, "global"@, 3, 12)[k].body, 120),
            } + "\n"@,
        ),
{
    let none = Seq::<char>::empty();
    let configs = config_docs(s, ns);
    law_listed(s, ns, 1000, d);
    lemma_rows_where_contains(latest_docs(s, ns, CONVENTIONS_WINDOW as int), is_config_doc());
    assert(configs.contains(d));
    let i = choose|i: int| 0 <= i < configs.len() && configs[i] == d;
    lemma_sections_hold(configs, 1500, i);
    let front = CONVENTIONS_TASK@ + decimal(configs.len()) + ")\n"@;
    let all = sections(configs, 1500);
    let lines = digest_lines(digests(s, ns, "global"@, "global"@, 3, 12));
    let mid = "\n## Architecture digests\n"@;
    lemma_holds_part(front, all, mid + lines, section(d, 1500));
    assert(front + all + (mid + lines) =~= conventions_prompt(s, ns));
    if 0 <= k < digests(s, ns, "global"@, "global"@, 3, 12).len() {
        lemma_digest_lines_hold(digests(s, ns, "global"@, "global"@, 3, 12), k);
        lemma_holds_part(
            front + all + mid,
            lines,
            none,
            digest_line(digests(s, ns, "global"@, "global"@, 3, 12)[k]),
        );
        assert(front + all + mid + lines + none =~= conventions_prompt(s, ns));
    }
}

/// Whether a directory is the module that was asked for, or no module was.
pub open spec fn in_module(key: Seq<char>, module: Option<&str>) -> bool {
    match module {
        Some(p) => has_prefix(key, trim_end_char_text(p@, '/') + "/"@),
        None => true,
    }
}

/// Law: the sources of a digest are the files of the module among the five thousand newest documents, in the
/// order of their paths.
pub proof fn law_source_docs(s: State, ns: Seq<char>, module: Option<&str>, d: Doc)
    ensures
        source_docs(s, ns, module).contains(d) ==> s.docs.contains(d) && d.namespace == ns && meta_is_file(d.meta)
            && in_module(d.key, module),
        s.docs.contains(d) && d.namespace == ns && meta_is_file(d.meta) && in_module(d.key, module)
            && !crowded_out(latest_docs(s, ns, 5000), d, 5000) ==> source_docs(s, ns, module).contains(d),
        forall|i: int, j: int|
            0 <= i < j < source_docs(s, ns, module).len() ==> !text_less(
                (#[trigger] source_docs(s, ns, module)[j]).key,
                (#[trigger] source_docs(s, ns, module)[i]).key,
            ),
{
    broadcast use vstd::seq_lib::group_to_multiset_ensures;

    let latest = latest_docs(s, ns, DIGEST_WINDOW as int);
    let sel = rows_where(latest, is_source_in(module));
    let sorted = source_docs(s, ns, module);
    law_listed(s, ns, 5000, d);
    lemma_rows_where_contains(latest, is_source_in(module));
    lemma_key_order();
    law_sorted_rows(sel, key_order());
    assert(sorted.to_multiset().count(d) > 0 <==> sorted.contains(d));
    assert(sel.to_multiset().count(d) > 0 <==> sel.contains(d));
    assert forall|i: int, j: int| 0 <= i < j < sorted.len() implies !text_less(
        (#[trigger] sorted[j]).key,
        (#[trigger] sorted[i]).key,
    ) by {
        assert(!key_order()(sorted[j], sorted[i]));
    }
}

proof fn lemma_key_order()
    ensures
        is_order(key_order()),
{
    let f = key_order();
    assert forall|a: Doc| !#[trigger] f(a, a) by {
        lemma_text_less_irreflexive(a.key);
    }
    assert forall|a: Doc, b: Doc, c: Doc| #[trigger] f(a, b) && #[trigger] f(b, c) implies f(a, c) by {
        lemma_text_less_transitive(a.key, b.key, c.key);
    }
    assert forall|a: Doc, b: Doc, c: Doc| !#[trigger] f(a, b) && !#[trigger] f(b, c) implies !f(a, c) by {
        lemma_text_less_total(a.key, b.key);
        lemma_text_less_total(b.key, c.key);
        if f(a, c) && f(b, a) {
            lemma_text_less_transitive(b.key, a.key, c.key);
        }
    }
}

proof fn lemma_corpus(docs: Seq<Doc>, max: int, budget: int) -> (n: int)
    ensures
        0 <= n <= docs.len(),
        corpus(docs, max, budget) == sections(docs.take(n), max),
        n < docs.len() ==> encode_utf8(corpus(docs, max, budget)).len() >= budget,
        0 < n ==> encode_utf8(sections(docs.take(n - 1), max)).len() < budget,
    decreases docs.len(),
{
    if docs.len() == 0 {
        assert(docs.take(0) =~= docs);
        0
    } else {
        let head = docs.drop_last();
        let before = corpus(head, max, budget);
        let n = lemma_corpus(head, max, budget);
        assert(head.take(n) =~= docs.take(n));
        if encode_utf8(before).len() >= budget {
            if 0 < n {
                assert(head.take(n - 1) =~= docs.take(n - 1));
            }
            n
        } else {
            assert(n == head.len());
            assert(docs.take(docs.len() as int) =~= docs);
            assert(docs.take(n) =~= head);
            docs.len() as int
        }
    }
}

/// Law: what the language model is shown for a digest is the start of its sources, file by file: each with its
/// path and what it says as far as it has twelve hundred characters, until sixty thousand bytes are reached. No
/// file is left out before that.
pub proof fn law_digest_prompt(s: State, ns: Seq<char>, module: Option<&str>)
    ensures
        exists|n: int| #[trigger]
            shows_first(s, ns, module, n) && (n < source_docs(s, ns, module).len() ==> encode_utf8(
                sections(source_docs(s, ns, module).take(n), 1200),
            ).len() >= 60_000) && (0 < n ==> encode_utf8(
                sections(source_docs(s, ns, module).take(n - 1), 1200),
            ).len() < 60_000),
        module is Some ==> contains_text(digest_prompt(s, ns, module), " (module: "@ + module->0@ + ")"@),
{
    let none = Seq::<char>::empty();
    let sources = source_docs(s, ns, module);
    let n = lemma_corpus(sources, 1200, 60_000);
    let shown = sections(sources.take(n), 1200);
    let name = match module {
        Some(p) => " (module: "@ + p@ + ")"@,
        None => none,
    };
    let end = DIGEST_GUIDANCE@ + decimal(sources.len()) + ")\n"@;
    let front = DIGEST_TASK@ + name + end;
    assert(front + shown =~= digest_prompt(s, ns, module));
    assert forall|i: int| 0 <= i < n implies contains_text(
        digest_prompt(s, ns, module),
        "### "@ + (#[trigger] sources[i]).key + "\n"@ + take_text(sources[i].content, 1200) + "\n\n"@,
    ) by {
        assert(sources.take(n)[i] == sources[i]);
        lemma_sections_hold(sources.take(n), 1200, i);
        lemma_holds_part(front, shown, none, section(sources[i], 1200));
        assert(front + shown + none =~= digest_prompt(s, ns, module));
    }
    assert(shows_first(s, ns, module, n));
    lemma_holds_middle(DIGEST_TASK@, name, end + shown);
    assert(DIGEST_TASK@ + name + (end + shown) =~= digest_prompt(s, ns, module));
}

/// Whether the language model is shown the first `n` sources of a digest.
pub open spec fn shows_first(s: State, ns: Seq<char>, module: Option<&str>, n: int) -> bool {
    &&& 0 <= n <= source_docs(s, ns, module).len()
    &&& forall|i: int|
        0 <= i < n ==> contains_text(
            digest_prompt(s, ns, module),
            "### "@ + (#[trigger] source_docs(s, ns, module)[i]).key + "\n"@ + take_text(
                source_docs(s, ns, module)[i].content,
                1200,
            ) + "\n\n"@,
        )
}

proof fn lemma_fallbacks_grow(docs: Seq<Doc>, i: int)
    requires
        0 <= i < docs.len(),
    ensures
        contains_text(conventions_fallback(docs), docs[i].key),
        contains_text(digest_fallback(docs), "- "@ + docs[i].key + "\n"@),
    decreases docs.len(),
{
    let none = Seq::<char>::empty();
    let head = docs.drop_last();
    let key = docs.last().key;
    let a = conventions_fallback(head);
    let b = digest_fallback(head);
    let more = "- config present: "@ + key + " (evidence: "@ + key + ")\n"@;
    let line = "- "@ + key + "\n"@;
    assert(a + more =~= conventions_fallback(docs));
    assert(b + line =~= digest_fallback(docs));
    if i < head.len() {
        lemma_fallbacks_grow(head, i);
        lemma_holds_part(none, a, more, docs[i].key);
        assert(none + a + more =~= a + more);
        lemma_holds_part(none, b, line, "- "@ + docs[i].key + "\n"@);
        assert(none + b + line =~= b + line);
    } else {
        lemma_holds_middle(a + "- config present: "@, key, " (evidence: "@ + key + ")\n"@);
        assert(a + "- config present: "@ + key + (" (evidence: "@ + key + ")\n"@) =~= a + more);
        lemma_holds_middle(b, line, none);
        assert(b + line + none =~= b + line);
    }
}

/// Law: what is written without the language model names every file that the digest rests on.
pub proof fn law_fallbacks_name_every_file(docs: Seq<Doc>, i: int)
    requires
        0 <= i < docs.len(),
    ensures
        contains_text(conventions_fallback(docs), docs[i].key),
        contains_text(digest_fallback(docs), docs[i].key),
{
    let none = Seq::<char>::empty();
    lemma_fallbacks_grow(docs, i);
    let line = "- "@ + docs[i].key + "\n"@;
    lemma_holds_middle("- "@, docs[i].key, "\n"@);
    let all = digest_fallback(docs);
    let k = choose|k: int| occurs_at(all, line, k);
    let a = all.take(k);
    let b = all.skip(k + line.len());
    assert(a + line + b =~= all) by {
        assert forall|x: int| 0 <= x < all.len() implies (a + line + b)[x] == all[x] by {
            if k <= x < k + line.len() {
                assert(all.subrange(k, k + line.len())[x - k] == all[x]);
            }
        }
    }
    lemma_holds_part(a, line, b, docs[i].key);
}

/// Law: what the language model answers is what is served under the key of the digest, in the meta namespace,
/// unless the answer is blank: the conventions under `conventions`, the architecture under `architecture`, and
/// that of a module under the path of the module.
pub proof fn law_answer_is_served<E: Embedder>(
    embedder: &E,
    s: State,
    t: State,
    doc: MemoryDoc,
    ns: Seq<char>,
    module: Option<&str>,
    answer: ChatResult,
    opts: IngestOptions,
    now: u64,
)
    requires
        s.wf(),
        trim_text(answer.text@).len() > 0,
    ensures
        conventions_rebuilt(embedder, s, t, Ok(doc), ns, Ok(answer), opts, now) ==> first_row(
            t.docs,
            doc_is(ns + ":meta"@, "conventions"@),
        ) == Some(doc@) && doc@.content == answer.text@,
        digest_rebuilt(embedder, s, t, Ok(doc), ns, module, Ok(answer), opts, now) ==> first_row(
            t.docs,
            doc_is(
                ns + ":meta"@,
                match module {
                    Some(p) => "module:"@ + trim_end_char_text(p@, '/'),
                    None => "architecture"@,
                },
            ),
        ) == Some(doc@) && doc@.content == answer.text@,
{
    law_rebuilt_is_served(embedder, s, t, doc, ns, module, Ok(answer), opts, now);
}

/// Law: a digest is stored as the service's own writing, titled by its key and marked as what it is: conventions,
/// or a digest with the module it is of.
pub proof fn law_rebuilt_is_marked<E: Embedder>(
    embedder: &E,
    s: State,
    t: State,
    doc: MemoryDoc,
    ns: Seq<char>,
    module: Option<&str>,
    reply: Result<ChatResult, Error>,
    opts: IngestOptions,
    now: u64,
)
    requires
        s.wf(),
    ensures
        conventions_rebuilt(embedder, s, t, Ok(doc), ns, reply, opts, now) ==> doc@.author == "engram"@ && doc@.taint
            == Taint::Internal && doc@.title == "conventions"@ && doc@.meta == Some(
            "{\"kind\":\"conventions\"}"@,
        ),
        digest_rebuilt(embedder, s, t, Ok(doc), ns, module, reply, opts, now) ==> doc@.author == "engram"@
            && doc@.taint == Taint::Internal && doc@.title == digest_key(module) && doc@.meta == Some(
            "{\"kind\":\"digest\",\"module\":"@ + match module {
                Some(p) => json_quoted(p@),
                None => "null"@,
            } + "}"@,
        ),
{
    let r: Result<MemoryDoc, Error> = Ok(doc);
    if conventions_rebuilt(embedder, s, t, r, ns, reply, opts, now) {
        let new = choose|new: NewDoc|
            own_doc(
                new,
                "conventions"@,
                body_from(reply, conventions_fallback(config_docs(s, ns))),
                "{\"kind\":\"conventions\"}"@,
            ) && #[trigger] ingest_gives(embedder, s, t, r, ns + ":meta"@, new, opts, now);
        law_ingest_is_read_back(embedder, s, t, r, ns + ":meta"@, new, opts, now);
    }
    if digest_rebuilt(embedder, s, t, r, ns, module, reply, opts, now) {
        let new = choose|new: NewDoc|
            own_doc(
                new,
                digest_key(module),
                body_from(reply, digest_fallback(source_docs(s, ns, module))),
                digest_meta(module),
            ) && #[trigger] ingest_gives(embedder, s, t, r, ns + ":meta"@, new, opts, now);
        law_ingest_is_read_back(embedder, s, t, r, ns + ":meta"@, new, opts, now);
    }
}

} // verus!
