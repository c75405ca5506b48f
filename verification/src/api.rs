//! The service: what each request does, and which status and body answer it.

use crate::conventions::{
    chat_reply_rebuilds_conventions, chat_reply_rebuilds_digest, meta_namespace, rebuild_architecture_digest,
    rebuild_conventions,
};
use crate::embed::{embed_gives, signature_gives, Embedder};
use crate::graph_query::{callees, callees_of, callers, callers_of, Hop, TraceHop};
use crate::ingest::{ingest_document, ingest_gives, IngestOptions};
use crate::llm::ChatClient;
use crate::model::{error_text, Doc, Error, MemoryDoc, NewDoc};
use crate::retrieve::code::code_result;
use crate::retrieve::drill::{digest_hit, digest_of, drill_down, drill_outcome, TreeHit};
use crate::retrieve::search::{query_result, recall_answer, recent_docs};
use crate::retrieve::{query, recall, search_code, CodeHit, CodeOptions, Hit, Scorer};
use crate::store::docs::{doc_has_id, doc_in, doc_is, forgotten, newer};
use crate::store::Store;
use crate::table::{
    first_row, first_rows, lemma_rows_push, lemma_rows_where_contains, rows, rows_where, sorted_rows,
};
use crate::text::{
    cat2, has_prefix, same, starts_with, strip_prefix, strip_prefix_text, trim_end_char, trim_end_char_text,
};
use vstd::prelude::*;

verus! {

/// The answer to a request: a status, and a body or the text of an error.
#[derive(Debug)]
pub struct Reply<T> {
    pub status: u16,
    pub body: Result<T, String>,
}

/// Whether a reply is an error with this status and text.
pub open spec fn is_refusal<T>(r: Reply<T>, status: u16, text: Seq<char>) -> bool {
    r.status == status && r.body is Err && r.body->Err_0@ == text
}

fn refuse<T>(status: u16, text: &str) -> (r: Reply<T>)
    ensures
        is_refusal(r, status, text@),
{
    Reply { status, body: Err(text.to_owned()) }
}

/// Whether a reply is what an outcome of the library becomes: its value with a status, or its error
/// with the status 500.
pub open spec fn answers<T>(r: Reply<T>, status: u16, outcome: Result<T, Error>) -> bool {
    match outcome {
        Ok(v) => r.status == status && r.body == Ok::<T, String>(v),
        Err(e) => is_refusal(r, 500, error_text(e)),
    }
}

fn answer<T>(status: u16, outcome: Result<T, Error>) -> (r: Reply<T>)
    ensures
        answers(r, status, outcome),
{
    match outcome {
        Ok(v) => Reply { status, body: Ok(v) },
        Err(e) => Reply { status: 500, body: Err(e.message()) },
    }
}

/// Whether a request may pass: its authorization header carries the token as a bearer.
pub fn authorized(header: Option<&str>, token: &str) -> (r: bool)
    ensures
        r == (header is Some && strip_prefix_text(header->0@, "Bearer "@) == Some(token@)),
{
    match header {
        None => false,
        Some(h) => match strip_prefix(h, "Bearer ") {
            None => false,
            Some(t) => same(t.as_str(), token),
        },
    }
}

/// What answers a request that may not pass.
pub fn unauthorized<T>() -> (r: Reply<T>)
    ensures
        is_refusal(r, 401, "unauthorized"@),
{
    refuse(401, "unauthorized")
}

// ---------------------------------------------------------------------------------------------
// Documents.
// ---------------------------------------------------------------------------------------------

/// Stores a document. What was created is answered with the status 201.
pub fn ingest_doc<E: Embedder>(
    store: &mut Store,
    embedder: &E,
    namespace: &str,
    new: &NewDoc,
    opts: &IngestOptions,
    now: u64,
) -> (r: Reply<MemoryDoc>)
    requires
        old(store)@.wf(),
    ensures
        final(store)@.wf(),
        exists|outcome: Result<MemoryDoc, Error>| #[trigger]
            ingest_gives(embedder, old(store)@, final(store)@, outcome, namespace@, *new, *opts, now)
                && answers(r, 201, outcome),
{
    let outcome = ingest_document(store, embedder, namespace, new, opts, now);
    answer(201, outcome)
}

/// A document where there is one, and the status 404 where there is none.
pub open spec fn found_or(r: Reply<MemoryDoc>, doc: Option<Doc>, text: Seq<char>) -> bool {
    match doc {
        Some(d) => r.status == 200 && r.body is Ok && r.body->Ok_0@ == d,
        None => is_refusal(r, 404, text),
    }
}

pub fn get_doc(store: &Store, namespace: &str, id: &str) -> (r: Reply<MemoryDoc>)
    ensures
        found_or(r, first_row(store@.docs, doc_has_id(namespace@, id@)), "not found"@),
{
    match store.get_doc(namespace, id) {
        Some(d) => Reply { status: 200, body: Ok(d) },
        None => refuse(404, "not found"),
    }
}

pub fn get_doc_by_key(store: &Store, namespace: &str, key: &str) -> (r: Reply<MemoryDoc>)
    ensures
        found_or(r, first_row(store@.docs, doc_is(namespace@, key@)), "not found"@),
{
    match store.get_by_key(namespace, key) {
        Some(d) => Reply { status: 200, body: Ok(d) },
        None => refuse(404, "not found"),
    }
}

/// Forgets a document and all that was derived from it.
pub fn forget_doc_by_key(store: &mut Store, namespace: &str, key: &str) -> (r: Reply<()>)
    requires
        old(store)@.wf(),
    ensures
        final(store)@.wf(),
        match first_row(old(store)@.docs, doc_is(namespace@, key@)) {
            Some(d) => r.status == 204 && r.body is Ok && final(store)@ == forgotten(
                old(store)@,
                namespace@,
                d.document_id,
            ),
            None => is_refusal(r, 404, "not found"@) && final(store)@ == old(store)@,
        },
{
    if store.delete_doc_by_key(namespace, key) {
        Reply { status: 204, body: Ok(()) }
    } else {
        refuse(404, "not found")
    }
}

/// How many documents a list shows.
pub const LIST_LIMIT: i64 = 100;

/// The most recent documents of a namespace.
pub fn list_docs(store: &Store, namespace: &str) -> (r: Reply<Vec<MemoryDoc>>)
    ensures
        r.status == 200,
        r.body is Ok,
        rows(r.body->Ok_0@) == first_rows(
            sorted_rows(rows_where(store@.docs, doc_in(namespace@)), newer()),
            LIST_LIMIT as int,
        ),
{
    Reply { status: 200, body: Ok(store.list_namespace(namespace, LIST_LIMIT)) }
}

// ---------------------------------------------------------------------------------------------
// Retrieval.
// ---------------------------------------------------------------------------------------------

/// How many results a search shows where the request does not say.
pub const DEFAULT_LIMIT: usize = 10;

/// A number of a request, or its default.
pub open spec fn or_default(n: Option<usize>, default: usize) -> usize {
    match n {
        Some(v) => v,
        None => default,
    }
}

fn number_or(n: Option<usize>, default: usize) -> (r: usize)
    ensures
        r == or_default(n, default),
{
    match n {
        Some(v) => v,
        None => default,
    }
}

pub fn query_docs<E: Embedder, S: Scorer>(
    store: &Store,
    embedder: &E,
    scorer: &S,
    namespace: &str,
    query_text: &str,
    limit: Option<usize>,
) -> (r: Reply<Vec<Hit>>)
    ensures
        exists|q: Result<Vec<u32>, Error>, signature: String, outcome: Result<Vec<Hit>, Error>|
            #![trigger embed_gives(embedder, query_text, q), signature_gives(embedder, signature), answers(r, 200, outcome)]
            embed_gives(embedder, query_text, q) && signature_gives(embedder, signature) && query_result(
                scorer,
                store@,
                namespace@,
                query_text@,
                signature@,
                q,
                or_default(limit, DEFAULT_LIMIT) as int,
                outcome,
            ) && answers(r, 200, outcome),
{
    let outcome = query(
        store,
        embedder,
        scorer,
        namespace,
        query_text,
        number_or(limit, DEFAULT_LIMIT),
    );
    answer(200, outcome)
}

pub fn search_code_docs<E: Embedder, S: Scorer>(
    store: &Store,
    embedder: &E,
    scorer: &S,
    namespace: &str,
    query_text: &str,
    limit: Option<usize>,
    opts: CodeOptions,
) -> (r: Reply<Vec<CodeHit>>)
    ensures
        exists|q: Result<Vec<u32>, Error>, signature: String, outcome: Result<Vec<CodeHit>, Error>|
            #![trigger embed_gives(embedder, query_text, q), signature_gives(embedder, signature), answers(r, 200, outcome)]
            embed_gives(embedder, query_text, q) && signature_gives(embedder, signature) && code_result(
                scorer,
                store@,
                namespace@,
                query_text@,
                signature@,
                opts,
                q,
                or_default(limit, DEFAULT_LIMIT) as int,
                outcome,
            ) && answers(r, 200, outcome),
{
    let outcome = search_code(
        store,
        embedder,
        scorer,
        namespace,
        query_text,
        number_or(limit, DEFAULT_LIMIT),
        opts,
    );
    answer(200, outcome)
}

pub fn recall_docs<S: Scorer>(
    store: &Store,
    scorer: &S,
    namespace: &str,
    limit: Option<usize>,
    now: u64,
) -> (r: Reply<Vec<Hit>>)
    ensures
        r.status == 200,
        r.body is Ok,
        exists|scores: Seq<u64>| #[trigger]
            recall_answer(
                scorer,
                recent_docs(store@, namespace@),
                now,
                scores,
                or_default(limit, DEFAULT_LIMIT) as int,
                rows(r.body->Ok_0@),
            ),
{
    let hits = recall(store, scorer, namespace, number_or(limit, DEFAULT_LIMIT), now);
    let ghost shown = rows(hits@);
    let r: Reply<Vec<Hit>> = Reply { status: 200, body: Ok(hits) };
    assert(rows(r.body->Ok_0@) == shown);
    r
}

// ---------------------------------------------------------------------------------------------
// The code graph.
// ---------------------------------------------------------------------------------------------

/// A request for a walk over the code graph.
#[derive(Debug)]
pub struct GraphReq {
    pub sym: Option<String>,
    pub path: Option<String>,
    pub max_depth: Option<usize>,
    pub limit: Option<usize>,
    /// In hundredths; where it is not above 0, every hop is shown.
    pub min_confidence: Option<u32>,
}

/// The depth of a walk: what the request says or 2, but no more than the service allows.
pub open spec fn walk_depth(req: GraphReq, cap: usize) -> usize {
    let d = or_default(req.max_depth, 2);
    if d < cap {
        d
    } else {
        cap
    }
}

/// A symbol as edges name it: a bare name means the same as one with the prefix.
pub open spec fn full_symbol(sym: Seq<char>) -> Seq<char> {
    if has_prefix(sym, "sym:"@) {
        sym
    } else {
        "sym:"@ + sym
    }
}

/// The hops that are sure enough.
pub open spec fn is_sure(req: GraphReq) -> spec_fn(Hop) -> bool {
    |h: Hop|
        match req.min_confidence {
            Some(m) => h.confidence >= m,
            None => true,
        }
}

fn depth_of(req: &GraphReq, cap: usize) -> (r: usize)
    ensures
        r == walk_depth(*req, cap),
{
    let d: usize = number_or(req.max_depth, 2);
    if d < cap {
        d
    } else {
        cap
    }
}

fn keep_sure(hops: Vec<TraceHop>, req: &GraphReq) -> (r: Vec<TraceHop>)
    ensures
        rows(r@) == rows_where(rows(hops@), is_sure(*req)),
{
    let ghost all = rows(hops@);
    let mut out: Vec<TraceHop> = Vec::new();
    assert(all.take(0) =~= Seq::<Hop>::empty());
    assert(rows(out@) =~= Seq::<Hop>::empty());
    for i in 0..hops.len()
        invariant
            all == rows(hops@),
            rows(out@) == rows_where(all.take(i as int), is_sure(*req)),
    {
        proof {
            assert(all.take(i + 1).drop_last() =~= all.take(i as int));
            assert(all.take(i + 1).last() == all[i as int]);
        }
        let sure: bool = match req.min_confidence {
            Some(m) => hops[i].confidence >= m,
            None => true,
        };
        if sure {
            let ghost out0 = out@;
            let hop = TraceHop {
                path: hops[i].path.clone(),
                document_id: hops[i].document_id.clone(),
                sym: hops[i].sym.clone(),
                edge_kind: hops[i].edge_kind.clone(),
                confidence: hops[i].confidence,
                depth: hops[i].depth,
            };
            out.push(hop);
            proof {
                lemma_rows_push(out0, hop);
                assert(hop@ == all[i as int]);
            }
        }
    }
    assert(all.take(all.len() as int) =~= all);
    out
}

/// Who calls a symbol. `cap` is the greatest depth that the service allows.
pub fn graph_callers(store: &Store, namespace: &str, req: &GraphReq, cap: usize) -> (r: Reply<Vec<TraceHop>>)
    ensures
        match req.sym {
            None => is_refusal(r, 400, "sym is required"@),
            Some(s) => r.status == 200 && r.body is Ok && rows(r.body->Ok_0@) == rows_where(
                callers_of(
                    store@,
                    namespace@,
                    full_symbol(s@),
                    walk_depth(*req, cap),
                    or_default(req.limit, 20),
                ),
                is_sure(*req),
            ),
        },
{
    match &req.sym {
        None => refuse(400, "sym is required"),
        Some(s) => {
            let sym: String = if starts_with(s.as_str(), "sym:") {
                s.clone()
            } else {
                cat2("sym:", s.as_str())
            };
            let hops = callers(
                store,
                namespace,
                sym.as_str(),
                depth_of(req, cap),
                number_or(req.limit, 20),
            );
            Reply { status: 200, body: Ok(keep_sure(hops, req)) }
        },
    }
}

/// What a file calls. `cap` is the greatest depth that the service allows.
pub fn graph_callees(store: &Store, namespace: &str, req: &GraphReq, cap: usize) -> (r: Reply<Vec<TraceHop>>)
    ensures
        match req.path {
            None => is_refusal(r, 400, "path is required"@),
            Some(p) => r.status == 200 && r.body is Ok && rows(r.body->Ok_0@) == rows_where(
                callees_of(
                    store@,
                    namespace@,
                    p@,
                    walk_depth(*req, cap),
                    or_default(req.limit, 20),
                ),
                is_sure(*req),
            ),
        },
{
    match &req.path {
        None => refuse(400, "path is required"),
        Some(p) => {
            let hops = callees(
                store,
                namespace,
                p.as_str(),
                depth_of(req, cap),
                number_or(req.limit, 20),
            );
            Reply { status: 200, body: Ok(keep_sure(hops, req)) }
        },
    }
}

/// Law: a bare symbol and the same symbol with its prefix are one request.
pub proof fn law_bare_symbol(name: Seq<char>)
    requires
        !has_prefix(name, "sym:"@),
    ensures
        full_symbol(name) == full_symbol("sym:"@ + name),
{
    assert(("sym:"@ + name).take("sym:"@.len() as int) =~= "sym:"@);
}

// ---------------------------------------------------------------------------------------------
// Digests.
// ---------------------------------------------------------------------------------------------

pub fn tree_query<E: Embedder, S: Scorer>(
    store: &Store,
    embedder: &E,
    scorer: &S,
    namespace: &str,
    query_text: &str,
    tree_kind: Option<&str>,
    tree_key: Option<&str>,
    max_depth: Option<usize>,
    limit: Option<usize>,
) -> (r: Reply<Vec<TreeHit>>)
    ensures
        exists|outcome: Result<Vec<TreeHit>, Error>|
            drill_outcome(
                embedder,
                scorer,
                store@,
                namespace@,
                query_text,
                tree_kind,
                tree_key,
                or_default(max_depth, 3),
                or_default(limit, DEFAULT_LIMIT),
                outcome,
            ) && #[trigger] answers(r, 200, outcome),
{
    let outcome = drill_down(
        store,
        embedder,
        scorer,
        namespace,
        query_text,
        tree_kind,
        tree_key,
        number_or(max_depth, 3),
        number_or(limit, DEFAULT_LIMIT),
    );
    answer(200, outcome)
}

/// Whether a reply is the one cached digest.
pub open spec fn is_digest(r: Reply<Vec<TreeHit>>, d: Doc, key: Seq<char>) -> bool {
    r.status == 200 && r.body is Ok && rows(r.body->Ok_0@) == seq![digest_of(d, key)]
}

fn digest_reply(doc: MemoryDoc, key: String) -> (r: Reply<Vec<TreeHit>>)
    ensures
        is_digest(r, doc@, key@),
{
    let mut hits: Vec<TreeHit> = Vec::new();
    let ghost d = doc@;
    let ghost k = key@;
    hits.push(digest_hit(doc, key));
    assert(rows(hits@) =~= seq![digest_of(d, k)]);
    Reply { status: 200, body: Ok(hits) }
}

/// The architecture of a repository: the cached digest of the meta namespace, or, where none was
/// built, a drill of the global tree.
pub fn get_architecture<E: Embedder, S: Scorer>(
    store: &Store,
    embedder: &E,
    scorer: &S,
    namespace: &str,
    query_text: Option<&str>,
    depth: Option<usize>,
    limit: Option<usize>,
) -> (r: Reply<Vec<TreeHit>>)
    ensures
        match first_row(store@.docs, doc_is(namespace@ + ":meta"@, "architecture"@)) {
            Some(d) => is_digest(r, d, "architecture"@),
            None => exists|q: &str, outcome: Result<Vec<TreeHit>, Error>|
                q@ == (if query_text is Some {
                    query_text->0@
                } else {
                    ""@
                }) && #[trigger] drill_outcome(
                    embedder,
                    scorer,
                    store@,
                    namespace@,
                    q,
                    Some("global"),
                    Some("global"),
                    or_default(depth, 3),
                    or_default(limit, DEFAULT_LIMIT),
                    outcome,
                ) && answers(r, 200, outcome),
        },
{
    let meta = meta_namespace(namespace);
    match store.get_by_key(meta.as_str(), "architecture") {
        Some(doc) => digest_reply(doc, "architecture".to_owned()),
        None => {
            let q = match query_text {
                Some(q) => q,
                None => "",
            };
            let outcome = drill_down(
                store,
                embedder,
                scorer,
                namespace,
                q,
                Some("global"),
                Some("global"),
                number_or(depth, 3),
                number_or(limit, DEFAULT_LIMIT),
            );
            answer(200, outcome)
        },
    }
}

/// The digest of one directory: the cached one of the meta namespace, or, where none was built, a
/// drill of the directory's module tree.
pub fn get_module<E: Embedder, S: Scorer>(
    store: &Store,
    embedder: &E,
    scorer: &S,
    namespace: &str,
    path: &str,
    query_text: Option<&str>,
    depth: Option<usize>,
    limit: Option<usize>,
) -> (r: Reply<Vec<TreeHit>>)
    ensures
        match first_row(
            store@.docs,
            doc_is(namespace@ + ":meta"@, "module:"@ + trim_end_char_text(path@, '/')),
        ) {
            Some(d) => is_digest(r, d, "module:"@ + trim_end_char_text(path@, '/')),
            None => exists|q: &str, outcome: Result<Vec<TreeHit>, Error>|
                q@ == (if query_text is Some {
                    query_text->0@
                } else {
                    ""@
                }) && #[trigger] drill_outcome(
                    embedder,
                    scorer,
                    store@,
                    namespace@,
                    q,
                    Some("module"),
                    Some(path),
                    or_default(depth, 3),
                    or_default(limit, DEFAULT_LIMIT),
                    outcome,
                ) && answers(r, 200, outcome),
        },
{
    let meta = meta_namespace(namespace);
    let key = cat2("module:", trim_end_char(path, '/').as_str());
    match store.get_by_key(meta.as_str(), key.as_str()) {
        Some(doc) => digest_reply(doc, key),
        None => {
            let q = match query_text {
                Some(q) => q,
                None => "",
            };
            let outcome = drill_down(
                store,
                embedder,
                scorer,
                namespace,
                q,
                Some("module"),
                Some(path),
                number_or(depth, 3),
                number_or(limit, DEFAULT_LIMIT),
            );
            answer(200, outcome)
        },
    }
}

/// How long a digest may be, in tokens, where the request does not say.
pub const DIGEST_TOKENS: usize = 2000;

/// Builds the architecture digest of a repository or of one module.
pub fn rebuild_architecture_handler<C: ChatClient, E: Embedder>(
    store: &mut Store,
    chat: &C,
    embedder: &E,
    namespace: &str,
    module: Option<&str>,
    max_tokens: Option<usize>,
    opts: &IngestOptions,
    now: u64,
) -> (r: Reply<MemoryDoc>)
    requires
        old(store)@.wf(),
    ensures
        final(store)@.wf(),
        exists|outcome: Result<MemoryDoc, Error>|
            chat_reply_rebuilds_digest(
                chat,
                embedder,
                old(store)@,
                final(store)@,
                outcome,
                namespace@,
                module,
                or_default(max_tokens, DIGEST_TOKENS),
                *opts,
                now,
            ) && #[trigger] answers(r, 200, outcome),
{
    let outcome = rebuild_architecture_digest(
        store,
        chat,
        embedder,
        namespace,
        module,
        number_or(max_tokens, DIGEST_TOKENS),
        opts,
        now,
    );
    answer(200, outcome)
}

/// Builds the conventions of a repository.
pub fn rebuild_conventions_handler<C: ChatClient, E: Embedder>(
    store: &mut Store,
    chat: &C,
    embedder: &E,
    namespace: &str,
    opts: &IngestOptions,
    now: u64,
) -> (r: Reply<MemoryDoc>)
    requires
        old(store)@.wf(),
    ensures
        final(store)@.wf(),
        exists|outcome: Result<MemoryDoc, Error>|
            chat_reply_rebuilds_conventions(
                chat,
                embedder,
                old(store)@,
                final(store)@,
                outcome,
                namespace@,
                DIGEST_TOKENS,
                *opts,
                now,
            ) && #[trigger] answers(r, 200, outcome),
{
    let outcome = rebuild_conventions(
        store,
        chat,
        embedder,
        namespace,
        DIGEST_TOKENS,
        opts,
        now,
    );
    answer(200, outcome)
}

/// The conventions of a repository, from its meta namespace.
pub fn get_conventions_handler(store: &Store, namespace: &str) -> (r: Reply<MemoryDoc>)
    ensures
        found_or(
            r,
            first_row(store@.docs, doc_is(namespace@ + ":meta"@, "conventions"@)),
            "no conventions (run rebuild)"@,
        ),
{
    let meta = meta_namespace(namespace);
    match store.get_by_key(meta.as_str(), "conventions") {
        Some(d) => Reply { status: 200, body: Ok(d) },
        None => refuse(404, "no conventions (run rebuild)"),
    }
}

/// Law: a graph request goes as deep as it asks, two steps where it does not say, and never deeper than it may;
/// of the hops it shows every one that is sure enough, and all where it asks for no confidence.
pub proof fn law_graph_request(req: GraphReq, cap: usize, hops: Seq<Hop>, h: Hop)
    ensures
        walk_depth(req, cap) <= cap,
        req.max_depth is Some && req.max_depth->0 <= cap ==> walk_depth(req, cap) == req.max_depth->0,
        req.max_depth is None && cap >= 2 ==> walk_depth(req, cap) == 2,
        rows_where(hops, is_sure(req)).contains(h) <==> hops.contains(h) && (req.min_confidence is Some
            ==> h.confidence >= req.min_confidence->0),
{
    lemma_rows_where_contains(hops, is_sure(req));
}

/// Law: a symbol is asked for under `sym:`, whether or not the request says so.
pub proof fn law_symbol_asked_for(name: Seq<char>)
    ensures
        has_prefix(full_symbol(name), "sym:"@),
        full_symbol("sym:"@ + name) == "sym:"@ + name,
        !has_prefix(name, "sym:"@) ==> full_symbol(name) == "sym:"@ + name,
{
    let s = "sym:"@ + name;
    assert(s.subrange(0, "sym:"@.len() as int) =~= "sym:"@);
}

/// Law: what went well is answered with what came of it; what failed is answered with status 500 and the text of
/// the error, and what is not there with status 404.
pub proof fn law_answers<T>(r: Reply<T>, status: u16, v: T, e: Error)
    ensures
        answers(r, status, Ok(v)) ==> r.status == status && r.body is Ok && r.body->Ok_0 == v,
        answers(r, status, Err(e)) ==> r.status == 500 && r.body is Err && r.body->Err_0@ == error_text(e),
{
}

/// Law: a document that is asked for is answered as it is stored, and one that is not there with status 404.
pub proof fn law_found_or(r: Reply<MemoryDoc>, d: Doc, text: Seq<char>)
    ensures
        found_or(r, Some(d), text) ==> r.status == 200 && r.body is Ok && r.body->Ok_0@ == d,
        found_or(r, None, text) ==> r.status == 404 && r.body is Err && r.body->Err_0@ == text,
{
}

/// Law: a limit that a request gives is kept to; ten results are asked for where it gives none.
pub proof fn law_limit(n: usize, default: usize)
    ensures
        or_default(Some(n), default) == n,
        or_default(None, default) == default,
        or_default(None, DEFAULT_LIMIT) == 10,
{
}

} // verus!
