use engram::api::{
    authorized, forget_doc_by_key, get_architecture, get_conventions_handler, get_doc, get_doc_by_key, get_module,
    graph_callees, graph_callers, ingest_doc, list_docs, query_docs, rebuild_architecture_handler,
    rebuild_conventions_handler, recall_docs, search_code_docs, tree_query, unauthorized, GraphReq,
};
use engram::config::Config;
use engram::embed::{Embedder, HashEmbedder};
use engram::ingest::{ingest_document, IngestOptions};
use engram::jobs::worker_tick;
use engram::llm::{FakeChatClient, NullAuditSink};
use engram::model::{EdgeKind, Error, MemoryDoc, NewDoc, RawEdge, Taint};
use engram::retrieve::rank::{Score, Weights};
use engram::retrieve::{CodeOptions, CodeSignals, Scorer, TextSignals};
use engram::store::Store;
use engram::tree::TreeProcessor;

fn now() -> u64 {
    1_700_000_000_000_000
}

fn opts() -> IngestOptions {
    IngestOptions { symbol_split: true, tree_sitter: true, native_budget: None, code_graph: false, min_confidence: 60 }
}

fn code_opts() -> CodeOptions {
    CodeOptions { path_prior: true, keyword_idf: true, definition_boost: false, graph: false, min_score: 0 }
}

fn cosine_of(a: &[f32], b: &[f32]) -> f64 {
    if a.len() != b.len() || a.is_empty() {
        return 0.0;
    }
    let (mut dot, mut na, mut nb) = (0f64, 0f64, 0f64);
    for i in 0..a.len() {
        dot += a[i] as f64 * b[i] as f64;
        na += (a[i] as f64) * (a[i] as f64);
        nb += (b[i] as f64) * (b[i] as f64);
    }
    if na <= f64::EPSILON || nb <= f64::EPSILON {
        return 0.0;
    }
    (dot / (na.sqrt() * nb.sqrt())).clamp(0.0, 1.0)
}

fn floats(v: &[u32]) -> Vec<f32> {
    v.iter().map(|b| f32::from_bits(*b)).collect()
}

fn share(part: usize, whole: usize) -> f64 {
    if whole == 0 {
        0.0
    } else {
        part as f64 / whole as f64
    }
}

fn blend(w: Weights, graph: f64, vector: f64, keyword: f64) -> f64 {
    w.graph as f64 / 100.0 * graph + w.vector as f64 / 100.0 * vector + w.keyword as f64 / 100.0 * keyword
}

fn idf(candidates: usize, frequency: usize) -> f64 {
    ((candidates as f64 + 1.0) / (frequency as f64 + 1.0)).ln()
}

/// The scores with the default settings: keywords count 0.35 of a chunk of code.
struct FloatScorer;

impl Scorer for FloatScorer {
    fn cosine(&self, a: &Vec<u32>, b: &Vec<u32>) -> u64 {
        cosine_of(&floats(a), &floats(b)).to_bits()
    }

    fn text_score(&self, vector: u64, s: TextSignals) -> Score {
        let v = f64::from_bits(vector);
        let k = share(s.hits, s.terms);
        let g = share(s.graph, s.max_graph);
        Score {
            score: blend(s.weights, g, v, k).to_bits(),
            vector,
            keyword: k.to_bits(),
            graph: g.to_bits(),
        }
    }

    fn code_score(&self, vector: u64, s: &CodeSignals) -> Score {
        let v = f64::from_bits(vector);
        let idfs: Vec<f64> = s.frequencies.iter().map(|d| idf(s.candidates, *d)).collect();
        let total: f64 = idfs.iter().sum();
        let k = if total > 1e-6 {
            let found: f64 = idfs.iter().zip(&s.matched).filter(|(_, m)| **m).map(|(i, _)| i).sum();
            found / total
        } else {
            share(s.hits, s.terms)
        };
        let g = share(s.graph, s.max_graph);
        let base = match s.weights {
            Some(w) => blend(w, g, v, k),
            None => 0.65 * v + 0.35 * k,
        };
        let score = base * (s.prior as f64 / 100.0);
        Score {
            score: score.to_bits(),
            vector,
            keyword: k.to_bits(),
            graph: g.to_bits(),
        }
    }

    fn is_rare(&self, candidates: usize, frequency: usize) -> bool {
        idf(candidates, frequency) >= 3.0
    }

    fn freshness(&self, updated_at: u64, now: u64) -> u64 {
        let age_hours = now.saturating_sub(updated_at) as f64 / 1e6 / 3600.0;
        (1.0 / (1.0 + age_hours / 24.0)).clamp(0.0, 1.0).to_bits()
    }
}

fn doc(key: &str, content: &str, author: &str, meta: Option<&str>) -> NewDoc {
    NewDoc {
        key: key.into(),
        title: key.into(),
        content: content.into(),
        author: author.into(),
        taint: Taint::Internal,
        meta: meta.map(|m| m.to_string()),
    }
}

fn file(key: &str, content: &str) -> NewDoc {
    doc(key, content, "code", Some("{\"kind\":\"file\"}"))
}

fn drain(store: &mut Store, cfg: Config) {
    let processor = TreeProcessor {
        embedder: HashEmbedder::new(64),
        chat: FakeChatClient::ok("S"),
        audit: NullAuditSink,
        cfg,
    };
    while worker_tick(store, &processor, 5, now()) {}
}

#[test]
fn tree_endpoint_drills_global() {
    let mut store = Store::new();
    let e = HashEmbedder::new(64);
    for (k, c) in [("d1", "rust memory service"), ("d2", "bananas grow on trees")] {
        ingest_document(&mut store, &e, "alice", &doc(k, c, "a", None), &opts(), now()).unwrap();
    }
    drain(&mut store, Config::from_vars(|_| None));

    let resp = tree_query(&store, &e, &FloatScorer, "alice", "rust memory", None, None, None, None);
    assert_eq!(resp.status, 200);
    let hits = resp.body.unwrap();
    assert!(!hits.is_empty());
    assert!(hits[0].body.contains("rust"));
}

#[test]
fn architecture_and_module_endpoints_return_digests() {
    let mut store = Store::new();
    let e = HashEmbedder::new(64);
    for (k, c) in [
        ("src/state/search.rs", "fn bm25_score() {}\nfn idf_term() {}"),
        ("src/state/vector.rs", "fn cosine_sim() {}\nfn dot_prod() {}"),
    ] {
        ingest_document(&mut store, &e, "repo:demo", &file(k, c), &opts(), now()).unwrap();
    }
    let mut cfg = Config::from_vars(|_| None);
    cfg.consolidate_code = true;
    drain(&mut store, cfg);

    // get_architecture (no query) → the global digest.
    let resp = get_architecture(&store, &e, &FloatScorer, "repo:demo", None, None, None);
    assert_eq!(resp.status, 200);
    assert!(!resp.body.unwrap().is_empty(), "architecture digest should be non-empty");

    // get_module for the src/state directory.
    let resp = get_module(&store, &e, &FloatScorer, "repo:demo", "src/state", None, None, None);
    assert_eq!(resp.status, 200);
    let m = resp.body.unwrap();
    assert!(!m.is_empty(), "module digest for src/state should be non-empty");
    assert!(m.iter().all(|h| h.tree_kind == "module"));
}

#[test]
fn cached_digests_are_served_before_the_trees() {
    let mut store = Store::new();
    let e = HashEmbedder::new(64);
    ingest_document(&mut store, &e, "repo:demo", &file("src/a.rs", "fn a() {}"), &opts(), now()).unwrap();
    let chat = FakeChatClient::ok("one pass over the sources");
    let built = rebuild_architecture_handler(&mut store, &chat, &e, "repo:demo", None, None, &opts(), now());
    assert_eq!(built.status, 200);
    let hits = get_architecture(&store, &e, &FloatScorer, "repo:demo", Some("x"), None, None)
        .body
        .unwrap();
    assert_eq!(hits.len(), 1);
    assert_eq!(hits[0].tree_kind, "digest");
    assert_eq!(hits[0].tree_key, "architecture");
    assert_eq!(hits[0].label.as_deref(), Some("architecture"));
    assert_eq!(hits[0].level, 0);
    assert_eq!(hits[0].body, "one pass over the sources");
    assert_eq!(f64::from_bits(hits[0].score), 1.0);
    let id = built.body.unwrap().document_id;
    assert_eq!(hits[0].node_id, id);
    assert_eq!(hits[0].doc_id, Some(id));

    // A module is found whether or not its path ends in a slash.
    rebuild_architecture_handler(&mut store, &chat, &e, "repo:demo", Some("src/"), None, &opts(), now());
    let m = get_module(&store, &e, &FloatScorer, "repo:demo", "src", None, None, None).body.unwrap();
    assert_eq!(m[0].tree_key, "module:src");
}

#[test]
fn conventions_rebuild_and_get() {
    let mut store = Store::new();
    let e = HashEmbedder::new(64);
    ingest_document(&mut store, &e, "repo:demo", &file("rustfmt.toml", "max_width = 100\n"), &opts(), now()).unwrap();
    let chat = FakeChatClient::ok("- use rustfmt for formatting (evidence: rustfmt.toml)");

    // Before rebuild → 404.
    let resp = get_conventions_handler(&store, "repo:demo");
    assert_eq!(resp.status, 404);
    assert_eq!(resp.body.unwrap_err(), "no conventions (run rebuild)");
    // Rebuild.
    let resp = rebuild_conventions_handler(&mut store, &chat, &e, "repo:demo", &opts(), now());
    assert_eq!(resp.status, 200);
    // Now GET returns the conventions doc.
    let resp = get_conventions_handler(&store, "repo:demo");
    assert_eq!(resp.status, 200);
    assert!(resp.body.unwrap().content.contains("rustfmt"));
}

#[test]
fn code_search_endpoint_returns_path_line() {
    let mut store = Store::new();
    let e = HashEmbedder::new(64);
    for (k, c) in [
        (
            "store.rs",
            "fn acquire_write_lock(&self) {\n    let guard = self.write.lock();\n    // single writer mutex connection\n}",
        ),
        (
            "embed.rs",
            "fn embed(text: &str) -> Vec<f32> {\n    hash_tokens_into_vector(text)\n}",
        ),
    ] {
        ingest_document(&mut store, &e, "repo:demo", &file(k, c), &opts(), now()).unwrap();
    }
    let resp = search_code_docs(
        &store,
        &e,
        &FloatScorer,
        "repo:demo",
        "acquire write lock mutex",
        None,
        code_opts(),
    );
    assert_eq!(resp.status, 200);
    let hits = resp.body.unwrap();
    assert!(!hits.is_empty(), "expected at least one code hit");
    // Top hit is the file we targeted, and line ranges survive the round-trip.
    assert_eq!(hits[0].path, "store.rs");
    assert!(hits[0].line_start.is_some());
    assert!(hits[0].line_end.is_some());
}

#[test]
fn ingest_then_fetch() {
    let mut store = Store::new();
    let e = HashEmbedder::new(64);
    let new = NewDoc {
        key: "k1".into(),
        title: "T".into(),
        content: "Hello".into(),
        author: "alice".into(),
        taint: Taint::Internal,
        meta: None,
    };
    let created = ingest_doc(&mut store, &e, "alice", &new, &opts(), now());
    assert_eq!(created.status, 201);
    let saved = created.body.unwrap();
    assert_eq!(saved.namespace, "alice");

    let got = get_doc(&store, "alice", &saved.document_id);
    assert_eq!(got.status, 200);
    assert_eq!(got.body.unwrap().content, "Hello");

    let list = list_docs(&store, "alice");
    assert_eq!(list.body.unwrap().len(), 1);

    // unknown id → 404
    let miss = get_doc(&store, "alice", "nope");
    assert_eq!(miss.status, 404);
    assert_eq!(miss.body.unwrap_err(), "not found");
}

#[test]
fn auth_rejects_and_accepts() {
    // no token → 401
    assert!(!authorized(None, "secret"));
    let refused = unauthorized::<MemoryDoc>();
    assert_eq!(refused.status, 401);
    assert_eq!(refused.body.unwrap_err(), "unauthorized");
    // wrong token → 401
    assert!(!authorized(Some("Bearer nope"), "secret"));
    assert!(!authorized(Some("bearer secret"), "secret"));
    assert!(!authorized(Some("secret"), "secret"));
    assert!(!authorized(Some("Bearer secret "), "secret"));
    // right token → not 401
    assert!(authorized(Some("Bearer secret"), "secret"));
}

#[test]
fn query_endpoint_ranks() {
    let mut store = Store::new();
    let e = HashEmbedder::new(64);
    for (k, c) in [("d1", "rust memory service"), ("d2", "bananas and trees")] {
        assert_eq!(ingest_doc(&mut store, &e, "alice", &doc(k, c, "a", None), &opts(), now()).status, 201);
    }
    let resp = query_docs(&store, &e, &FloatScorer, "alice", "rust memory", None);
    assert_eq!(resp.status, 200);
    let hits = resp.body.unwrap();
    assert_eq!(hits.len(), 2);
    assert_eq!(hits[0].doc.key, "d1");
    assert!(f64::from_bits(hits[0].score) >= f64::from_bits(hits[1].score));
}

#[test]
fn query_endpoint_graph_boost() {
    let mut store = Store::new();
    let e = HashEmbedder::new(64);
    for (k, c) in [("d1", "weekly release ping @carol"), ("d2", "weekly release notes")] {
        let r = ingest_doc(&mut store, &e, "alice", &doc(k, c, "a", None), &opts(), now());
        assert_eq!(r.status, 201);
    }
    let hits = query_docs(&store, &e, &FloatScorer, "alice", "release @carol", None).body.unwrap();
    assert_eq!(hits[0].doc.key, "d1");
    assert!(f64::from_bits(hits[0].graph) > 0.0);
}

#[test]
fn meta_and_by_key_get_delete() {
    let mut store = Store::new();
    let e = HashEmbedder::new(64);
    let meta = |d: &MemoryDoc| -> serde_json::Value { serde_json::from_str(d.meta.as_ref().unwrap()).unwrap() };
    // POST a doc with meta
    let new = NewDoc {
        key: "m1".into(),
        title: "t".into(),
        content: "alpha".into(),
        author: "op".into(),
        taint: Taint::Internal,
        meta: Some("{\"category\":\"fact\",\"importance\":0.9}".into()),
    };
    let r = ingest_doc(&mut store, &e, "alice", &new, &opts(), now());
    assert_eq!(r.status, 201);
    assert_eq!(meta(&r.body.unwrap())["category"], "fact");

    // by-key GET returns the meta
    let g = get_doc_by_key(&store, "alice", "m1");
    assert_eq!(g.status, 200);
    assert_eq!(meta(&g.body.unwrap())["importance"], 0.9);

    // query also carries meta through
    let hits = query_docs(&store, &e, &FloatScorer, "alice", "alpha", None).body.unwrap();
    assert_eq!(meta(&hits[0].doc)["category"], "fact");

    // DELETE by-key → 204, then gone
    let d = forget_doc_by_key(&mut store, "alice", "m1");
    assert_eq!(d.status, 204);
    let g2 = get_doc_by_key(&store, "alice", "m1");
    assert_eq!(g2.status, 404);
    assert_eq!(forget_doc_by_key(&mut store, "alice", "m1").status, 404);
}

#[test]
fn recall_endpoint_recent_first() {
    let mut store = Store::new();
    let e = HashEmbedder::new(64);
    for (i, (k, c)) in [("d1", "first"), ("d2", "second")].into_iter().enumerate() {
        ingest_doc(&mut store, &e, "alice", &doc(k, c, "a", None), &opts(), now() + i as u64);
    }
    let hits = recall_docs(&store, &FloatScorer, "alice", Some(10), now() + 1_000_000).body.unwrap();
    assert_eq!(hits[0].doc.key, "d2");
}

#[test]
fn an_embedder_that_fails_is_a_server_error() {
    struct Broken;
    impl Embedder for Broken {
        fn embed(&self, _text: &str) -> Result<Vec<u32>, Error> {
            Err(Error::Embed("down".into()))
        }
        fn embed_batch(&self, _batch: &Vec<String>) -> Result<Vec<Vec<u32>>, Error> {
            Err(Error::Embed("down".into()))
        }
        fn signature(&self) -> String {
            "broken".into()
        }
        fn dim(&self) -> usize {
            1
        }
    }
    let mut store = Store::new();
    let r = ingest_doc(&mut store, &Broken, "alice", &doc("k", "text", "a", None), &opts(), now());
    assert_eq!(r.status, 500);
    assert_eq!(r.body.unwrap_err(), "embed error: all 1 chunks failed to embed for k");
    assert!(store.docs().is_empty());
    let q = query_docs(&store, &Broken, &FloatScorer, "alice", "text", None);
    assert_eq!(q.status, 500);
    assert_eq!(q.body.unwrap_err(), "embed error: down");
}

/// A graph of three files: top calls middle, middle calls leaf.
#[test]
fn graph_callers_and_callees_end_to_end() {
    let mut store = Store::new();
    let e = HashEmbedder::new(64);
    let sig = e.signature();

    // Helper: ingest one code file with its defining sym entity + outbound edges.
    let mut seed = |key: &str, content: &str, def_sym: &str, edges: Vec<RawEdge>| {
        let emb_vec = e.embed(content).unwrap();
        store
            .commit_ingest(
                "ns",
                &file(key, content),
                &vec![content.to_string()],
                &vec![emb_vec],
                &vec![vec![def_sym.to_string()]],
                &vec![Some((1, 1))],
                &edges,
                &sig,
                now(),
            )
            .unwrap()
    };
    let calls = |dst: &str| {
        vec![RawEdge {
            dst_sym: dst.into(),
            edge_kind: EdgeKind::Calls,
            src_line: Some(1),
            confidence: 90,
        }]
    };

    // leaf.rs defines `leaf`, calls nothing.
    let leaf_doc = seed("src/leaf.rs", "fn leaf() {}", "sym:leaf", vec![]);
    // middle.rs defines `middle`, calls `leaf` (cross-file edge → resolves to leaf.rs).
    seed("src/middle.rs", "fn middle() { leaf(); }", "sym:middle", calls("sym:leaf"));
    // top.rs defines `top`, calls `middle` (so top is a caller-of-caller of leaf).
    seed("src/top.rs", "fn top() { middle(); }", "sym:top", calls("sym:middle"));

    let req = |sym: Option<&str>, path: Option<&str>, limit: Option<usize>, min: Option<u32>| GraphReq {
        sym: sym.map(|s| s.to_string()),
        path: path.map(|s| s.to_string()),
        max_depth: Some(2),
        limit,
        min_confidence: min,
    };

    // callers(sym:leaf, depth=2): direct caller middle.rs (depth 1) plus the cross-file
    // caller-of-caller top.rs (depth 2), reached by expanding middle.rs's own sym: defs.
    let resp = graph_callers(&store, "ns", &req(Some("sym:leaf"), None, Some(10), None), 4);
    assert_eq!(resp.status, 200);
    let hops = resp.body.unwrap();
    let paths: Vec<&str> = hops.iter().map(|h| h.path.as_str()).collect();
    assert!(paths.contains(&"src/middle.rs"), "expected direct caller src/middle.rs; got {paths:?}");
    assert!(paths.contains(&"src/top.rs"), "expected cross-file caller-of-caller src/top.rs; got {paths:?}");
    // The direct caller hop is at depth 1, the caller-of-caller at depth 2.
    let middle_hop = hops.iter().find(|h| h.path == "src/middle.rs").unwrap();
    assert_eq!(middle_hop.depth, 1);
    assert_eq!(middle_hop.edge_kind, "CALLS");
    let top_hop = hops.iter().find(|h| h.path == "src/top.rs").unwrap();
    assert_eq!(top_hop.depth, 2);

    // min_confidence filter is post-BFS: 0.95 drops the 0.9 edges → empty.
    let resp = graph_callers(&store, "ns", &req(Some("sym:leaf"), None, None, Some(95)), 4);
    assert_eq!(resp.status, 200);
    assert!(resp.body.unwrap().is_empty(), "min_confidence 0.95 should drop the 0.9 caller edges");

    // BARE sym name (no "sym:" prefix) must be normalized server-side and resolve to the
    // same callers as the prefixed form.
    let resp = graph_callers(&store, "ns", &req(Some("leaf"), None, Some(10), None), 4);
    assert_eq!(resp.status, 200);
    let bare_paths: Vec<String> = resp.body.unwrap().into_iter().map(|h| h.path).collect();
    assert!(bare_paths.contains(&"src/middle.rs".to_string()), "got {bare_paths:?}");

    // The service's own depth limits the walk.
    let shallow = graph_callers(&store, "ns", &req(Some("leaf"), None, Some(10), None), 1).body.unwrap();
    assert_eq!(shallow.len(), 1);

    // missing `sym` → 400.
    let resp = graph_callers(&store, "ns", &req(None, None, None, None), 4);
    assert_eq!(resp.status, 400);
    assert_eq!(resp.body.unwrap_err(), "sym is required");

    // callees(src/middle.rs): outbound CALLS to sym:leaf, resolved cross-file to leaf.rs's
    // document_id.
    let resp = graph_callees(&store, "ns", &req(None, Some("src/middle.rs"), Some(10), None), 4);
    assert_eq!(resp.status, 200);
    let hops = resp.body.unwrap();
    let leaf_hop = hops.iter().find(|h| h.sym == "sym:leaf").expect("expected callee sym:leaf");
    assert_eq!(leaf_hop.path, "src/leaf.rs", "callee should resolve cross-file to leaf.rs");
    assert_eq!(leaf_hop.document_id, leaf_doc.document_id);

    // missing `path` → 400.
    let resp = graph_callees(&store, "ns", &req(None, None, None, None), 4);
    assert_eq!(resp.status, 400);
    assert_eq!(resp.body.unwrap_err(), "path is required");
}
