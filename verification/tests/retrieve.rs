use engram::config::Config;
use engram::embed::{Embedder, HashEmbedder};
use engram::ingest::{ingest_document, IngestOptions};
use engram::llm::{FakeChatClient, NullAuditSink};
use engram::model::{NewDoc, Taint};
use engram::retrieve::rank::{Score, Weights};
use engram::retrieve::{
    drill_down, path_prior, query, query_code_entities, query_terms, recall, search_code, CodeOptions, CodeSignals,
    Scorer, TextSignals,
};
use engram::store::Store;
use engram::tree::{append_leaf, process_doc, TreeCtx};

fn now() -> u64 {
    1_700_000_000_000_000
}

fn opts() -> IngestOptions {
    IngestOptions { symbol_split: true, tree_sitter: true, native_budget: None, code_graph: false, min_confidence: 60 }
}

fn code_opts() -> CodeOptions {
    CodeOptions { path_prior: true, keyword_idf: true, definition_boost: false, graph: false, min_score: 0 }
}

fn float(bits: u64) -> f64 {
    f64::from_bits(bits)
}

fn cosine_of(a: &[f32], b: &[f32]) -> f64 {
    if a.len() != b.len() || a.is_empty() {
        return 0.0;
    }
    let (mut dot, mut na, mut nb) = (0f64, 0f64, 0f64);
    for i in 0..a.len() {
        dot += a[i] as f64 * b[i] as f64;
        na += (a[i] as f64) * (a[i] as f64);
        nb += (b[i] as f64) * (b[i] as f64);
    }
    if na <= f64::EPSILON || nb <= f64::EPSILON {
        return 0.0;
    }
    (dot / (na.sqrt() * nb.sqrt())).clamp(0.0, 1.0)
}

fn floats(v: &[u32]) -> Vec<f32> {
    v.iter().map(|b| f32::from_bits(*b)).collect()
}

fn share(part: usize, whole: usize) -> f64 {
    if whole == 0 {
        0.0
    } else {
        part as f64 / whole as f64
    }
}

fn blend(w: Weights, graph: f64, vector: f64, keyword: f64) -> f64 {
    w.graph as f64 / 100.0 * graph + w.vector as f64 / 100.0 * vector + w.keyword as f64 / 100.0 * keyword
}

fn idf(candidates: usize, frequency: usize) -> f64 {
    ((candidates as f64 + 1.0) / (frequency as f64 + 1.0)).ln()
}

/// The scores with the default settings: keywords count 0.35 of a chunk of code.
struct FloatScorer;

impl Scorer for FloatScorer {
    fn cosine(&self, a: &Vec<u32>, b: &Vec<u32>) -> u64 {
        cosine_of(&floats(a), &floats(b)).to_bits()
    }

    fn text_score(&self, vector: u64, s: TextSignals) -> Score {
        let v = f64::from_bits(vector);
        let k = share(s.hits, s.terms);
        let g = share(s.graph, s.max_graph);
        Score {
            score: blend(s.weights, g, v, k).to_bits(),
            vector,
            keyword: k.to_bits(),
            graph: g.to_bits(),
        }
    }

    fn code_score(&self, vector: u64, s: &CodeSignals) -> Score {
        let v = f64::from_bits(vector);
        let idfs: Vec<f64> = s.frequencies.iter().map(|d| idf(s.candidates, *d)).collect();
        let total: f64 = idfs.iter().sum();
        let k = if total > 1e-6 {
            let found: f64 = idfs.iter().zip(&s.matched).filter(|(_, m)| **m).map(|(i, _)| i).sum();
            found / total
        } else {
            share(s.hits, s.terms)
        };
        let g = share(s.graph, s.max_graph);
        let base = match s.weights {
            Some(w) => blend(w, g, v, k),
            None => 0.65 * v + 0.35 * k,
        };
        let score = base * (s.prior as f64 / 100.0);
        Score {
            score: score.to_bits(),
            vector,
            keyword: k.to_bits(),
            graph: g.to_bits(),
        }
    }

    fn is_rare(&self, candidates: usize, frequency: usize) -> bool {
        idf(candidates, frequency) >= 3.0
    }

    fn freshness(&self, updated_at: u64, now: u64) -> u64 {
        let age_hours = now.saturating_sub(updated_at) as f64 / 1e6 / 3600.0;
        (1.0 / (1.0 + age_hours / 24.0)).clamp(0.0, 1.0).to_bits()
    }
}


#[test]
fn query_terms_keeps_distinct_specific_tokens() {
    let t = query_terms("How are vectors serialized to base64 to base64?");
    assert!(t.contains(&"base64".to_string()));
    assert!(t.contains(&"vectors".to_string()));
    assert_eq!(t.iter().filter(|x| *x == "base64").count(), 1); // deduped
    assert!(!t.contains(&"to".to_string())); // 2-char tokens dropped
}

#[test]
fn query_code_entities_preserve_case_and_drop_short() {
    let e = query_code_entities("fields of a CompressedObservation record and snake_case_id");
    assert!(e.contains(&"sym:CompressedObservation".to_string())); // case preserved
    assert!(e.contains(&"sym:snake_case_id".to_string())); // underscores kept
    assert!(!e.iter().any(|x| x == "sym:of")); // 2-char dropped
}

fn seed() -> (Store, HashEmbedder) {
    let mut store = Store::new();
    let e = HashEmbedder::new(64);
    let mk = |k: &str, content: &str| NewDoc {
        key: k.into(),
        title: k.into(),
        content: content.into(),
        author: "a".into(),
        taint: Taint::Internal,
        meta: None,
    };
    for (i, (k, c)) in [
        ("d1", "rust memory service with sqlite"),
        ("d2", "bananas grow on tropical trees"),
    ]
    .into_iter()
    .enumerate()
    {
        let doc = store.insert_doc("alice", &mk(k, c), now() + i as u64).unwrap();
        let v = e.embed(c).unwrap();
        store
            .upsert_chunk(
                "alice",
                &doc.document_id,
                &doc.document_id,
                c,
                &v,
                &e.signature(),
                now(),
            );
    }
    (store, e)
}

#[test]
fn query_ranks_relevant_first() {
    let (store, e) = seed();
    let hits = query(&store, &e, &FloatScorer, "alice", "rust memory sqlite", 10).unwrap();
    assert_eq!(hits.len(), 2);
    assert_eq!(hits[0].doc.key, "d1");
    assert!(float(hits[0].score) > float(hits[1].score));
}

#[test]
fn recall_orders_by_recency() {
    let (store, _e) = seed();
    let hits = recall(&store, &FloatScorer, "alice", 10, now() + 60_000_000);
    assert_eq!(hits.len(), 2);
    assert_eq!(hits[0].doc.key, "d2"); // inserted last → freshest
}

#[test]
fn drill_down_ranks_leaves_by_cosine() {
    let mut store = Store::new();
    let e = HashEmbedder::new(64);
    for (k, c) in [
        ("d1", "rust memory service"),
        ("d2", "bananas grow on trees"),
    ] {
        let new = NewDoc {
            key: k.into(),
            title: k.into(),
            content: c.into(),
            author: "a".into(),
            taint: Taint::Internal,
            meta: None,
        };
        ingest_document(&mut store, &e, "alice", &new, &opts(), now()).unwrap();
    }
    // Build the global tree (default gates → leaves only) by draining the queue.
    let chat = FakeChatClient::ok("S");
    let audit = NullAuditSink;
    let cfg = Config::from_vars(|_| None);
    let ctx = TreeCtx {
        embedder: &e,
        chat: &chat,
        audit: &audit,
        cfg: &cfg,
    };
    while let Some(job) = store.claim_job(now()) {
        process_doc(&mut store, &ctx, &job.namespace, &job.document_id, now()).unwrap();
        store.complete_job(&job.job_id, now());
    }
    let hits = drill_down(&store, &e, &FloatScorer, "alice", "rust memory", None, None, 3, 10).unwrap();
    assert!(!hits.is_empty());
    assert!(hits[0].body.contains("rust"));
    assert!(float(hits[0].score) >= float(hits.last().unwrap().score));
}

#[test]
fn drill_down_surfaces_fresh_leaves_after_consolidation() {
    let mut store = Store::new();
    let e = HashEmbedder::new(32);
    let chat = FakeChatClient::ok("summary");
    let audit = NullAuditSink;
    // Tiny gates → consolidate the global tree into a sealed summary.
    let mut cfg = Config::from_vars(|_| None);
    cfg.seal_input_token_budget = 1;
    cfg.seal_fanout = 2;
    cfg.seal_flush_age_micros = 1_000_000_000_000_000_000;
    let ctx = TreeCtx {
        embedder: &e,
        chat: &chat,
        audit: &audit,
        cfg: &cfg,
    };
    let emb = e.embed("alpha consolidated").unwrap();
    append_leaf(&mut store,
        &ctx,
        "alice",
        "global",
        "global",
        "alpha consolidated",
        "d1",
        &emb, now())
    .unwrap();
    append_leaf(&mut store,
        &ctx,
        "alice",
        "global",
        "global",
        "alpha again here",
        "d2",
        &emb, now())
    .unwrap();
    assert!(store.tree_top_nodes("alice", "global", "global")[0].level >= 1); // sealed

    // A fresh leaf added with default gates stays unsealed at L0.
    let cfg2 = Config::from_vars(|_| None);
    let ctx2 = TreeCtx {
        embedder: &e,
        chat: &chat,
        audit: &audit,
        cfg: &cfg2,
    };
    let emb2 = e.embed("fresh zebra leaf").unwrap();
    append_leaf(&mut store,
        &ctx2,
        "alice",
        "global",
        "global",
        "fresh zebra leaf",
        "d3",
        &emb2, now())
    .unwrap();

    // drill-down must surface the fresh leaf despite the consolidated summary.
    let hits = drill_down(&store, &e, &FloatScorer, "alice", "fresh zebra", None, None, 5, 10).unwrap();
    assert!(hits.iter().any(|h| h.body.contains("fresh zebra")));
}

#[test]
fn search_code_returns_chunk_level_hits_with_paths_and_lines() {
    let mut store = Store::new();
    let e = HashEmbedder::new(64);
    let mk = |k: &str, c: &str| NewDoc {
        key: k.into(),
        title: k.into(),
        content: c.into(),
        author: "code".into(),
        taint: Taint::Internal,
        meta: Some("{\"kind\":\"file\"}".into()),
    };
    ingest_document(&mut store, &e, "repo:x", &mk("src/auth.rs", "fn login() {}\nfn logout() {}"), &opts(), now()).unwrap();
    ingest_document(&mut store, &e, "repo:x", &mk("src/math.rs", "fn add() {}\nfn mul() {}"), &opts(), now()).unwrap();

    let hits = search_code(&store, &e, &FloatScorer, "repo:x", "login", 10, code_opts()).unwrap();
    assert!(!hits.is_empty());
    assert_eq!(hits[0].path, "src/auth.rs");
    assert!(hits[0].snippet.contains("login"));
    assert_eq!(hits[0].line_start, Some(1));
    assert!(float(hits[0].score) >= float(hits.last().unwrap().score));
}

#[test]
fn path_prior_classifies_paths() {
    assert_eq!(path_prior("src/foo.rs"), 100);
    assert_eq!(path_prior("crates/engram/src/main.rs"), 100);
    assert!(path_prior("README.md") < 100);
    assert!(path_prior("docs/guide.md") < 100);
    assert!(path_prior("test/foo.test.ts") < 100);
    assert!(path_prior("src/foo.test.ts") < 100);
    assert!(path_prior(".env.example") < 100);
    assert!(path_prior("examples/demo.ts") < 100);
    assert!(path_prior("LICENSE") < 100);
    assert!(path_prior("packages/mcp/LICENSE") < 100);
}

#[test]
fn search_code_down_weights_docs_below_source() {
    let mut store = Store::new();
    let e = HashEmbedder::new(64);
    let mk = |k: &str, c: &str| NewDoc {
        key: k.into(),
        title: k.into(),
        content: c.into(),
        author: "code".into(),
        taint: Taint::Internal,
        meta: Some("{\"kind\":\"file\"}".into()),
    };
    // Identical content in a doc and a source file: equal base score, so the prior decides.
    let body = "alpha beta gamma delta epsilon";
    ingest_document(&mut store, &e, "repo:x", &mk("docs/thing.md", body), &opts(), now()).unwrap();
    ingest_document(&mut store, &e, "repo:x", &mk("src/thing.rs", body), &opts(), now()).unwrap();
    let hits = search_code(&store, &e, &FloatScorer, "repo:x", body, 10, code_opts()).unwrap();
    assert_eq!(
        hits[0].path, "src/thing.rs",
        "source should outrank identical-content .md"
    );
    let src = hits
        .iter()
        .find(|h| h.path == "src/thing.rs")
        .map(|h| float(h.score))
        .unwrap();
    let md = hits
        .iter()
        .find(|h| h.path == "docs/thing.md")
        .map(|h| float(h.score))
        .unwrap();
    assert!(
        md < src,
        "doc score {md} should be below source score {src}"
    );
}

#[test]
fn query_uses_graph_signal_for_entities() {
    let mut store = Store::new();
    let e = HashEmbedder::new(64);
    for (k, c) in [
        ("d1", "release notes ping @bob"),
        ("d2", "release notes only"),
    ] {
        let new = NewDoc {
            key: k.into(),
            title: k.into(),
            content: c.into(),
            author: "a".into(),
            taint: Taint::Internal,
            meta: None,
        };
        ingest_document(&mut store, &e, "alice", &new, &opts(), now()).unwrap();
    }
    let hits = query(&store, &e, &FloatScorer, "alice", "release from @bob", 10).unwrap();
    assert_eq!(hits.len(), 2);
    assert_eq!(hits[0].doc.key, "d1");
    assert!(float(hits[0].graph) > 0.0);
}
