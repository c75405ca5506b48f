use engram::config::Config;
use engram::embed::{Embedder, HashEmbedder};
use engram::ingest::{ingest_document, IngestOptions};
use engram::jobs::worker_tick;
use engram::llm::{FakeChatClient, NullAuditSink};
use engram::model::{NewDoc, Taint};
use engram::store::Store;
use engram::tree::{append_leaf, process_doc, sweep_stale, TreeCtx, TreeProcessor};

fn now() -> u64 {
    1_700_000_000_000_000
}

fn opts() -> IngestOptions {
    IngestOptions { symbol_split: true, tree_sitter: true, native_budget: None, code_graph: false, min_confidence: 60 }
}


fn small_cfg() -> Config {
    let mut c = Config::from_vars(|_| None);
    c.seal_input_token_budget = 1; // any leaf seals L0
    c.seal_fanout = 2; // two L1 nodes → seal L2
    c.seal_flush_age_micros = 1_000_000_000_000_000_000; // never stale in this test
    c
}

#[test]
fn cascade_seals_and_summarizes() {
    let mut store = Store::new();
    let e = HashEmbedder::new(8);
    let chat = FakeChatClient::ok("S");
    let audit = NullAuditSink;
    let cfg = small_cfg();
    let ctx = TreeCtx {
        embedder: &e,
        chat: &chat,
        audit: &audit,
        cfg: &cfg,
    };
    let emb = e.embed("anything").unwrap();

    append_leaf(&mut store,
        &ctx,
        "alice",
        "source",
        "auth",
        "first leaf body",
        "d1",
        &emb, now())
    .unwrap();
    // budget=1 → L0 sealed; one L1 node (<fanout) → stop
    assert_eq!(
        store.tree_top_nodes("alice", "source", "auth")[0].level,
        1
    );

    append_leaf(&mut store,
        &ctx,
        "alice",
        "source",
        "auth",
        "second leaf body",
        "d2",
        &emb, now())
    .unwrap();
    let top = store.tree_top_nodes("alice", "source", "auth");
    assert_eq!(top.len(), 1);
    assert_eq!(top[0].level, 2); // two L1 nodes → sealed to L2
    assert_eq!(top[0].body, "S"); // FakeChat summary
    assert_eq!(top[0].label.as_deref(), Some("S")); // source label = summary first line
    assert_eq!(store.children_of(&top[0].node_id).len(), 2);
}

#[test]
fn summarize_falls_back_when_llm_errors() {
    let mut store = Store::new();
    let e = HashEmbedder::new(8);
    let chat = FakeChatClient::failing();
    let audit = NullAuditSink;
    let cfg = small_cfg();
    let ctx = TreeCtx {
        embedder: &e,
        chat: &chat,
        audit: &audit,
        cfg: &cfg,
    };
    let emb = e.embed("x").unwrap();
    append_leaf(&mut store,
        &ctx,
        "alice",
        "global",
        "global",
        "alpha beta",
        "d1",
        &emb, now())
    .unwrap();
    let top = store.tree_top_nodes("alice", "global", "global");
    assert_eq!(top[0].level, 1);
    assert!(top[0].body.contains("alpha beta")); // deterministic fallback (concat of child bodies)
}

#[test]
fn process_doc_fans_out_to_source_global_topic() {
    let mut store = Store::new();
    let e = HashEmbedder::new(16);
    let new = NewDoc {
        key: "k".into(),
        title: "t".into(),
        content: "ping @bob about rust".into(),
        author: "agentX".into(),
        taint: Taint::Internal,
        meta: None,
    };
    ingest_document(&mut store, &e, "alice", &new, &opts(), now()).unwrap();
    let job = store.claim_job(now()).unwrap();

    let chat = FakeChatClient::ok("S");
    let audit = NullAuditSink;
    let cfg = Config::from_vars(|_| None); // big gates → leaves only
    let ctx = TreeCtx {
        embedder: &e,
        chat: &chat,
        audit: &audit,
        cfg: &cfg,
    };
    process_doc(&mut store, &ctx, &job.namespace, &job.document_id, now()).unwrap();

    assert_eq!(
        store
            .unsealed_nodes("alice", "source", "agentX", 0)
            .len(),
        1
    );
    assert_eq!(
        store
            .unsealed_nodes("alice", "global", "global", 0)
            .len(),
        1
    );
    assert_eq!(
        store
            .unsealed_nodes("alice", "topic", "handle:bob", 0)
            .len(),
        1
    );
}

#[test]
fn consolidate_code_gate_skips_code_docs_by_default() {
    let mut store = Store::new();
    let e = HashEmbedder::new(16);
    let new = NewDoc {
        key: "src/x.rs".into(),
        title: "src/x.rs".into(),
        content: "fn alpha() {}\nfn beta() {}".into(),
        author: "code".into(),
        taint: Taint::Internal,
        meta: Some("{\"kind\":\"file\"}".into()),
    };
    ingest_document(&mut store, &e, "repo:x", &new, &opts(), now()).unwrap();
    let job = store.claim_job(now()).unwrap();
    let chat = FakeChatClient::ok("S");
    let audit = NullAuditSink;

    // Default consolidate_code = false → the code doc is skipped (no global leaves).
    let cfg_off = Config::from_vars(|_| None);
    let ctx_off = TreeCtx {
        embedder: &e,
        chat: &chat,
        audit: &audit,
        cfg: &cfg_off,
    };
    process_doc(&mut store, &ctx_off, &job.namespace, &job.document_id, now()).unwrap();
    assert_eq!(
        store
            .unsealed_nodes("repo:x", "global", "global", 0)
            .len(),
        0,
        "code consolidation must be gated off by default"
    );

    // consolidate_code = true → leaves are created.
    let mut cfg_on = Config::from_vars(|_| None);
    cfg_on.consolidate_code = true;
    let ctx_on = TreeCtx {
        embedder: &e,
        chat: &chat,
        audit: &audit,
        cfg: &cfg_on,
    };
    process_doc(&mut store, &ctx_on, &job.namespace, &job.document_id, now()).unwrap();
    assert!(
        !store
            .unsealed_nodes("repo:x", "global", "global", 0)
            .is_empty(),
        "code consolidation should run when enabled"
    );
}

#[test]
fn consolidate_code_gate_off_cleans_stale_leaves_on_reingest() {
    let mut store = Store::new();
    let e = HashEmbedder::new(16);
    let new = NewDoc {
        key: "src/y.rs".into(),
        title: "src/y.rs".into(),
        content: "fn gamma() {}".into(),
        author: "code".into(),
        taint: Taint::Internal,
        meta: Some("{\"kind\":\"file\"}".into()),
    };
    ingest_document(&mut store, &e, "repo:y", &new, &opts(), now()).unwrap();
    let job = store.claim_job(now()).unwrap();
    let chat = FakeChatClient::ok("S");
    let audit = NullAuditSink;

    // consolidate_code = true → leaves exist.
    let mut cfg_on = Config::from_vars(|_| None);
    cfg_on.consolidate_code = true;
    let ctx_on = TreeCtx {
        embedder: &e,
        chat: &chat,
        audit: &audit,
        cfg: &cfg_on,
    };
    process_doc(&mut store, &ctx_on, &job.namespace, &job.document_id, now()).unwrap();
    assert!(!store
        .unsealed_nodes("repo:y", "global", "global", 0)
        .is_empty());

    // Toggle off + re-process: prior unsealed leaves are cleaned even though consolidation skips.
    let cfg_off = Config::from_vars(|_| None);
    let ctx_off = TreeCtx {
        embedder: &e,
        chat: &chat,
        audit: &audit,
        cfg: &cfg_off,
    };
    process_doc(&mut store, &ctx_off, &job.namespace, &job.document_id, now()).unwrap();
    assert_eq!(
        store
            .unsealed_nodes("repo:y", "global", "global", 0)
            .len(),
        0,
        "stale unsealed leaves must be cleaned when consolidation is toggled off"
    );
}

#[test]
fn code_consolidation_uses_module_and_symbol_topic_trees() {
    let mut store = Store::new();
    let e = HashEmbedder::new(16);
    let new = NewDoc {
        key: "src/state/foo.rs".into(),
        title: "src/state/foo.rs".into(),
        content: "use baz::thing;\nfn alpha() {}".into(),
        author: "code".into(),
        taint: Taint::Internal,
        meta: Some("{\"kind\":\"file\"}".into()),
    };
    ingest_document(&mut store, &e, "repo:z", &new, &opts(), now()).unwrap();
    let job = store.claim_job(now()).unwrap();
    let chat = FakeChatClient::ok("S");
    let audit = NullAuditSink;
    let mut cfg = Config::from_vars(|_| None);
    cfg.consolidate_code = true;
    let ctx = TreeCtx {
        embedder: &e,
        chat: &chat,
        audit: &audit,
        cfg: &cfg,
    };
    process_doc(&mut store, &ctx, &job.namespace, &job.document_id, now()).unwrap();

    let n = |kind: &str, key: &str| store.unsealed_nodes("repo:z", kind, key, 0).len();
    // Directory-keyed module tree + global; NOT the author-keyed source tree.
    assert!(
        n("module", "src/state") >= 1,
        "module tree keyed by directory"
    );
    assert!(n("global", "global") >= 1);
    assert_eq!(n("source", "code"), 0, "code must not use the source tree");
    // Topic trees on symbols/imports only — never on path: entities.
    assert!(n("topic", "sym:alpha") >= 1);
    assert!(n("topic", "import:baz::thing") >= 1);
    assert_eq!(
        n("topic", "path:src/state/foo.rs"),
        0,
        "path: entities must not create code topic trees"
    );
}

#[test]
fn tree_processor_drains_a_job() {
    let mut store = Store::new();
    let e = HashEmbedder::new(16);
    let new = NewDoc {
        key: "k".into(),
        title: "t".into(),
        content: "hello world".into(),
        author: "a".into(),
        taint: Taint::Internal,
        meta: None,
    };
    ingest_document(&mut store, &e, "alice", &new, &opts(), now()).unwrap();
    let proc = TreeProcessor {
        embedder: HashEmbedder::new(16),
        chat: FakeChatClient::ok("S"),
        audit: NullAuditSink,
        cfg: Config::from_vars(|_| None),
    };
    assert!(worker_tick(&mut store, &proc, 5, now()));
    assert_eq!(
        store
            .unsealed_nodes("alice", "global", "global", 0)
            .len(),
        1
    );
}

#[test]
fn sweep_seals_stale_buffers() {
    let mut store = Store::new();
    let e = HashEmbedder::new(8);
    let chat = FakeChatClient::ok("S");
    let audit = NullAuditSink;
    let mut cfg = Config::from_vars(|_| None);
    cfg.seal_input_token_budget = 1_000_000; // size gates won't fire
    cfg.seal_fanout = 1_000_000;
    cfg.seal_flush_age_micros = 100_000_000;
    let ctx = TreeCtx {
        embedder: &e,
        chat: &chat,
        audit: &audit,
        cfg: &cfg,
    };
    let emb = e.embed("x").unwrap();
    append_leaf(&mut store,
        &ctx,
        "alice",
        "global",
        "global",
        "leaf body one",
        "d1",
        &emb, now())
    .unwrap();
    append_leaf(&mut store,
        &ctx,
        "alice",
        "global",
        "global",
        "leaf body two",
        "d2",
        &emb, now())
    .unwrap();
    assert_eq!(
        store
            .unsealed_nodes("alice", "global", "global", 0)
            .len(),
        2
    ); // no seal yet

    sweep_stale(&mut store, &ctx, now() + 100_000_001).unwrap(); // both leaves are stale by then
    assert!(store
        .unsealed_nodes("alice", "global", "global", 0)
        .is_empty());
    let l1 = store
        .unsealed_nodes("alice", "global", "global", 1);
    assert_eq!(l1.len(), 1);
    assert_eq!(store.children_of(&l1[0].node_id).len(), 2);
}

/// Build a Config where gates trip on every leaf so the cascade is deep enough to observe
/// multi-level sealing within a small number of docs.
fn tiny_cfg() -> Config {
    let mut c = Config::from_vars(|_| None);
    c.seal_input_token_budget = 1; // every leaf immediately seals its L0 buffer
    c.seal_fanout = 2; // every pair of L1 nodes seals into L2
    c.seal_flush_age_micros = u64::MAX; // age gate never fires during the test
    c
}

#[test]
fn integration_multi_doc_drain_tree_shape_and_reingest_invariants() {

    let mut store = Store::new();
    let e = HashEmbedder::new(16);
    let cfg = tiny_cfg();

    let docs = [
        ("k1", "First doc with handle @alice and url https://a.com"),
        ("k2", "Second doc mentioning @bob and #rust"),
        ("k3", "Third doc about @carol and email carol@example.com"),
        ("k4", "Fourth doc referencing @dave and #cargo"),
    ];
    let ns = "integ";
    for (key, content) in &docs {
        let new = NewDoc {
            key: (*key).into(),
            title: (*key).into(),
            content: (*content).into(),
            author: "agentA".into(),
            taint: Taint::Internal,
            meta: None,
        };
        ingest_document(&mut store, &e, ns, &new, &opts(), now()).unwrap();
    }
    assert_eq!(store.pending_jobs(), 4);

    let proc = TreeProcessor {
        embedder: HashEmbedder::new(16),
        chat: FakeChatClient::ok("SUMMARY"),
        audit: NullAuditSink,
        cfg,
    };

    let mut ticks = 0usize;
    while worker_tick(&mut store, &proc, 5, now()) {
        ticks += 1;
    }
    assert_eq!(ticks, 4, "should process exactly 4 jobs");
    assert_eq!(store.pending_jobs(), 0);

    let top_source = store.tree_top_nodes(ns, "source", "agentA");
    assert_eq!(
        top_source.len(),
        1,
        "source tree must have converged to a single top node"
    );
    assert!(
        top_source[0].level >= 2,
        "cascade must have climbed at least to L2 (got L{})",
        top_source[0].level
    );
    assert_eq!(
        top_source[0].body, "SUMMARY",
        "top node body must be the FakeChat reply"
    );

    let top_global = store.tree_top_nodes(ns, "global", "global");
    assert_eq!(top_global.len(), 1);
    assert!(top_global[0].level >= 2);

    for handle in ["handle:alice", "handle:bob", "handle:carol", "handle:dave"] {
        let top = store.tree_top_nodes(ns, "topic", handle);
        assert_eq!(
            top.len(),
            1,
            "topic tree for {handle} must have exactly one top node"
        );
        assert_eq!(top[0].level, 1, "single leaf → L1, no L2");
    }

    // Count sealed nodes across every tree this namespace built: BFS down from each tree's top
    // node via `children_of`; a node is `sealed` once a parent has folded it.
    let trees: &[(&str, &str)] = &[
        ("source", "agentA"),
        ("global", "global"),
        ("topic", "handle:alice"),
        ("topic", "handle:bob"),
        ("topic", "handle:carol"),
        ("topic", "handle:dave"),
        ("topic", "url:https://a.com"),
        ("topic", "hashtag:rust"),
        ("topic", "email:carol@example.com"),
        ("topic", "hashtag:cargo"),
    ];
    let count_sealed = |store: &Store| -> i64 {
        let mut sealed = 0i64;
        for (kind, key) in trees {
            let mut frontier = store.tree_top_nodes(ns, kind, key);
            while let Some(node) = frontier.pop() {
                if node.sealed {
                    sealed += 1;
                }
                frontier.extend(store.children_of(&node.node_id));
            }
        }
        sealed
    };
    let sealed_before = count_sealed(&store);
    assert!(sealed_before > 0, "there must be sealed nodes after drain");

    let new_k1 = NewDoc {
        key: "k1".into(),
        title: "k1".into(),
        content: "First doc with handle @alice and url https://a.com".into(),
        author: "agentA".into(),
        taint: Taint::Internal,
        meta: None,
    };
    ingest_document(&mut store, &e, ns, &new_k1, &opts(), now()).unwrap();
    assert_eq!(store.pending_jobs(), 1);
    while worker_tick(&mut store, &proc, 5, now()) {}

    let sealed_after = count_sealed(&store);
    assert!(
        sealed_after >= sealed_before,
        "sealed nodes must not decrease after re-ingest (before={sealed_before}, after={sealed_after})"
    );

    ingest_document(&mut store, &e, ns, &NewDoc {
            key: "k5".into(),
            title: "k5".into(),
            content: "Fifth doc @eve".into(),
            author: "agentA".into(),
            taint: Taint::Internal,
            meta: None,
        }, &opts(), now()).unwrap();
    let claimed = store.claim_job(now()).unwrap();
    assert_eq!(claimed.namespace, ns);
    let requeued = store.requeue_running();
    assert_eq!(
        requeued, 1,
        "requeue_running must recover the orphaned running job"
    );
    assert_eq!(
        store
            .job(&format!("{ns}:{}", claimed.document_id)).unwrap()
            .0,
        "pending"
    );
}
