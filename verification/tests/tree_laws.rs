use engram::config::Config;
use engram::embed::HashEmbedder;
use engram::ingest::{ingest_document, IngestOptions};
use engram::llm::{AuditEvent, AuditSink, FakeChatClient, NullAuditSink};
use engram::model::{MemoryDoc, NewDoc, Taint};
use engram::retrieve::drill::drill_candidates;
use engram::store::trees::NewTreeNode;
use engram::store::Store;
use engram::tree::{is_mirrored, process_doc, seal_cascade, TreeCtx};
use std::sync::Mutex;

const NOW: u64 = 1_700_000_000_000_000;

fn opts() -> IngestOptions {
    IngestOptions { symbol_split: true, tree_sitter: true, native_budget: None, code_graph: true, min_confidence: 60 }
}

fn note(key: &str, content: &str) -> NewDoc {
    NewDoc {
        key: key.into(),
        title: key.into(),
        content: content.into(),
        author: "ada".into(),
        taint: Taint::Internal,
        meta: None,
    }
}

/// The loose leaves of a document: tree and body of each.
fn loose(store: &Store, doc: &str) -> Vec<(String, String, String)> {
    let mut out: Vec<(String, String, String)> = store
        .nodes()
        .iter()
        .filter(|n| n.doc_id.as_deref() == Some(doc) && n.level == 0 && !n.sealed)
        .map(|n| (n.tree_kind.clone(), n.tree_key.clone(), n.body.clone()))
        .collect();
    out.sort();
    out
}

#[test]
fn a_document_that_is_ingested_again_is_replaced() {
    let mut s = Store::new();
    let e = HashEmbedder::new(8);
    ingest_document(&mut s, &e, "n", &note("other", "about #rust"), &opts(), NOW).unwrap();
    let d1 = ingest_document(&mut s, &e, "n", &note("k", "hello @bob, see #rust"), &opts(), NOW).unwrap();
    while let Some(job) = s.claim_job(NOW + 1) {
        s.complete_job(&job.job_id, NOW + 1);
    }
    let d2 = ingest_document(&mut s, &e, "n", &note("k", "now @eve, see #wasm"), &opts(), NOW + 2).unwrap();
    assert_eq!(d2.document_id, d1.document_id);
    assert_eq!((d2.created_at, d2.updated_at), (NOW, NOW + 2));
    let rows = s.chunks_for_doc("n", &d1.document_id);
    assert_eq!(rows.iter().map(|c| c.text.as_str()).collect::<Vec<_>>(), ["now @eve, see #wasm"]);
    let mut fresh = Store::new();
    let alone = ingest_document(&mut fresh, &e, "n", &note("k", "now @eve, see #wasm"), &opts(), NOW).unwrap();
    assert_eq!(rows[0].entities, fresh.chunks_for_doc("n", &alone.document_id)[0].entities);
    assert_eq!(s.job(&format!("n:{}", d1.document_id)), Some(("pending".into(), 0)));
    let other = s.get_by_key("n", "other").unwrap();
    assert_eq!(s.chunks_for_doc("n", &other.document_id)[0].text, "about #rust");
    assert_eq!(s.job(&format!("n:{}", other.document_id)).unwrap().0, "done");
}

#[test]
fn a_document_that_is_processed_again_leaves_the_same_leaves() {
    let mut s = Store::new();
    let e = HashEmbedder::new(8);
    let chat = FakeChatClient::ok("S");
    let cfg = Config::from_vars(|_| None);
    let ctx = TreeCtx { embedder: &e, chat: &chat, audit: &NullAuditSink, cfg: &cfg };
    let text = format!("first about #rust\n\n{}\n\nlast for @bob", "w".repeat(790));
    let d = ingest_document(&mut s, &e, "n", &note("k", &text), &opts(), NOW).unwrap();
    let o = ingest_document(&mut s, &e, "n", &note("o", "other #rust"), &opts(), NOW).unwrap();
    process_doc(&mut s, &ctx, "n", &o.document_id, NOW).unwrap();
    process_doc(&mut s, &ctx, "n", &d.document_id, NOW).unwrap();
    let (mine, others) = (loose(&s, &d.document_id), loose(&s, &o.document_id));
    assert_eq!(mine.iter().filter(|l| l.0 == "global").count(), 3);
    assert_eq!(mine.iter().filter(|l| l.0 == "source" && l.1 == "ada").count(), 3);
    process_doc(&mut s, &ctx, "n", &d.document_id, NOW + 9).unwrap();
    assert_eq!(loose(&s, &d.document_id), mine);
    assert_eq!(loose(&s, &o.document_id), others);
    assert!(s.nodes().iter().all(|n| n.level == 0 && !n.sealed));
}

struct Capture(Mutex<Vec<AuditEvent>>);

impl AuditSink for Capture {
    fn emit(&self, ev: &AuditEvent) {
        self.0.lock().unwrap().push(ev.clone());
    }
}

fn leaf<'a>(doc: &'a str, body: &'a str, embedding: &'a Vec<u32>) -> NewTreeNode<'a> {
    NewTreeNode {
        namespace: "n",
        tree_kind: "source",
        tree_key: "ada",
        level: 0,
        sealed: false,
        label: None,
        body,
        doc_id: Some(doc),
        token_count: 100,
        embedding,
        signature: "hash:8",
    }
}

#[test]
fn every_seal_is_audited() {
    let mut s = Store::new();
    let e = HashEmbedder::new(8);
    let chat = FakeChatClient::failing();
    let audit = Capture(Mutex::new(Vec::new()));
    let mut cfg = Config::from_vars(|_| None);
    cfg.seal_input_token_budget = 50;
    cfg.seal_fanout = 1;
    let ctx = TreeCtx { embedder: &e, chat: &chat, audit: &audit, cfg: &cfg };
    let emb = vec![0u32; 8];
    s.append_node_as(&leaf("d", "body", &emb), "leaf", NOW).unwrap();
    seal_cascade(&mut s, &ctx, "n", "source", "ada", 30, NOW).unwrap();
    assert!(audit.0.lock().unwrap().is_empty());
    seal_cascade(&mut s, &ctx, "n", "source", "ada", 0, NOW).unwrap();
    let events = audit.0.lock().unwrap();
    assert_eq!(events.len(), 32);
    for (level, ev) in events.iter().enumerate() {
        assert_eq!(ev.query_text, Some(format!("source:ada@L{level}")));
        assert_eq!((ev.status.as_str(), ev.persona.as_deref()), ("error", Some("n")));
        assert_eq!(ev.model_id, cfg.llm_model);
        assert_eq!(ev.provider, cfg.llm_provider);
    }
}

#[test]
fn a_drill_keeps_the_most_recent_leaf_of_each_document() {
    let mut s = Store::new();
    let emb = vec![0u32; 8];
    s.append_node_as(&leaf("d", "old", &emb), "1", NOW).unwrap();
    s.append_node_as(&leaf("d", "newest", &emb), "2", NOW + 2).unwrap();
    s.append_node_as(&leaf("d", "newer", &emb), "3", NOW + 1).unwrap();
    s.append_node_as(&leaf("o", "other", &emb), "4", NOW).unwrap();
    let kept: Vec<String> =
        drill_candidates(&s, "n", "source", "ada", 1).into_iter().map(|n| n.body).collect();
    assert_eq!(kept, ["newest", "other"]);
}

#[test]
fn only_what_is_consolidated_is_mirrored() {
    let doc = |meta: Option<&str>| {
        Some(MemoryDoc {
            document_id: "d".into(),
            namespace: "n".into(),
            key: "k".into(),
            title: "t".into(),
            content: "c".into(),
            author: "a".into(),
            taint: Taint::Internal,
            meta: meta.map(String::from),
            created_at: NOW,
            updated_at: NOW,
        })
    };
    let file = doc(Some("{\"kind\":\"file\"}"));
    let mut cfg = Config::from_vars(|_| None);
    cfg.consolidate_code = false;
    assert!(!is_mirrored(&file, &cfg));
    assert!(is_mirrored(&doc(None), &cfg));
    assert!(!is_mirrored(&None, &cfg));
    cfg.consolidate_code = true;
    assert!(is_mirrored(&file, &cfg));
    assert!(!is_mirrored(&None, &cfg));
}
