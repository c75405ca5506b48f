use engram::model::{EdgeKind, MemoryDoc, NewDoc, RawEdge, Taint};
use engram::store::bytes::{bytes_to_vec, vec_to_bytes};
use engram::store::trees::NewTreeNode;
use engram::store::{Store, StoredEdge};

fn now() -> u64 {
    1_700_000_000_000_000
}

fn bits(v: &[f32]) -> Vec<u32> {
    v.iter().map(|x| x.to_bits()).collect()
}

fn count(counts: &Vec<(String, usize)>, doc: &str) -> Option<usize> {
    counts.iter().find(|c| c.0 == doc).map(|c| c.1)
}

fn parsed(doc: &MemoryDoc) -> serde_json::Value {
    serde_json::from_str(doc.meta.as_ref().unwrap()).unwrap()
}


#[test]
fn insert_then_get() {
    let mut store = Store::new();
    let new = NewDoc {
        key: "k1".into(),
        title: "Title".into(),
        content: "Hello".into(),
        author: "alice".into(),
        taint: Taint::Internal,
        meta: None,
    };
    let saved = store.insert_doc("alice", &new, now()).unwrap();
    assert_eq!(saved.namespace, "alice");
    assert_eq!(saved.key, "k1");
    assert!(saved.created_at > 0);

    let got = store.get_doc("alice", &saved.document_id).unwrap();
    assert_eq!(got.content, "Hello");

    // upsert on (namespace,key): same row, content updated
    let mut n2 = new.clone();
    n2.content = "Updated".into();
    let saved2 = store.insert_doc("alice", &n2, now()).unwrap();
    assert_eq!(saved2.document_id, saved.document_id);
    assert_eq!(saved2.content, "Updated");
}

#[test]
fn list_is_namespace_scoped() {
    let mut store = Store::new();
    let mk = |k: &str| NewDoc {
        key: k.into(),
        title: "t".into(),
        content: "c".into(),
        author: "a".into(),
        taint: Taint::Internal,
        meta: None,
    };
    store.insert_doc("alice", &mk("a1"), now()).unwrap();
    store.insert_doc("alice", &mk("a2"), now()).unwrap();
    store.insert_doc("bob", &mk("b1"), now()).unwrap();

    let alice = store.list_namespace("alice", 100);
    assert_eq!(alice.len(), 2);
    assert!(alice.iter().all(|d| d.namespace == "alice"));

    let bob = store.list_namespace("bob", 100);
    assert_eq!(bob.len(), 1);
}

#[test]
fn vec_bytes_roundtrip() {
    let v = bits(&[0.0f32, 1.5, -2.25, 3.0]);
    assert_eq!(bytes_to_vec(&vec_to_bytes(&v)), v);
}

#[test]
fn docs_with_entities_counts() {
    let mut store = Store::new();
    store
        .record_entities(
            "alice",
            "d1#0",
            "d1",
            &vec!["handle:bob".into(), "hashtag:x".into()],
        );
    store
        .record_entities("alice", "d2#0", "d2", &vec!["handle:bob".into()]);
    store
        .record_entities("alice", "d3#0", "d3", &vec!["hashtag:other".into()]);
    let counts = store
        .docs_with_entities("alice", &vec!["handle:bob".into(), "hashtag:x".into()]);
    assert_eq!(count(&counts, "d1"), Some(2));
    assert_eq!(count(&counts, "d2"), Some(1));
    assert_eq!(count(&counts, "d3"), None);
    assert!(store.docs_with_entities("alice", &vec![]).is_empty());
}

#[test]
fn delete_and_record_entities() {
    let mut store = Store::new();
    store
        .upsert_chunk("alice", "doc1", "doc1#0", "hi", &bits(&[0.1, 0.2]), "hash:2", now());
    store
        .record_entities(
            "alice",
            "doc1#0",
            "doc1",
            &vec!["email:a@b.com".into(), "handle:bob".into()],
        );
    store.delete_chunks_for_doc("alice", "doc1");
    assert_eq!(
        store.chunks_for_namespace("alice", "hash:2").len(),
        0
    );
    store
        .upsert_chunk("alice", "doc1", "doc1#0", "hi2", &bits(&[0.3, 0.4]), "hash:2", now());
    store
        .record_entities("alice", "doc1#0", "doc1", &vec!["handle:bob".into()]);
    store
        .record_entities("alice", "doc1#0", "doc1", &vec!["handle:bob".into()]); // idempotent
}

#[test]
fn chunk_upsert_and_fetch() {
    let mut store = Store::new();
    store
        .upsert_chunk("alice", "doc1", "doc1", "hello", &bits(&[0.1, 0.2, 0.3]), "hash:3", now());
    store
        .upsert_chunk("alice", "doc2", "doc2", "world", &bits(&[0.4, 0.5, 0.6]), "hash:3", now());
    store
        .upsert_chunk("bob", "doc3", "doc3", "other", &bits(&[0.7, 0.8, 0.9]), "hash:3", now());

    let alice = store.chunks_for_namespace("alice", "hash:3");
    assert_eq!(alice.len(), 2);

    let none = store
        .chunks_for_namespace("alice", "ollama:bge-m3:1024");
    assert_eq!(none.len(), 0);

    store
        .upsert_chunk(
            "alice",
            "doc1",
            "doc1",
            "hello again",
            &bits(&[1.0, 0.0, 0.0]), "hash:3", now());
    let alice2 = store.chunks_for_namespace("alice", "hash:3");
    assert_eq!(alice2.len(), 2);
    let d1 = alice2.iter().find(|(id, _, _)| id == "doc1").unwrap();
    assert_eq!(d1.1, "hello again");
    assert_eq!(d1.2, bits(&[1.0, 0.0, 0.0]));
}

#[test]
fn commit_ingest_is_atomic_and_enqueues() {
    let mut store = Store::new();
    let new = NewDoc {
        key: "k".into(),
        title: "t".into(),
        content: "ignored-by-store".into(),
        author: "alice".into(),
        taint: Taint::Internal,
        meta: None,
    };
    let chunks = vec!["chunk one @bob".to_string(), "chunk two".to_string()];
    let embs = vec![bits(&[1.0f32, 0.0]), bits(&[0.0f32, 1.0])];
    let ents = vec![vec!["handle:bob".to_string()], vec![]];
    let edges = vec![RawEdge {
        dst_sym: "sym:Foo".to_string(),
        edge_kind: EdgeKind::Calls,
        src_line: Some(10),
        confidence: 90,
    }];

    let doc = store
        .commit_ingest(
            "alice",
            &new,
            &chunks,
            &embs,
            &ents,
            &vec![None, None],
            &edges,
            "sig",
            now(),
        )
        .unwrap();
    let got = store.chunks_for_namespace("alice", "sig");
    assert_eq!(got.len(), 2);
    assert!(got.iter().all(|(d, _, _)| d == &doc.document_id));
    assert_eq!(
        count(
            &store.docs_with_entities("alice", &vec!["handle:bob".into()]),
            &doc.document_id
        ),
        Some(1)
    );
    assert_eq!(store.pending_jobs(), 1);
    assert_eq!(
        store
            .job(&format!("alice:{}", doc.document_id)).unwrap()
            .0,
        "pending"
    );

    // Verify edges were written
    {
        let written: Vec<&StoredEdge> = store
            .edges()
            .iter()
            .filter(|e| e.namespace == "alice" && e.src_doc_id == doc.document_id)
            .collect();
        assert_eq!(written.len(), 1, "expected 1 edge after first ingest");
        assert_eq!(written[0].dst_sym, "sym:Foo");
        assert_eq!(written[0].edge_kind.as_str(), "CALLS");
        assert_eq!(written[0].src_line, Some(10));
        assert_eq!(written[0].confidence, 90);
    }

    // re-ingest same key with DIFFERENT edges: replaces chunks, replaces edges, re-enqueues
    let new_edges = vec![RawEdge {
        dst_sym: "sym:Bar".to_string(),
        edge_kind: EdgeKind::UsesType,
        src_line: None,
        confidence: 100,
    }];
    let doc2 = store
        .commit_ingest(
            "alice",
            &new,
            &vec!["only".to_string()],
            &vec![bits(&[1.0f32, 1.0])],
            &vec![vec![]],
            &vec![None],
            &new_edges,
            "sig",
            now(),
        )
        .unwrap();
    assert_eq!(doc2.document_id, doc.document_id);
    assert_eq!(store.chunks_for_namespace("alice", "sig").len(), 1);
    assert!(store
        .docs_with_entities("alice", &vec!["handle:bob".into()])
        .is_empty());

    // old edge (sym:Foo) gone, new edge (sym:Bar) present — idempotent replace
    {
        let written: Vec<&StoredEdge> = store
            .edges()
            .iter()
            .filter(|e| e.namespace == "alice" && e.src_doc_id == doc.document_id)
            .collect();
        assert_eq!(written.len(), 1, "expected exactly 1 edge after re-ingest");
        assert_eq!(written[0].dst_sym, "sym:Bar", "old edge must be replaced by new edge");
    }
}

#[test]
fn edges_read_methods_seed_and_roundtrip() {
    let mut store = Store::new();

    let mk = |key: &str| NewDoc {
        key: key.into(),
        title: key.into(),
        content: "x".into(),
        author: "a".into(),
        taint: Taint::Internal,
        meta: None,
    };
    let src_doc = store
        .commit_ingest(
            "ns",
            &mk("src.rs"),
            &vec!["fn foo() { bar(); }".into()],
            &vec![bits(&[1.0f32])],
            &vec![vec!["sym:foo".into()]],
            &vec![Some((1, 3))],
            &vec![
                RawEdge {
                    dst_sym: "sym:bar".into(),
                    edge_kind: EdgeKind::Calls,
                    src_line: Some(1),
                    confidence: 100,
                },
                RawEdge {
                    dst_sym: "sym:Baz".into(),
                    edge_kind: EdgeKind::UsesType,
                    src_line: Some(2),
                    confidence: 80,
                },
            ],
            "sig",
            now(),
        )
        .unwrap();
    let _dst_doc = store
        .commit_ingest(
            "ns",
            &mk("bar.rs"),
            &vec!["fn bar() {}".into()],
            &vec![bits(&[0.5f32])],
            &vec![vec!["sym:bar".into()]],
            &vec![Some((1, 1))],
            &vec![],
            "sig",
            now(),
        )
        .unwrap();

    let from = store.edges_from("ns", &src_doc.document_id);
    assert_eq!(from.len(), 2);
    let calls_edge = from
        .iter()
        .find(|e| e.edge_kind == EdgeKind::Calls)
        .unwrap();
    assert_eq!(calls_edge.dst_sym, "sym:bar");
    assert_eq!(calls_edge.src_line, Some(1));
    assert!(calls_edge.confidence == 100);
    let type_edge = from
        .iter()
        .find(|e| e.edge_kind == EdgeKind::UsesType)
        .unwrap();
    assert_eq!(type_edge.dst_sym, "sym:Baz");
    assert!(type_edge.confidence == 80);

    assert!(store
        .edges_from("other", &src_doc.document_id)
        .is_empty());

    let to = store.edges_to_sym("ns", "sym:bar");
    assert_eq!(to.len(), 1);
    assert_eq!(to[0].0, src_doc.document_id);
    assert_eq!(to[0].1.dst_sym, "sym:bar");
    assert_eq!(to[0].1.edge_kind, EdgeKind::Calls);

    let resolved = store.resolve_dst_doc("ns", "sym:bar");
    assert!(
        resolved.is_some(),
        "sym:bar should resolve to bar.rs's doc_id"
    );

    let unresolved = store.resolve_dst_doc("ns", "sym:Baz");
    assert!(unresolved.is_none());
}

#[test]
fn sym_entities_for_doc_returns_only_sym_entities() {
    let mut store = Store::new();
    let new = NewDoc {
        key: "src/lib.rs".into(),
        title: "lib".into(),
        content: "fn foo() {}".into(),
        author: "a".into(),
        taint: Taint::Internal,
        meta: None,
    };
    let doc = store
        .commit_ingest(
            "ns",
            &new,
            &vec!["fn foo() {}".into()],
            &vec![bits(&[1.0f32])],
            &vec![vec![
                "sym:foo".into(),
                "sym:Bar".into(),
                "path:src/lib.rs".into(),
                "import:std".into(),
            ]],
            &vec![Some((1, 1))],
            &vec![],
            "sig",
            now(),
        )
        .unwrap();
    let mut syms = store.sym_entities_for_doc("ns", &doc.document_id);
    syms.sort();
    assert_eq!(syms, vec!["sym:Bar".to_string(), "sym:foo".to_string()]);
    // wrong namespace → empty
    assert!(store
        .sym_entities_for_doc("other", &doc.document_id)
        .is_empty());
}

#[test]
fn job_lifecycle() {
    let mut store = Store::new();
    store.enqueue_job("alice", "doc1", now());
    store.enqueue_job("alice", "doc1", now()); // idempotent
    assert_eq!(store.pending_jobs(), 1);

    let j = store.claim_job(now()).unwrap();
    assert_eq!(j.document_id, "doc1");
    assert_eq!(j.attempts, 1); // incremented at claim
    assert_eq!(store.pending_jobs(), 0);
    assert!(store.claim_job(now()).is_none()); // none left pending

    store.complete_job("alice:doc1", now());
    assert_eq!(store.job("alice:doc1").unwrap().0, "done");
}

#[test]
fn top_nodes_and_stale_buffers() {
    let mut store = Store::new();
    let emb = bits(&[1.0f32]);
    let n = NewTreeNode {
        namespace: "alice",
        tree_kind: "topic",
        tree_key: "t",
        level: 0,
        sealed: false,
        label: None,
        body: "leaf",
        doc_id: Some("d"),
        token_count: 1,
        embedding: &emb,
        signature: "s",
    };
    store.append_leaf_node(&n, now()).unwrap();

    let top = store.tree_top_nodes("alice", "topic", "t");
    assert_eq!(top.len(), 1);
    assert_eq!(top[0].level, 0); // only leaves → top level is 0

    assert!(store.due_stale_buffers(1_000_000_000).is_empty()); // created ~now, far newer than 1000 s
    let mut store = Store::new();
    store.append_leaf_node(&n, 0).unwrap(); // created at the epoch
    let due = store.due_stale_buffers(1_000_000);
    assert_eq!(due, vec![("alice".into(), "topic".into(), "t".into(), 0)]);
}

#[test]
fn tree_leaf_seal_and_children() {
    let mut store = Store::new();
    let emb = bits(&[1.0f32, 0.0]);
    let n1 = NewTreeNode {
        namespace: "alice",
        tree_kind: "global",
        tree_key: "global",
        level: 0,
        sealed: false,
        label: None,
        body: "leaf one",
        doc_id: Some("d1"),
        token_count: 2,
        embedding: &emb,
        signature: "sig",
    };
    let id1 = store.append_leaf_node(&n1, now()).unwrap();
    let n2 = NewTreeNode {
        namespace: "alice",
        tree_kind: "global",
        tree_key: "global",
        level: 0,
        sealed: false,
        label: None,
        body: "leaf two",
        doc_id: Some("d2"),
        token_count: 2,
        embedding: &emb,
        signature: "sig",
    };
    let id2 = store.append_leaf_node(&n2, now()).unwrap();

    let buf = store
        .unsealed_nodes("alice", "global", "global", 0);
    assert_eq!(buf.len(), 2);
    assert_eq!((buf[0].seq, buf[1].seq), (0, 1));

    let pemb = bits(&[0.5f32, 0.5]);
    let parent = NewTreeNode {
        namespace: "alice",
        tree_kind: "global",
        tree_key: "global",
        level: 1,
        sealed: false,
        label: Some("sum"),
        body: "summary",
        doc_id: None,
        token_count: 1,
        embedding: &pemb,
        signature: "sig",
    };
    let pid = store.seal_buffer(&parent, &vec![id1, id2], now()).unwrap();
    assert!(store
        .unsealed_nodes("alice", "global", "global", 0)
        .is_empty()); // children sealed
    let l1 = store
        .unsealed_nodes("alice", "global", "global", 1);
    assert_eq!(l1.len(), 1);
    assert_eq!(l1[0].node_id, pid);
    assert_eq!(store.children_of(&pid).len(), 2);
}

#[test]
fn delete_unsealed_leaves_only() {
    let mut store = Store::new();
    let emb = bits(&[1.0f32]);
    let n = NewTreeNode {
        namespace: "alice",
        tree_kind: "topic",
        tree_key: "t",
        level: 0,
        sealed: false,
        label: None,
        body: "x",
        doc_id: Some("d9"),
        token_count: 1,
        embedding: &emb,
        signature: "s",
    };
    store.append_leaf_node(&n, now()).unwrap();
    assert_eq!(
        store.delete_unsealed_leaves_for_doc("alice", "d9"),
        1
    );
    assert!(store
        .unsealed_nodes("alice", "topic", "t", 0)
        .is_empty());
}

#[test]
fn chunks_for_doc_returns_text_emb_entities() {
    let mut store = Store::new();
    let new = NewDoc {
        key: "k".into(),
        title: "t".into(),
        content: "x".into(),
        author: "a".into(),
        taint: Taint::Internal,
        meta: None,
    };
    let doc = store
        .commit_ingest(
            "alice",
            &new,
            &vec!["chunk @bob".into()],
            &vec![bits(&[1.0f32, 2.0])],
            &vec![vec!["handle:bob".into()]],
            &vec![None],
            &vec![],
            "sig",
            now(),
        )
        .unwrap();
    let rows = store.chunks_for_doc("alice", &doc.document_id);
    assert_eq!(rows.len(), 1);
    assert_eq!(rows[0].text, "chunk @bob");
    assert_eq!(rows[0].embedding, bits(&[1.0f32, 2.0]));
    assert_eq!(rows[0].entities, vec!["handle:bob".to_string()]);
}

#[test]
fn job_fail_then_retry_then_failed() {
    let mut store = Store::new();
    store.enqueue_job("alice", "d", now());
    store.claim_job(now()).unwrap(); // attempts=1
    store.fail_or_retry_job("alice:d", "boom", 2, now()); // 1<2 → pending
    assert_eq!(
        store.job("alice:d").unwrap(),
        ("pending".into(), 1)
    );
    store.claim_job(now()).unwrap(); // attempts=2
    store.fail_or_retry_job("alice:d", "boom", 2, now()); // 2>=2 → failed
    assert_eq!(store.job("alice:d").unwrap(), ("failed".into(), 2));
}

#[test]
fn requeue_running_resets() {
    let mut store = Store::new();
    store.enqueue_job("alice", "d", now());
    store.claim_job(now()).unwrap(); // → running
    assert_eq!(store.requeue_running(), 1);
    assert_eq!(store.job("alice:d").unwrap().0, "pending");
}

#[test]
fn delete_doc_by_key_removes_doc_and_chunks() {
    let mut store = Store::new();
    let new = NewDoc {
        key: "k".into(),
        title: "t".into(),
        content: "ping @bob".into(),
        author: "a".into(),
        taint: Taint::Internal,
        meta: None,
    };
    // Ingest a "callee" doc first so we can test dst_doc_id-side deletion too
    let callee = store
        .commit_ingest(
            "alice",
            &NewDoc {
                key: "callee.rs".into(),
                title: "callee.rs".into(),
                content: "fn target() {}".into(),
                author: "a".into(),
                taint: Taint::Internal,
                meta: None,
            },
            &vec!["fn target() {}".into()],
            &vec![bits(&[0.5f32])],
            &vec![vec!["sym:target".into()]],
            &vec![Some((1, 1))],
            &vec![],
            "sig",
            now(),
        )
        .unwrap();

    let doc = store
        .commit_ingest(
            "alice",
            &new,
            &vec!["ping @bob".into()],
            &vec![bits(&[1.0f32])],
            &vec![vec!["handle:bob".into()]],
            &vec![None],
            &vec![RawEdge {
                dst_sym: "sym:target".into(),
                edge_kind: EdgeKind::Calls,
                src_line: Some(1),
                confidence: 100,
            }],
            "sig",
            now(),
        )
        .unwrap();

    // Manually insert an INBOUND ghost edge: callee.rs references the doc we are about to
    // delete (dst_sym names one of its symbols) but with dst_doc_id NULL — exactly the
    // state production creates (cross-file resolution is lazy and never writes dst_doc_id
    // back). This edge must SURVIVE the delete (the dst_doc_id DELETE matches nothing), so
    // it becomes an unresolvable ghost edge by design.
    let mut tables = store.into_tables();
    tables.edges.push(StoredEdge {
        namespace: "alice".into(),
        src_doc_id: callee.document_id.clone(),
        dst_sym: "sym:ping".into(),
        dst_doc_id: None,
        edge_kind: EdgeKind::Calls,
        src_line: Some(5),
        confidence: 100,
    });
    let mut store = Store::open(tables).unwrap();

    assert!(store.get_by_key("alice", "k").is_some());
    assert_eq!(store.chunks_for_namespace("alice", "sig").len(), 2); // doc + callee

    let outbound = |store: &Store| {
        store
            .edges()
            .iter()
            .filter(|e| e.namespace == "alice" && e.src_doc_id == doc.document_id)
            .count()
    };
    assert_eq!(outbound(&store), 1, "should have 1 outbound edge before delete");

    let removed = store.delete_doc_by_key("alice", "k");
    assert!(removed);
    assert!(store.get_by_key("alice", "k").is_none());
    assert_eq!(store.chunks_for_namespace("alice", "sig").len(), 1); // only callee remains
    assert!(store
        .docs_with_entities("alice", &vec!["handle:bob".into()])
        .is_empty());

    assert_eq!(outbound(&store), 0, "outbound edges must be deleted with the doc");

    // The inbound ghost edge from callee.rs, which is resolved to no document, survives: references
    // to a forgotten doc become unresolvable ghost edges by design.
    let ghost_count = store
        .edges()
        .iter()
        .filter(|e| {
            e.namespace == "alice" && e.src_doc_id == callee.document_id && e.dst_sym == "sym:ping"
        })
        .count();
    assert_eq!(ghost_count, 1, "inbound ghost edge survives deletion by design");

    assert!(!store.delete_doc_by_key("alice", "k"));
}

#[test]
fn commit_ingest_persists_line_ranges() {
    let mut store = Store::new();
    let new = NewDoc {
        key: "f".into(),
        title: "t".into(),
        content: "x".into(),
        author: "code".into(),
        taint: Taint::Internal,
        meta: None,
    };
    let doc = store
        .commit_ingest(
            "ns",
            &new,
            &vec!["line one\nline two".to_string(), "tail".to_string()],
            &vec![bits(&[1.0f32, 0.0]), bits(&[0.0f32, 1.0])],
            &vec![vec![], vec![]],
            &vec![Some((1, 2)), None],
            &vec![],
            "sig",
            now(),
        )
        .unwrap();
    let rows = store.chunks_for_doc("ns", &doc.document_id);
    assert_eq!(rows.len(), 2);
    let first = rows
        .iter()
        .find(|r| r.text == "line one\nline two")
        .unwrap();
    assert_eq!((first.line_start, first.line_end), (Some(1), Some(2)));
    let second = rows.iter().find(|r| r.text == "tail").unwrap();
    assert_eq!((second.line_start, second.line_end), (None, None));
}

#[test]
fn meta_persists_through_commit_ingest_and_reads() {
    let mut store = Store::new();
    let new = NewDoc {
        key: "k".into(),
        title: "t".into(),
        content: "hello".into(),
        author: "a".into(),
        taint: Taint::Internal,
        meta: Some("{\"category\":\"fact\",\"importance\":0.8}".into()),
    };
    let doc = store
        .commit_ingest(
            "alice",
            &new,
            &vec!["hello".into()],
            &vec![bits(&[1.0f32, 0.0])],
            &vec![vec![]],
            &vec![None],
            &vec![],
            "sig",
            now(),
        )
        .unwrap();
    assert_eq!(parsed(&doc)["category"], "fact");
    let got = store.get_doc("alice", &doc.document_id).unwrap();
    assert_eq!(parsed(&got)["importance"], 0.8);
    let by_key = store.get_by_key("alice", "k").unwrap();
    assert_eq!(parsed(&by_key)["category"], "fact");
}
