use engram::embed::{Embedder, HashEmbedder};
use engram::graph_query::{callees, callers};
use engram::model::{EdgeKind, NewDoc, RawEdge, Taint};
use engram::store::Store;

fn now() -> u64 {
    1_700_000_000_000_000
}


#[test]
fn callers_bfs_single_hop() {
    let mut store = Store::new();
    let emb = HashEmbedder::new(4);

    let caller_doc = {
        let new = NewDoc {
            key: "src/caller.rs".into(),
            title: "caller".into(),
            content: "fn caller() { target(); }".into(),
            author: "a".into(),
            taint: Taint::Internal,
            meta: Some("{\"kind\":\"file\"}".into()),
        };
        let emb_vec = emb.embed("fn caller() { target(); }").unwrap();
        let edges = vec![RawEdge {
            dst_sym: "sym:target".into(),
            edge_kind: EdgeKind::Calls,
            src_line: Some(1),
            confidence: 30,
        }];
        store
            .commit_ingest(
                "ns",
                &new,
                &vec!["fn caller() { target(); }".to_string()],
                &vec![emb_vec],
                &vec![vec![]],
                &vec![Some((1, 1))],
                &edges,
                "hash:4",
                now(),
            )
            .unwrap()
    };

    let target_doc = {
        let new = NewDoc {
            key: "src/target.rs".into(),
            title: "target".into(),
            content: "fn target() {}".into(),
            author: "a".into(),
            taint: Taint::Internal,
            meta: Some("{\"kind\":\"file\"}".into()),
        };
        let emb_vec = emb.embed("fn target() {}").unwrap();
        store
            .commit_ingest(
                "ns",
                &new,
                &vec!["fn target() {}".to_string()],
                &vec![emb_vec],
                &vec![vec!["sym:target".to_string()]],
                &vec![Some((1, 1))],
                &vec![],
                "hash:4",
                now(),
            )
            .unwrap()
    };

    let hops = callers(&store, "ns", "sym:target", 2, 10);
    assert!(!hops.is_empty(), "expected at least one caller hop");
    let hop = &hops[0];
    assert_eq!(hop.document_id, caller_doc.document_id);
    assert_eq!(hop.sym, "sym:target");
    assert!(hop.depth <= 2);
    let _ = target_doc;
}

#[test]
fn callees_bfs_single_hop() {
    let mut store = Store::new();
    let emb = HashEmbedder::new(4);

    let new = NewDoc {
        key: "src/foo.rs".into(),
        title: "foo".into(),
        content: "fn foo() { bar(); baz(); }".into(),
        author: "a".into(),
        taint: Taint::Internal,
        meta: Some("{\"kind\":\"file\"}".into()),
    };
    let emb_vec = emb.embed("fn foo() { bar(); baz(); }").unwrap();
    let edges = vec![
        RawEdge {
            dst_sym: "sym:bar".into(),
            edge_kind: EdgeKind::Calls,
            src_line: Some(1),
            confidence: 30,
        },
        RawEdge {
            dst_sym: "sym:baz".into(),
            edge_kind: EdgeKind::Calls,
            src_line: Some(1),
            confidence: 30,
        },
    ];
    let doc = store
        .commit_ingest(
            "ns",
            &new,
            &vec!["fn foo() { bar(); baz(); }".to_string()],
            &vec![emb_vec],
            &vec![vec![]],
            &vec![Some((1, 1))],
            &edges,
            "hash:4",
                now(),
            )
        .unwrap();

    let hops = callees(&store, "ns", "src/foo.rs", 2, 10);
    assert!(
        hops.iter().any(|h| h.sym == "sym:bar"),
        "expected sym:bar; got {hops:?}"
    );
    assert!(
        hops.iter().any(|h| h.sym == "sym:baz"),
        "expected sym:baz; got {hops:?}"
    );
    let _ = doc;
}
