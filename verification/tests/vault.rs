use engram::model::{MemoryDoc, Taint};
use engram::vault::{NodeMeta, Vault};

#[test]
fn writes_doc_and_node_frontmatter() {
    let v = Vault::new("/tmp/vault");
    let doc = MemoryDoc {
        document_id: "id1".into(),
        namespace: "alice".into(),
        key: "k".into(),
        title: "T".into(),
        content: "hello body".into(),
        author: "a".into(),
        taint: Taint::Internal,
        meta: None,
        created_at: 1_000_000,
        updated_at: 2_000_000,
    };
    let page = v.doc_page(&doc);
    assert_eq!(format!("{}/{}", page.dirs.join("/"), page.file), "alice/docs/id1.md");
    assert!(page.needs_write(None));
    let txt = page.content.clone();
    assert!(txt.contains("namespace: alice"));
    assert!(txt.contains("document_id: id1"));
    assert!(txt.contains("content_sha: "));
    assert!(txt.ends_with("hello body\n"));
    assert!(!v.doc_page(&doc).needs_write(Some(&txt))); // unchanged → skip
    assert_eq!(v.doc_page(&doc).content, txt);

    let node = v.node_page(&NodeMeta {
        namespace: "alice",
        tree_kind: "topic",
        tree_key: "handle:bob",
        node_id: "n1",
        level: 1,
        label: Some("L"),
        body: "summary",
        created_at: 3_000_000,
    });
    assert_eq!(
        format!("{}/{}", node.dirs.join("/"), node.file),
        "alice/topic/handle_bob/L1-n1.md"
    );
    assert!(node.content.contains("tree_kind: topic"));
    assert!(node.content.ends_with("summary\n"));
}
