use engram::graph::dedup_edges;
use engram::graph_query::{callees, callers};
use engram::jobs::{finish_job, worker_tick, JobProcessor};
use engram::model::{EdgeKind, Error, NewDoc, RawEdge, Taint};
use engram::store::jobs::Job;
use engram::store::tables::Tables;
use engram::store::trees::NewTreeNode;
use engram::store::{JobStatus, Store, StoredChunk, StoredEdge, StoredJob, StoredMention};

const NOW: u64 = 1_700_000_000_000_000;

fn doc(key: &str, content: &str) -> NewDoc {
    NewDoc {
        key: key.into(),
        title: format!("title of {key}"),
        content: content.into(),
        author: "ada".into(),
        taint: Taint::ExternalSync,
        meta: Some("{\"kind\":\"file\"}".into()),
    }
}

fn edge(dst: &str, kind: EdgeKind, confidence: u32) -> RawEdge {
    RawEdge { dst_sym: dst.into(), edge_kind: kind, src_line: Some(3), confidence }
}

fn commit(
    store: &mut Store,
    ns: &str,
    key: &str,
    texts: &[&str],
    entities: &[&[&str]],
    edges: Vec<RawEdge>,
    id: &str,
    now: u64,
) -> Result<engram::model::MemoryDoc, Error> {
    let n = texts.len() as u64;
    store.commit_ingest_as(
        ns,
        &doc(key, "content"),
        &texts.iter().map(|t| t.to_string()).collect(),
        &texts.iter().map(|_| vec![1u32, 2]).collect(),
        &entities.iter().map(|e| e.iter().map(|x| x.to_string()).collect()).collect(),
        &(0..n).map(|i| Some((i * 10 + 1, i * 10 + 5))).collect(),
        &edges,
        "sig",
        id,
        now,
    )
}

#[test]
fn a_commit_replaces_chunks_mentions_and_edges() {
    let mut s = Store::new();
    let first = commit(
        &mut s,
        "n",
        "k",
        &["one", "two", "three"],
        &[&["sym:a"], &["sym:b", "sym:b"], &[]],
        vec![edge("sym:x", EdgeKind::Calls, 60), edge("sym:y", EdgeKind::Imports, 100)],
        "id-1",
        NOW,
    )
    .unwrap();
    assert_eq!(first.document_id, "id-1");
    assert_eq!(first.created_at, NOW);
    assert_eq!(first.taint, Taint::ExternalSync);
    let rows = s.chunks_for_doc("n", "id-1");
    assert_eq!(rows.iter().map(|c| c.chunk_id.as_str()).collect::<Vec<_>>(), ["id-1#0", "id-1#1", "id-1#2"]);
    assert_eq!(rows[1].entities, ["sym:b"]);
    assert_eq!((rows[2].line_start, rows[2].line_end), (Some(21), Some(25)));
    assert_eq!(s.edges_from("n", "id-1").len(), 2);

    // The id that is offered for an existing document is not used; its creation time stays.
    let again = commit(&mut s, "n", "k", &["new"], &[&["sym:c"]], vec![edge("sym:z", EdgeKind::Calls, 60)], "id-2", NOW + 5)
        .unwrap();
    assert_eq!(again.document_id, "id-1");
    assert_eq!(again.created_at, NOW);
    assert_eq!(again.updated_at, NOW + 5);
    let rows = s.chunks_for_doc("n", "id-1");
    assert_eq!(rows.len(), 1);
    assert_eq!(rows[0].text, "new");
    assert_eq!(rows[0].entities, ["sym:c"]);
    let edges = s.edges_from("n", "id-1");
    assert_eq!(edges.len(), 1);
    assert_eq!(edges[0].dst_sym, "sym:z");
    assert!(s.docs_with_entities("n", &vec!["sym:a".into(), "sym:b".into()]).is_empty());
}

#[test]
fn a_commit_takes_as_much_of_each_list_as_there_are_texts() {
    let mut s = Store::new();
    let d = s
        .commit_ingest(
            "n",
            &doc("k", "content"),
            &vec!["one".to_string()],
            &vec![vec![1], vec![2]],
            &vec![vec!["sym:a".to_string()], vec!["sym:b".to_string()]],
            &vec![Some((1, 2)), None, None],
            &vec![],
            "sig",
            NOW,
        )
        .unwrap();
    let rows = s.chunks_for_doc("n", &d.document_id);
    assert_eq!(rows.len(), 1);
    assert_eq!((rows[0].text.as_str(), &rows[0].embedding), ("one", &vec![1]));
    assert_eq!(rows[0].entities, ["sym:a"]);
    assert_eq!(s.mentions().len(), 1);
}

#[test]
fn a_commit_leaves_other_namespaces_alone() {
    let mut s = Store::new();
    commit(&mut s, "other", "k", &["kept"], &[&["sym:a"]], vec![edge("sym:x", EdgeKind::Calls, 60)], "id-1", NOW).unwrap();
    commit(&mut s, "n", "k", &["mine"], &[&["sym:a"]], vec![edge("sym:x", EdgeKind::Calls, 60)], "id-2", NOW).unwrap();
    commit(&mut s, "n", "k", &[], &[], vec![], "id-3", NOW + 1).unwrap();
    assert_eq!(s.chunks_for_doc("other", "id-1")[0].text, "kept");
    assert_eq!(s.edges_from("other", "id-1").len(), 1);
    assert_eq!(s.docs_with_entities("other", &vec!["sym:a".into()]), vec![("id-1".to_string(), 1)]);
    assert!(s.chunks_for_doc("n", "id-2").is_empty());
}

#[test]
fn a_taken_id_is_a_conflict_and_changes_nothing() {
    let mut s = Store::new();
    commit(&mut s, "n", "a", &["x"], &[&[]], vec![], "id-1", NOW).unwrap();
    let r = commit(&mut s, "n", "b", &["y"], &[&[]], vec![], "id-1", NOW);
    assert!(matches!(r, Err(Error::Conflict)));
    assert_eq!(r.unwrap_err().message(), "id already taken");
    assert!(s.get_by_key("n", "b").is_none());
    assert_eq!(s.chunks_for_doc("n", "id-1")[0].text, "x");
}

#[test]
fn what_is_stored_is_read_back_by_id_and_by_key() {
    let mut s = Store::new();
    let d = s.insert_doc_as("n", &doc("k", "body"), "id-1".to_string(), NOW).unwrap();
    for got in [s.get_doc("n", "id-1").unwrap(), s.get_by_key("n", "k").unwrap()] {
        assert_eq!(got.content, "body");
        assert_eq!(got.title, "title of k");
        assert_eq!(got.meta.as_deref(), Some("{\"kind\":\"file\"}"));
        assert_eq!(got.document_id, d.document_id);
    }
    assert!(s.get_doc("m", "id-1").is_none());
    assert!(s.get_by_key("m", "k").is_none());
}

#[test]
fn a_forgotten_document_leaves_nothing_behind() {
    let mut s = Store::new();
    commit(&mut s, "n", "k", &["x"], &[&["sym:a"]], vec![edge("sym:x", EdgeKind::Calls, 60)], "id-1", NOW).unwrap();
    commit(&mut s, "n", "j", &["y"], &[&["sym:a"]], vec![edge("sym:x", EdgeKind::Calls, 60)], "id-2", NOW).unwrap();
    assert!(s.delete_doc_by_key("n", "k"));
    assert!(!s.delete_doc_by_key("n", "k"));
    assert!(s.get_doc("n", "id-1").is_none());
    assert!(s.chunks_for_doc("n", "id-1").is_empty());
    assert!(s.edges_from("n", "id-1").is_empty());
    assert_eq!(s.docs_with_entities("n", &vec!["sym:a".into()]), vec![("id-2".to_string(), 1)]);
    assert_eq!(s.edges_from("n", "id-2").len(), 1);
}

#[test]
fn chunks_of_another_signature_are_unseen() {
    let mut s = Store::new();
    s.insert_doc_as("n", &doc("a.rs", "x"), "d".to_string(), NOW).unwrap();
    s.upsert_chunk("n", "d", "d#0", "x", &vec![1], "new", NOW);
    assert_eq!(s.chunks_for_namespace("n", "new").len(), 1);
    assert!(s.chunks_for_namespace("n", "old").is_empty());
    assert!(s.chunks_for_namespace("m", "new").is_empty());
}

#[test]
fn the_surest_edge_of_each_target_and_kind_is_kept() {
    let out = dedup_edges(vec![
        edge("sym:b", EdgeKind::Calls, 30),
        edge("sym:a", EdgeKind::UsesType, 60),
        edge("sym:b", EdgeKind::Calls, 100),
        edge("sym:a", EdgeKind::Calls, 30),
        edge("sym:b", EdgeKind::Calls, 60),
    ]);
    let got: Vec<(&str, &str, u32)> = out.iter().map(|e| (e.dst_sym.as_str(), e.edge_kind.as_str(), e.confidence)).collect();
    assert_eq!(got, [("sym:a", "CALLS", 30), ("sym:a", "USES_TYPE", 60), ("sym:b", "CALLS", 100)]);
    assert!(dedup_edges(vec![]).is_empty());
}

#[test]
fn walks_of_the_graph_end_on_cycles() {
    let mut s = Store::new();
    commit(&mut s, "n", "a.rs", &["a"], &[&["sym:a"]], vec![edge("sym:b", EdgeKind::Calls, 100)], "da", NOW).unwrap();
    commit(&mut s, "n", "b.rs", &["b"], &[&["sym:b"]], vec![edge("sym:a", EdgeKind::Calls, 60)], "db", NOW).unwrap();
    let up = callers(&s, "n", "sym:a", 10, 50);
    assert_eq!(up.iter().map(|h| (h.path.as_str(), h.depth)).collect::<Vec<_>>(), [("b.rs", 1), ("a.rs", 2)]);
    let down = callees(&s, "n", "a.rs", 10, 50);
    assert_eq!(down[0].sym, "sym:b");
    assert_eq!(down[0].depth, 1);
    assert!(down.len() <= 3);
    assert_eq!(callers(&s, "n", "sym:a", 10, 1).len(), 1);
    assert_eq!(callers(&s, "n", "sym:a", 1, 50).len(), 1);
    assert!(callers(&s, "n", "sym:nobody", 10, 50).is_empty());
    assert!(callees(&s, "n", "nowhere.rs", 10, 50).is_empty());
}

#[test]
fn a_walk_ends_at_its_limit_wherever_its_calls_lead() {
    let mut s = Store::new();
    let calls = ["sym:x", "sym:y", "sym:b", "sym:z"].map(|t| edge(t, EdgeKind::Calls, 60)).to_vec();
    commit(&mut s, "n", "a.rs", &["a"], &[&["sym:a"]], calls, "da", NOW).unwrap();
    commit(&mut s, "n", "b.rs", &["b"], &[&["sym:b"]], vec![edge("sym:w", EdgeKind::Calls, 60)], "db", NOW).unwrap();
    for limit in 0..7 {
        assert_eq!(callees(&s, "n", "a.rs", 3, limit).len(), limit.min(5));
    }
    let syms: Vec<String> = callees(&s, "n", "a.rs", 3, 2).into_iter().map(|h| h.sym).collect();
    assert_eq!(syms, ["sym:x", "sym:y"]);
}

#[test]
fn a_walk_goes_by_depth_and_leaves_nothing_out() {
    let mut s = Store::new();
    let to = |t: &str| vec![edge(t, EdgeKind::Calls, 60)];
    commit(&mut s, "n", "a.rs", &["a"], &[&["sym:a"]], vec![], "da", NOW).unwrap();
    commit(&mut s, "n", "b.rs", &["b"], &[&["sym:b"]], to("sym:a"), "db", NOW).unwrap();
    commit(&mut s, "n", "c.rs", &["c"], &[&["sym:c"]], to("sym:b"), "dc", NOW).unwrap();
    commit(&mut s, "n", "d.rs", &["d"], &[&["sym:d"]], to("sym:a"), "dd", NOW).unwrap();
    commit(&mut s, "n", "e.rs", &["e"], &[&["sym:e"]], to("sym:c"), "de", NOW).unwrap();
    let found = |depth: usize| -> Vec<(String, usize)> {
        callers(&s, "n", "sym:a", depth, 50).into_iter().map(|h| (h.path, h.depth)).collect()
    };
    let all = [("b.rs", 1), ("d.rs", 1), ("c.rs", 2), ("e.rs", 3)].map(|(p, d)| (p.to_string(), d));
    assert_eq!(found(3), all);
    assert_eq!(found(2), all[..3]);
    assert!(found(0).is_empty());
    let down: Vec<(String, usize)> = callees(&s, "n", "e.rs", 9, 50).into_iter().map(|h| (h.sym, h.depth)).collect();
    assert_eq!(down, [("sym:c", 1), ("sym:b", 2), ("sym:a", 3)].map(|(p, d)| (p.to_string(), d)));
}

#[test]
fn a_second_commit_takes_the_place_of_the_first() {
    let mut s = Store::new();
    commit(&mut s, "n", "other", &["o"], &[&["sym:o", "sym:a"]], vec![edge("sym:a", EdgeKind::Calls, 60)], "do", NOW).unwrap();
    let d1 = commit(
        &mut s,
        "n",
        "k",
        &["one", "two"],
        &[&["sym:a"], &["sym:b"]],
        vec![edge("sym:x", EdgeKind::Calls, 60)],
        "d1",
        NOW,
    )
    .unwrap();
    let claimed = [s.claim_job(NOW + 1).unwrap(), s.claim_job(NOW + 1).unwrap()];
    assert_eq!(claimed[1].job_id, "n:d1");
    assert_eq!(s.job("n:d1"), Some(("running".into(), 1)));
    let d2 = commit(&mut s, "n", "k", &["new"], &[&["sym:c"]], vec![edge("sym:y", EdgeKind::Calls, 60)], "d9", NOW + 2).unwrap();
    assert_eq!((d2.document_id.as_str(), d2.created_at), (d1.document_id.as_str(), NOW));
    let texts: Vec<String> = s.chunks_for_doc("n", "d1").into_iter().map(|c| c.text).collect();
    assert_eq!(texts, ["new"]);
    let mentioned: Vec<&str> =
        s.mentions().iter().filter(|m| m.document_id == "d1").map(|m| m.entity_id.as_str()).collect();
    assert_eq!(mentioned, ["sym:c"]);
    let called: Vec<String> = s.edges_from("n", "d1").into_iter().map(|e| e.dst_sym).collect();
    assert_eq!(called, ["sym:y"]);
    assert_eq!(s.job("n:d1"), Some(("pending".into(), 0)));
    assert_eq!(s.chunks_for_doc("n", "do")[0].entities, ["sym:o", "sym:a"]);
    assert_eq!(s.edges_from("n", "do").len(), 1);
    assert_eq!(s.job("n:do"), Some(("running".into(), 1)));
}

#[test]
fn a_copy_of_a_store_is_equal_and_apart() {
    let mut s = Store::new();
    commit(&mut s, "n", "k", &["x"], &[&["sym:a"]], vec![edge("sym:x", EdgeKind::Calls, 60)], "d1", NOW).unwrap();
    let emb = vec![1u32];
    s.append_node_as(&leaf("body", &emb), "leaf", NOW).unwrap();
    s.seal_buffer_as(&NewTreeNode { level: 1, ..leaf("sum", &emb) }, &vec!["leaf".to_string()], "sum", NOW).unwrap();
    let mut copy = s.copy();
    assert_eq!(format!("{copy:?}"), format!("{s:?}"));
    assert!(copy.delete_doc_by_key("n", "k"));
    assert_eq!(s.chunks_for_doc("n", "d1").len(), 1);
    assert_eq!(s.edges_from("n", "d1").len(), 1);
}

struct Failing;

impl JobProcessor for Failing {
    fn process(&self, _store: &mut Store, _job: &Job, _now: u64) -> Result<(), Error> {
        Err(Error::NotFound)
    }
}

#[test]
fn the_oldest_pending_job_is_claimed_first() {
    let mut s = Store::new();
    s.enqueue_job("n", "late", NOW + 10);
    s.enqueue_job("n", "early", NOW);
    let a = s.claim_job(NOW + 20).unwrap();
    assert_eq!((a.document_id.as_str(), a.attempts), ("early", 1));
    let b = s.claim_job(NOW + 20).unwrap();
    assert_eq!(b.document_id, "late");
    assert!(s.claim_job(NOW + 20).is_none());
    assert_eq!(s.requeue_running(), 2);
    assert_eq!(s.requeue_running(), 0);
    assert_eq!(s.pending_jobs(), 2);
    assert_eq!(s.job("n:early"), Some(("pending".into(), 1)));
}

#[test]
fn a_job_is_retried_up_to_the_cap_and_keeps_its_error() {
    let mut s = Store::new();
    s.enqueue_job("n", "d", NOW);
    for i in 1..=3 {
        assert!(worker_tick(&mut s, &Failing, 3, NOW + i));
        let status = if i < 3 { "pending" } else { "failed" };
        assert_eq!(s.job("n:d"), Some((status.into(), i as i64)));
    }
    assert!(!worker_tick(&mut s, &Failing, 3, NOW + 9));
    assert_eq!(s.jobs()[0].last_error.as_deref(), Some("not found"));
    // Enqueuing it again makes it one fresh job.
    s.enqueue_job("n", "d", NOW + 20);
    assert_eq!(s.job("n:d"), Some(("pending".into(), 0)));
    assert_eq!(s.jobs().len(), 1);
    assert!(s.jobs()[0].last_error.is_none());
}

#[test]
fn an_outcome_is_recorded_for_its_job_only() {
    let mut s = Store::new();
    s.enqueue_job("n", "a", NOW);
    s.enqueue_job("n", "b", NOW);
    finish_job(&mut s, "n:a", &Ok(()), 5, NOW + 1);
    assert_eq!(s.job("n:a").unwrap().0, "done");
    assert_eq!(s.job("n:b").unwrap().0, "pending");
    finish_job(&mut s, "n:b", &Err(Error::Llm("down".into())), 0, NOW + 1);
    assert_eq!(s.job("n:b").unwrap().0, "failed");
    assert_eq!(s.jobs()[1].last_error.as_deref(), Some("llm error: down"));
    assert!(s.job("n:c").is_none());
}

fn leaf<'a>(body: &'a str, embedding: &'a Vec<u32>) -> NewTreeNode<'a> {
    NewTreeNode {
        namespace: "n",
        tree_kind: "source",
        tree_key: "k",
        level: 0,
        sealed: false,
        label: None,
        body,
        doc_id: Some("d"),
        token_count: 4,
        embedding,
        signature: "sig",
    }
}

#[test]
fn sealing_takes_a_buffer_and_keeps_its_nodes() {
    let mut s = Store::new();
    let e = vec![7u32];
    s.append_node_as(&leaf("one", &e), "l1", NOW).unwrap();
    s.append_node_as(&leaf("two", &e), "l2", NOW).unwrap();
    assert!(matches!(s.append_node_as(&leaf("three", &e), "l1", NOW), Err(Error::Conflict)));
    let buffer = s.unsealed_nodes("n", "source", "k", 0);
    assert_eq!(buffer.iter().map(|n| (n.node_id.as_str(), n.seq)).collect::<Vec<_>>(), [("l1", 0), ("l2", 1)]);
    let mut parent = leaf("both", &e);
    parent.level = 1;
    parent.doc_id = None;
    s.seal_buffer_as(&parent, &vec!["l1".into(), "l2".into()], "p", NOW + 1).unwrap();
    assert!(s.unsealed_nodes("n", "source", "k", 0).is_empty());
    let children = s.children_of("p");
    assert_eq!(children.iter().map(|n| n.body.as_str()).collect::<Vec<_>>(), ["one", "two"]);
    assert_eq!(s.tree_top_nodes("n", "source", "k")[0].node_id, "p");
    // A sealed leaf is history: only unsealed leaves of a document go.
    assert_eq!(s.delete_unsealed_leaves_for_doc("n", "d"), 0);
    assert_eq!(s.children_of("p").len(), 2);
    s.append_node_as(&leaf("three", &e), "l3", NOW + 2).unwrap();
    assert_eq!(s.delete_unsealed_leaves_for_doc("n", "d"), 1);
}

#[test]
fn sequence_numbers_run_out() {
    let e = vec![];
    let mut t = Store::new().into_tables();
    let mut s = Store::new();
    s.append_node_as(&leaf("one", &e), "l1", NOW).unwrap();
    t.nodes = s.into_tables().nodes;
    t.nodes[0].seq = u64::MAX;
    let mut s = Store::open(t).unwrap();
    let r = s.append_node_as(&leaf("two", &e), "l2", NOW);
    assert!(matches!(r, Err(Error::Limit)));
    assert_eq!(r.unwrap_err().message(), "out of numbers");
    assert_eq!(s.nodes().len(), 1);
}

#[test]
fn tables_are_opened_only_with_distinct_keys() {
    let mut s = Store::new();
    commit(&mut s, "n", "k", &["x"], &[&["sym:a"]], vec![edge("sym:x", EdgeKind::Calls, 60)], "id-1", NOW).unwrap();
    assert_eq!((s.docs().len(), s.chunks().len(), s.mentions().len(), s.edges().len()), (1, 1, 1, 1));
    assert_eq!((s.jobs().len(), s.nodes().len(), s.links().len()), (1, 0, 0));
    let t = s.into_tables();
    assert!(t.check());
    let s = Store::open(t).unwrap();
    assert_eq!(s.get_by_key("n", "k").unwrap().document_id, "id-1");

    let chunk = || StoredChunk {
        namespace: "n".into(),
        document_id: "d".into(),
        chunk_id: "c".into(),
        text: "t".into(),
        embedding: vec![],
        signature: "sig".into(),
        created_at: NOW,
        line_start: None,
        line_end: None,
    };
    let mention = || StoredMention {
        namespace: "n".into(),
        chunk_id: "c".into(),
        document_id: "d".into(),
        entity_id: "e".into(),
    };
    let job = || StoredJob {
        job_id: "j".into(),
        namespace: "n".into(),
        document_id: "d".into(),
        status: JobStatus::Pending,
        attempts: 0,
        last_error: None,
        created_at: NOW,
        updated_at: NOW,
    };
    let stored_edge = || StoredEdge {
        namespace: "n".into(),
        src_doc_id: "d".into(),
        dst_sym: "s".into(),
        dst_doc_id: None,
        edge_kind: EdgeKind::Calls,
        src_line: None,
        confidence: 100,
    };
    let empty = || Store::new().into_tables();
    let tables: Vec<Tables> = vec![
        Tables { chunks: vec![chunk(), chunk()], ..empty() },
        Tables { mentions: vec![mention(), mention()], ..empty() },
        Tables { jobs: vec![job(), job()], ..empty() },
        Tables { edges: vec![stored_edge(), stored_edge()], ..empty() },
    ];
    for t in tables {
        assert!(!t.check());
        assert!(Store::open(t).is_none());
    }
    assert!(Store::open(Tables { chunks: vec![chunk()], ..empty() }).is_some());
}
