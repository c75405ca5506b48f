use engram::api::{authorized, graph_callers, unauthorized, GraphReq, Reply};
use engram::chunking::CODE_CHUNK_TOKEN_BUDGET;
use engram::config::{code_native_budget, code_native_pack, code_symbol_split, env_bool, env_number, Config};
use engram::conventions::{choose_body, is_config_file, meta_namespace};
use engram::index::client::{
    build_by_key_url, build_docs_url, build_post_body, delete_attempt, post_attempt, retry_step, Attempt, RetryStep,
    FILE_META, MAX_ATTEMPTS,
};
use engram::index::diff::{parse_diff, DiffEntry};
use engram::index::hook::{build_hook_script, marked_sha};
use engram::index::run::{
    choose_run, first_action, listed_files, log_limit, next_action, Action, Event, IndexRun, Outcome, Tally,
};
use engram::index::walk::{should_index, MAX_FILE_BYTES};
use engram::index::{parse_git_log, GIT_LOG_FORMAT};
use engram::embed::{gateway_batch_request, gateway_request, gateway_url, ollama_request, ollama_url};
use engram::llm::{
    chat_reply, chat_request, chat_url, AuditEvent, ChatReply, ChatResult, ChatUsage, SummarizeCtx,
};
use engram::mcp::format::{format_commits, format_digests, hundredths_of};
use engram::mcp::request::{
    endpoint, history_namespace, module_body, query_body, reply_error, trace_body, trace_suffix,
};
use engram::mcp::rpc::{decode_call, list_tools, write_tool_result, ToolCall};
use engram::mcp::{dispatch, handle_message, CodeHit, CodeSearch, CommitHit, Digest, TraceHop};
use engram::model::{Error, MemoryDoc, Taint};
use engram::retrieve::code::rank_code;
use engram::retrieve::drill::rank_nodes;
use engram::retrieve::rank::{above, rank_documents, ranks_before, weights, Score, LOWEST};
use engram::retrieve::search::rank_fresh;
use engram::retrieve::terms::{keyword_hits, query_names};
use engram::retrieve::{path_prior, query_terms};
use engram::store::chunks::CodeChunkRow;
use engram::store::{Store, TreeNode};
use engram::tree::{approx_tokens, dir_key, fallback_summary, gate_exceeded, label_for, summary_from};
use serde_json::Value;

fn strings(v: &[&str]) -> Vec<String> {
    v.iter().map(|s| s.to_string()).collect()
}

fn value(json: &str) -> Value {
    serde_json::from_str(json).unwrap()
}

// --- Ranking ---

fn score(x: f64) -> Score {
    Score { score: x.to_bits(), vector: 0, keyword: 0, graph: 0 }
}

#[test]
fn bits_compare_as_the_numbers_do() {
    let ordered = [f64::NEG_INFINITY, -1.5, -0.0, 0.0, 0.25, 1.0, f64::INFINITY];
    for (i, a) in ordered.iter().enumerate() {
        for (j, b) in ordered.iter().enumerate() {
            assert_eq!(above(a.to_bits(), b.to_bits()), a > b, "{a} {b}");
            if a != b {
                assert_eq!(ranks_before(a.to_bits(), b.to_bits()), i > j, "{a} {b}");
            }
        }
    }
    assert!(!above(f64::NAN.to_bits(), 0f64.to_bits()));
    assert_eq!(f64::from_bits(LOWEST), f64::MIN);
}

#[test]
fn a_ranking_names_each_document_once_best_first() {
    let docs = strings(&["a", "b", "a", "c"]);
    let scores = vec![score(0.2), score(0.5), score(0.9), score(0.1)];
    let r = rank_documents(&docs, &scores, 10);
    assert_eq!(r.iter().map(|h| h.document_id.as_str()).collect::<Vec<_>>(), ["a", "b", "c"]);
    assert_eq!(f64::from_bits(r[0].score.score), 0.9);
    assert_eq!(rank_documents(&docs, &scores, 2).len(), 2);
    assert!(rank_documents(&docs, &scores, 0).is_empty());
}

#[test]
fn weights_depend_on_the_graph() {
    let without = weights(0);
    let with = weights(3);
    assert_eq!(without.graph, 0);
    assert!(with.graph > 0);
    assert_eq!(without.graph + without.vector + without.keyword, 100);
    assert_eq!(with.graph + with.vector + with.keyword, 100);
}

fn row(key: &str) -> CodeChunkRow {
    CodeChunkRow {
        key: key.into(),
        document_id: format!("doc of {key}"),
        text: "text".into(),
        embedding: vec![],
        line_start: Some(1),
        line_end: Some(2),
    }
}

#[test]
fn code_below_the_floor_is_not_shown() {
    let rows = || vec![row("a"), row("b"), row("c")];
    let scores = vec![score(0.2), score(0.6), score(0.4)];
    let paths = |min: f64, max: usize| -> Vec<String> {
        rank_code(rows(), &scores, min.to_bits(), max).into_iter().map(|h| h.path).collect()
    };
    assert_eq!(paths(0.0, 10), ["b", "c", "a"]);
    assert_eq!(paths(0.4, 10), ["b", "c"]);
    assert_eq!(paths(0.4, 1), ["b"]);
    assert!(paths(0.7, 10).is_empty());
}

fn fresh(id: &str, updated_at: u64) -> MemoryDoc {
    MemoryDoc {
        document_id: id.into(),
        namespace: "n".into(),
        key: id.into(),
        title: "t".into(),
        content: "c".into(),
        author: "a".into(),
        taint: Taint::Internal,
        meta: None,
        created_at: 1,
        updated_at,
    }
}

#[test]
fn recalled_documents_come_freshest_first() {
    let docs = vec![fresh("old", 1), fresh("new", 3), fresh("mid", 2)];
    let scores = vec![0.1f64.to_bits(), 0.9f64.to_bits(), 0.5f64.to_bits()];
    let hits = rank_fresh(docs, &scores, 2);
    assert_eq!(hits.iter().map(|h| h.doc.key.as_str()).collect::<Vec<_>>(), ["new", "mid"]);
}

fn node(id: &str, body: &str, label: Option<&str>) -> TreeNode {
    TreeNode {
        node_id: id.into(),
        namespace: "n".into(),
        tree_kind: "source".into(),
        tree_key: "k".into(),
        level: 0,
        seq: 0,
        sealed: false,
        label: label.map(|l| l.to_string()),
        body: body.into(),
        doc_id: None,
        token_count: 10,
        embedding: vec![],
        signature: "sig".into(),
        created_at: 0,
        sealed_at: None,
    }
}

#[test]
fn nodes_are_ranked_by_score() {
    let nodes = vec![node("x", "bx", None), node("y", "by", Some("l"))];
    let hits = rank_nodes(nodes, &vec![0.1f64.to_bits(), 0.2f64.to_bits()], 5);
    assert_eq!(hits.iter().map(|h| h.body.as_str()).collect::<Vec<_>>(), ["by", "bx"]);
}

#[test]
fn terms_and_names_of_a_query() {
    assert_eq!(keyword_hits("Write LOCK write", "the write path"), (2, 3));
    assert_eq!(keyword_hits("", "text"), (0, 0));
    assert_eq!(keyword_hits("ÉTÉ", "un été"), (1, 1));
    assert!(query_terms("How does the WriteLock work?").contains(&"writelock".to_string()));
    assert!(query_names("call acquire_lock now").contains(&"acquire_lock".to_string()));
}

#[test]
fn source_outranks_everything_else() {
    assert_eq!(path_prior("src/store.rs"), 100);
    assert_eq!(path_prior("config/app.json"), 70);
    assert_eq!(path_prior("tests/store.rs"), 60);
    assert_eq!(path_prior("docs/Guide.MD"), 50);
    assert_eq!(path_prior("LICENSE"), 40);
}

// --- Trees and digests ---

#[test]
fn a_summary_falls_back_to_the_bodies() {
    let cfg = Config::from_vars(|_| None);
    let buf = vec![node("a", "first body", None), node("b", "second body", None)];
    let given = Ok(ChatResult { text: "S".into(), usage_total: None });
    assert_eq!(summary_from(given, &buf, &cfg), "S");
    let s = summary_from(Err(Error::Llm("down".into())), &buf, &cfg);
    assert!(s.contains("first body") && s.contains("second body"));
    assert_eq!(fallback_summary(&strings(&["abcdef"]), 3).chars().count(), 3);
    assert_eq!(label_for("source", &buf, "one\ntwo").as_deref(), Some("one"));
    assert_eq!(approx_tokens(""), 1);
    assert_eq!(approx_tokens("abcdefgh"), 2);
    assert_eq!(dir_key("src/state/a.rs"), "src/state");
    assert_eq!(dir_key("a.rs"), ".");
}

#[test]
fn a_buffer_is_full_by_tokens_fanout_or_age() {
    let mut cfg = Config::from_vars(|_| None);
    cfg.seal_input_token_budget = 20;
    cfg.seal_fanout = 2;
    cfg.seal_flush_age_micros = 100;
    let buf = |n: usize| (0..n).map(|i| node(&i.to_string(), "b", None)).collect::<Vec<_>>();
    assert!(!gate_exceeded(&cfg, 0, &buf(0), 1_000));
    assert!(!gate_exceeded(&cfg, 0, &buf(1), 50));
    assert!(gate_exceeded(&cfg, 0, &buf(2), 50));
    assert!(gate_exceeded(&cfg, 0, &buf(1), 1_000));
    assert!(!gate_exceeded(&cfg, 1, &buf(1), 50));
    assert!(gate_exceeded(&cfg, 1, &buf(2), 50));
}

#[test]
fn digests_are_never_empty() {
    assert_eq!(choose_body(Ok(ChatResult { text: "  text \n".into(), usage_total: None }), "f".into()), "  text \n");
    assert_eq!(choose_body(Ok(ChatResult { text: " \n".into(), usage_total: None }), "f".into()), "f");
    assert_eq!(choose_body(Err(Error::Llm("x".into())), "f".into()), "f");
    assert_eq!(meta_namespace("repo:x"), "repo:x:meta");
    assert!(is_config_file("a/rustfmt.toml") && !is_config_file("a/rustfmt.rs"));
}

#[test]
fn audit_events_name_the_call() {
    let ctx = SummarizeCtx {
        namespace: "ns",
        tree_kind: "topic",
        tree_key: "t",
        level: 1,
        model: "m",
        provider: "p",
    };
    let ok = Ok(ChatResult { text: "x".into(), usage_total: Some(9) });
    let e = AuditEvent::build_at(&ctx, &ok, 12, "id-1", "2026-01-01T00:00:00Z");
    assert_eq!(e.event_id, "engram:id-1");
    assert_eq!((e.status.as_str(), e.usage_total, e.latency_ms), ("ok", Some(9), 12));
    assert_eq!(e.query_text.as_deref(), Some("topic:t@L1"));
    assert_eq!(e.ts, "2026-01-01T00:00:00Z");
    let real = AuditEvent::build(&ctx, &Err(Error::Llm("x".into())), 1);
    let other = AuditEvent::build(&ctx, &Err(Error::Llm("x".into())), 1);
    assert_eq!(real.status, "error");
    assert_eq!(real.event_id.len(), "engram:".len() + 36);
    assert_ne!(real.event_id, other.event_id);
    assert!(real.ts.ends_with('Z'));
}

#[test]
fn a_gateway_is_asked_and_its_reply_read() {
    assert_eq!(chat_url("http://g"), "http://g/v1/chat/completions");
    let body = value(&chat_request("m\"1", "line\nline", 12));
    assert_eq!(body["model"], "m\"1");
    assert_eq!(body["max_tokens"], 12);
    assert_eq!(body["messages"][0]["content"], "line\nline");
    assert_eq!(body["messages"][0]["role"], "user");

    let text = "{\"model\":\"m\",\"messages\":[{\"role\":\"user\",\"content\":\"p\"}],\"max_tokens\":7}";
    assert_eq!(chat_request("m", "p", 7), text);

    let reply = |choices: &[&str], usage: Option<Option<u64>>| {
        let usage = usage.map(|total_tokens| ChatUsage { total_tokens });
        chat_reply(Ok(ChatReply { choices: strings(choices), usage }))
    };
    let r = reply(&["a", "b"], Some(Some(7))).unwrap();
    assert_eq!((r.text.as_str(), r.usage_total), ("a", Some(7)));
    assert_eq!(reply(&["a"], None).unwrap().usage_total, None);
    assert_eq!(reply(&["a"], Some(None)).unwrap().usage_total, None);
    assert_eq!(reply(&[], Some(Some(7))).unwrap_err().message(), "llm error: no choices");
    assert_eq!(chat_reply(Err("timed out".to_string())).unwrap_err().message(), "llm error: timed out");
}

#[test]
fn embedders_ask_in_json() {
    assert_eq!(ollama_url("http://o"), "http://o/api/embeddings");
    assert_eq!(value(&ollama_request("m", "a \"b\""))["prompt"], "a \"b\"");
    assert_eq!(gateway_url("http://g"), "http://g/v1/embeddings");
    assert_eq!(gateway_request("m", "x\ny"), "{\"model\":\"m\",\"input\":\"x\\ny\"}");
    let body = value(&gateway_batch_request("m", &strings(&["x", "y\n"])));
    assert_eq!(body["model"], "m");
    assert_eq!(body["input"], Value::from(vec!["x", "y\n"]));
    assert_eq!(value(&gateway_batch_request("m", &vec![]))["input"], Value::from(Vec::<String>::new()));
}

// --- Settings ---

#[test]
fn settings_are_read_permissively() {
    let some = |s: &str| Some(s.to_string());
    for yes in ["true", "1", "YES", "On"] {
        assert!(env_bool(some(yes), false));
    }
    for no in ["false", "0", "No", "OFF"] {
        assert!(!env_bool(some(no), true));
    }
    assert!(env_bool(some("maybe"), true) && !env_bool(some(""), false));
    assert_eq!(env_number(some("12"), 100, 5), 12);
    assert_eq!(env_number(some("1000"), 100, 5), 5);
    assert_eq!(env_number(some("x"), 100, 5), 5);
    assert!(code_symbol_split(None) && !code_native_pack(None));
    assert_eq!(code_native_budget(None), CODE_CHUNK_TOKEN_BUDGET);
    assert_eq!(code_native_budget(some("1500")), 1500);
    let c = Config::from_vars(|k| match k {
        "ENGRAM_EMBED_DIM" => Some("big".into()),
        "ENGRAM_JOBS_MAX_ATTEMPTS" => Some("-1".into()),
        "ENGRAM_GATEWAY_URL" => Some("http://g".into()),
        "ENGRAM_EMBED_FALLBACK" => Some("on".into()),
        _ => None,
    });
    assert_eq!(c.embed_dim, 1024);
    assert_eq!(c.jobs_max_attempts, -1);
    assert_eq!(c.embed_url, "http://g");
    assert!(c.embed_fallback);
}

// --- The service ---

#[test]
fn a_request_without_the_token_is_refused() {
    assert!(authorized(Some("Bearer secret"), "secret"));
    for header in [None, Some("Bearer other"), Some("bearer secret"), Some("secret"), Some("Bearer secret ")] {
        assert!(!authorized(header, "secret"), "{header:?}");
    }
    let r: Reply<()> = unauthorized();
    assert_eq!(r.status, 401);
    assert!(r.body.is_err());
}

#[test]
fn a_walk_needs_its_start() {
    let store = Store::new();
    let req = GraphReq { sym: None, path: None, max_depth: None, limit: None, min_confidence: None };
    let r = graph_callers(&store, "n", &req, 4);
    assert_eq!(r.status, 400);
    assert!(r.body.is_err());
}

// --- The indexer ---

#[test]
fn keys_are_one_segment_and_stay_apart() {
    assert_eq!(build_by_key_url("http://h/", "repo:x", "a/b c%é"), "http://h/v1/repo:x/docs/by-key/a%2Fb%20c%25%C3%A9");
    assert_ne!(build_by_key_url("http://h", "n", "a/b"), build_by_key_url("http://h", "n", "a%2Fb"));
    assert_eq!(build_docs_url("http://h//", "n"), "http://h/v1/n/docs");
    let body = value(&build_post_body("k\"1", "t", "line\nline", "code", FILE_META));
    assert_eq!(body["key"], "k\"1");
    assert_eq!(body["content"], "line\nline");
    assert_eq!(body["meta"]["kind"], "file");
}

#[test]
fn requests_are_tried_again_unless_refused() {
    assert!(matches!(post_attempt(201), Attempt::Done));
    assert!(matches!(post_attempt(404), Attempt::Client(404)));
    assert!(matches!(delete_attempt(404), Attempt::Done));
    assert!(matches!(delete_attempt(503), Attempt::Server(503)));
    assert!(matches!(retry_step(1, MAX_ATTEMPTS, &Attempt::Server(500)), RetryStep::Wait(1)));
    assert!(matches!(retry_step(2, MAX_ATTEMPTS, &Attempt::Transport("x".into())), RetryStep::Wait(2)));
    assert!(matches!(retry_step(1, MAX_ATTEMPTS, &Attempt::Done), RetryStep::Over(Ok(()))));
    match retry_step(3, MAX_ATTEMPTS, &Attempt::Server(500)) {
        RetryStep::Over(Err(m)) => assert_eq!(m, "HTTP 500 (server error) after 3 attempt(s)"),
        other => panic!("{other:?}"),
    }
    match retry_step(3, MAX_ATTEMPTS, &Attempt::Transport("reset".into())) {
        RetryStep::Over(Err(m)) => assert_eq!(m, "transport error after 3 attempt(s): reset"),
        other => panic!("{other:?}"),
    }
    match retry_step(1, MAX_ATTEMPTS, &Attempt::Client(422)) {
        RetryStep::Over(Err(m)) => assert_eq!(m, "HTTP 422 (client error, no retry)"),
        other => panic!("{other:?}"),
    }
}

#[test]
fn a_change_is_worked_off_step_by_step() {
    let added = DiffEntry::Added("src/a.rs".into());
    assert!(matches!(first_action(&added), Action::Measure(p) if p == "src/a.rs"));
    assert!(matches!(next_action(&added, Event::Measured(10)), Action::Read(p) if p == "src/a.rs"));
    assert!(matches!(next_action(&added, Event::Measured(MAX_FILE_BYTES + 1)), Action::Done(Outcome::Skipped)));
    assert!(matches!(next_action(&added, Event::Content("x".into())), Action::Post(p, c) if p == "src/a.rs" && c == "x"));
    assert!(matches!(next_action(&added, Event::NotText), Action::Done(Outcome::Skipped)));
    assert!(matches!(next_action(&added, Event::Unreadable), Action::Done(Outcome::Failed)));
    assert!(matches!(next_action(&added, Event::Posted(true)), Action::Done(Outcome::Indexed)));
    assert!(matches!(next_action(&added, Event::Posted(false)), Action::Done(Outcome::Failed)));

    let renamed = DiffEntry::Renamed { old: "a.rs".into(), new: "b.rs".into() };
    assert!(matches!(first_action(&renamed), Action::Delete(p) if p == "a.rs"));
    assert!(matches!(next_action(&renamed, Event::Deleted(false)), Action::Measure(p) if p == "b.rs"));

    let deleted = DiffEntry::Deleted("a.rs".into());
    assert!(matches!(first_action(&deleted), Action::Delete(p) if p == "a.rs"));
    assert!(matches!(next_action(&deleted, Event::Deleted(true)), Action::Done(Outcome::Indexed)));
    assert!(matches!(next_action(&deleted, Event::Deleted(false)), Action::Done(Outcome::Failed)));
}

#[test]
fn a_run_starts_from_the_last_index() {
    assert!(matches!(choose_run(None, "h"), IndexRun::Full));
    assert!(matches!(choose_run(Some("h".into()), "h"), IndexRun::UpToDate));
    assert!(matches!(choose_run(Some("g".into()), "h"), IndexRun::Since(s) if s == "g"));
    assert_eq!(listed_files("a\n\nb\n"), ["a", "b"]);
    assert_eq!(log_limit(0), None);
    assert_eq!(log_limit(25).as_deref(), Some("-n25"));
    assert_eq!(marked_sha(" abc\n"), "abc");
    assert_eq!(
        build_hook_script("/r", "repo:x", "http://h"),
        "#!/bin/sh\n# Added by engram-index install-hook\nengram-index reindex /r --namespace repo:x --url http://h\n"
    );
    assert_eq!(parse_diff("A\ta.rs\nD\tb.rs\nbroken\n").len(), 2);
    assert!(should_index("src/a.rs", 10) && !should_index("dist/a.min.js", 10));
    assert!(GIT_LOG_FORMAT.starts_with('\u{01}'));
    assert!(parse_git_log("\u{01}only\u{1f}two\u{1e}").is_empty());
}

#[test]
fn a_run_is_tallied() {
    let mut t = Tally::new();
    for o in [Outcome::Indexed, Outcome::Indexed, Outcome::Skipped] {
        t.count(o);
    }
    assert!(t.verdict("files").is_ok());
    t.count(Outcome::Failed);
    assert!(t.report(4).contains('4'));
    assert!(t.history_report(4).contains('2'));
    assert!(t.verdict("files").is_err());
}

#[test]
fn a_run_goes_well_unless_a_change_failed() {
    let (failed, indexed, skipped) = (Outcome::Failed, Outcome::Indexed, Outcome::Skipped);
    for outcomes in [vec![], vec![skipped], vec![indexed, failed, skipped], vec![failed, failed], vec![indexed; 9]] {
        let t = Tally::of(&outcomes);
        assert_eq!(t.ok + t.skipped + t.failed, outcomes.len());
        assert_eq!(t.failed, outcomes.iter().filter(|o| **o == failed).count());
        assert_eq!(t.skipped, outcomes.iter().filter(|o| **o == skipped).count());
        assert_eq!(t.verdict(" failed").is_ok(), !outcomes.contains(&failed));
    }
    assert_eq!(Tally::of(&vec![failed, indexed, failed]).verdict(" file(s) failed").unwrap_err(), "2 file(s) failed");
}

// --- The tools ---

#[test]
fn bodies_and_addresses_of_the_tools() {
    assert_eq!(endpoint("http://h", "repo:x", "query"), "http://h/v1/repo:x/query");
    assert_eq!(history_namespace("repo:x"), "repo:x:history");
    assert_eq!(value(&query_body("a \"b\"", 5))["query"], "a \"b\"");
    assert_eq!(value(&module_body("src", "q", 2))["path"], "src");
    let t = value(&trace_body(Some("f"), None, 3, 7));
    assert_eq!((&t["sym"], &t["max_depth"], &t["limit"]), (&Value::from("f"), &Value::from(3), &Value::from(7)));
    assert!(t.get("path").is_none());
    assert_eq!(trace_suffix("callees"), "code/graph/callees");
    assert_eq!(trace_suffix("sideways"), "code/graph/callers");
    assert_eq!(reply_error(200, "200 OK", ""), None);
    assert_eq!(reply_error(500, "500 Internal Server Error", "boom").as_deref(), Some("HTTP 500 Internal Server Error: boom"));
}

#[test]
fn numbers_are_shown_with_two_decimals() {
    assert_eq!(hundredths_of(0), "0.00");
    assert_eq!(hundredths_of(7), "0.07");
    assert_eq!(hundredths_of(123), "1.23");
    assert_eq!(hundredths_of(-5), "-0.05");
    assert_eq!(hundredths_of(i64::MIN), "-92233720368547758.08");
    let d = Digest { tree_key: "global".into(), label: None, body: "b".into(), score: 50 };
    assert!(format_digests(&vec![d]).contains("global"));
    let c = CommitHit { key: "commit:1".into(), title: "t".into(), author: "a".into(), score: 50 };
    assert!(format_commits(&vec![c]).contains("commit:1"));
}

struct Broken;

impl CodeSearch for Broken {
    fn search(&self, _query: &str, _limit: usize) -> Result<Vec<CodeHit>, String> {
        Err("no service".into())
    }
    fn get_architecture(&self, _query: &str, _limit: usize) -> Result<Vec<Digest>, String> {
        Err("no service".into())
    }
    fn get_module(&self, _path: &str, _query: &str, _limit: usize) -> Result<Vec<Digest>, String> {
        Err("no service".into())
    }
    fn why(&self, _query: &str, _limit: usize) -> Result<Vec<CommitHit>, String> {
        Err("no service".into())
    }
    fn get_conventions(&self) -> Result<String, String> {
        Err("no service".into())
    }
    fn trace_symbol(
        &self,
        _sym: Option<&str>,
        _path: Option<&str>,
        _direction: &str,
        _depth: usize,
        _limit: usize,
    ) -> Result<Vec<TraceHop>, String> {
        Err("no service".into())
    }
}

#[test]
fn requests_are_answered_by_their_kind() {
    let ask = |req: &str| dispatch(req, &Broken).map(|r| value(&r));
    assert!(ask("{\"method\":\"notifications/initialized\"}").is_none());
    let unknown = ask("{\"id\":\"x\",\"method\":\"nothing\"}").unwrap();
    assert_eq!(unknown["id"], "x");
    assert_eq!(unknown["error"]["code"], -32601);
    let tool = ask("{\"id\":3,\"method\":\"tools/call\",\"params\":{\"name\":\"nothing\"}}").unwrap();
    assert_eq!(tool["error"]["code"], -32602);
    let failed =
        ask("{\"id\":4,\"method\":\"tools/call\",\"params\":{\"name\":\"search_code\",\"arguments\":{\"query\":\"q\"}}}").unwrap();
    assert_eq!(failed["id"], 4);
    assert!(failed["result"]["content"][0]["text"].as_str().unwrap().contains("no service"));
    assert_eq!(failed["result"]["isError"], true);
    assert!(handle_message("", &Broken).is_none());
    assert_eq!(value(&list_tools())["tools"].as_array().unwrap().len(), 7);
}

#[test]
fn a_fractional_id_is_read_once() {
    for i in 1..400u64 {
        let raw = format!(" {{\"id\":0.{}e-{},\"method\":\"x\"}}\n", i * 9_007_199_254_740_881, i % 290);
        let id = value(raw.trim())["id"].to_string();
        let reply = handle_message(&raw, &Broken).unwrap();
        assert!(reply.contains(&format!("\"id\":{id}")), "{raw} {reply}");
    }
}

#[test]
fn calls_are_decoded_with_their_defaults() {
    match decode_call("{\"name\":\"search_code\",\"arguments\":{\"query\":\"q\",\"limit\":3}}") {
        ToolCall::Search { query, limit } => assert_eq!((query.as_str(), limit), ("q", 3)),
        other => panic!("{other:?}"),
    }
    match decode_call("{\"name\":\"trace_symbol\",\"arguments\":{\"sym\":\"f\"}}") {
        ToolCall::Trace { sym, path, .. } => assert_eq!((sym.as_deref(), path), (Some("f"), None)),
        other => panic!("{other:?}"),
    }
    assert!(matches!(decode_call("{\"name\":\"get_conventions\"}"), ToolCall::Conventions));
    assert!(matches!(decode_call("{}"), ToolCall::Unknown));
    assert_eq!(value(&write_tool_result(&Ok("x".into())))["content"][0]["text"], "x");
}
