use engram::mcp::{
    dispatch, format_hits, format_trace, handle_message, CodeHit, CodeSearch, CommitHit, Digest, TraceHop,
};
use serde_json::Value;

fn reply<B: CodeSearch>(req: &str, backend: &B) -> Value {
    serde_json::from_str(&dispatch(req, backend).unwrap()).unwrap()
}


// --- Fake backends ---

struct FakeSearch(Vec<CodeHit>);

impl CodeSearch for FakeSearch {
    fn search(&self, _query: &str, _limit: usize) -> Result<Vec<CodeHit>, String> {
        Ok(self.0.clone())
    }
    fn get_architecture(&self, _q: &str, _l: usize) -> Result<Vec<Digest>, String> {
        Ok(vec![Digest {
            tree_key: "global".into(),
            label: Some("auth · search · store".into()),
            body: "global architecture digest".into(),
            score: 0,
        }])
    }
    fn get_module(&self, path: &str, _q: &str, _l: usize) -> Result<Vec<Digest>, String> {
        Ok(vec![Digest {
            tree_key: path.into(),
            label: Some("module digest".into()),
            body: format!("digest for {path}"),
            score: 0,
        }])
    }
    fn why(&self, _q: &str, _l: usize) -> Result<Vec<CommitHit>, String> {
        Ok(vec![CommitHit {
            key: "commit:abc123".into(),
            title: "fix: take the write lock".into(),
            author: "ada@x.io".into(),
            score: 0,
        }])
    }
    fn get_conventions(&self) -> Result<String, String> {
        Ok("- format with rustfmt (evidence: rustfmt.toml)".into())
    }
    fn trace_symbol(
        &self,
        _sym: Option<&str>,
        _path: Option<&str>,
        _direction: &str,
        _depth: usize,
        _limit: usize,
    ) -> Result<Vec<TraceHop>, String> {
        Ok(vec![])
    }
}

struct ErrorSearch(String);

impl CodeSearch for ErrorSearch {
    fn search(&self, _query: &str, _limit: usize) -> Result<Vec<CodeHit>, String> {
        Err(self.0.clone())
    }
    fn get_architecture(&self, _q: &str, _l: usize) -> Result<Vec<Digest>, String> {
        Err(self.0.clone())
    }
    fn get_module(&self, _p: &str, _q: &str, _l: usize) -> Result<Vec<Digest>, String> {
        Err(self.0.clone())
    }
    fn why(&self, _q: &str, _l: usize) -> Result<Vec<CommitHit>, String> {
        Err(self.0.clone())
    }
    fn get_conventions(&self) -> Result<String, String> {
        Err(self.0.clone())
    }
    fn trace_symbol(
        &self,
        _sym: Option<&str>,
        _path: Option<&str>,
        _direction: &str,
        _depth: usize,
        _limit: usize,
    ) -> Result<Vec<TraceHop>, String> {
        Err(self.0.clone())
    }
}

// A separate test double that returns one non-empty hop, for the formatting test.
struct FakeTracer;
impl CodeSearch for FakeTracer {
    fn search(&self, _: &str, _: usize) -> Result<Vec<CodeHit>, String> {
        Ok(vec![])
    }
    fn get_architecture(&self, _: &str, _: usize) -> Result<Vec<Digest>, String> {
        Ok(vec![])
    }
    fn get_module(&self, _: &str, _: &str, _: usize) -> Result<Vec<Digest>, String> {
        Ok(vec![])
    }
    fn why(&self, _: &str, _: usize) -> Result<Vec<CommitHit>, String> {
        Ok(vec![])
    }
    fn get_conventions(&self) -> Result<String, String> {
        Ok(String::new())
    }
    fn trace_symbol(
        &self,
        _: Option<&str>,
        _: Option<&str>,
        _: &str,
        _: usize,
        _: usize,
    ) -> Result<Vec<TraceHop>, String> {
        Ok(vec![TraceHop {
            path: "src/ingest.rs".into(),
            document_id: "doc-abc".into(),
            sym: "sym:ingest_document".into(),
            edge_kind: "CALLS".into(),
            confidence: 95,
            depth: 1,
        }])
    }
}

fn fake_hit(path: &str, line_start: i64, line_end: i64, snippet: &str, score: i64) -> CodeHit {
    CodeHit {
        path: path.to_string(),
        line_start: Some(line_start),
        line_end: Some(line_end),
        snippet: snippet.to_string(),
        score,
    }
}

fn no_hits() -> FakeSearch {
    FakeSearch(vec![])
}

// --- dispatch tests ---

#[test]
fn initialize_returns_protocol_and_serverinfo() {
    let req = r#"{ "jsonrpc": "2.0", "id": 1, "method": "initialize", "params": {} }"#;
    let resp = reply(req, &no_hits());
    let result = &resp["result"];
    assert_eq!(result["protocolVersion"], "2024-11-05");
    assert_eq!(result["serverInfo"]["name"], "engram-mcp");
}

#[test]
fn tools_list_includes_search_code() {
    let req = r#"{ "jsonrpc": "2.0", "id": 2, "method": "tools/list", "params": {} }"#;
    let resp = reply(req, &no_hits());
    let tools = &resp["result"]["tools"];
    assert!(tools.is_array());
    let tool = &tools[0];
    assert_eq!(tool["name"], "search_code");
    let required = &tool["inputSchema"]["required"];
    assert!(
        required.as_array().unwrap().iter().any(|v| v == "query"),
        "inputSchema.required must contain 'query'"
    );
}

#[test]
fn tools_call_search_code_formats_hits() {
    let hits = vec![
        fake_hit("src/foo.rs", 10, 20, "fn foo() { }", 92),
        fake_hit("src/bar.rs", 5, 7, "fn bar() { }", 75),
    ];
    let req = r#"{ "jsonrpc": "2.0", "id": 3, "method": "tools/call", "params": { "name": "search_code", "arguments": { "query": "foo bar", "limit": 5 } } }"#;
    let resp = reply(req, &FakeSearch(hits));
    assert_eq!(resp["result"]["isError"], false);
    let text = resp["result"]["content"][0]["text"].as_str().unwrap();
    assert!(
        text.contains("src/foo.rs:10-20"),
        "should contain first path:line"
    );
    assert!(
        text.contains("src/bar.rs:5-7"),
        "should contain second path:line"
    );
}

#[test]
fn tools_list_includes_all_three_tools() {
    let req = r#"{ "jsonrpc": "2.0", "id": 2, "method": "tools/list", "params": {} }"#;
    let resp = reply(req, &no_hits());
    let names: Vec<&str> = resp["result"]["tools"]
        .as_array()
        .unwrap()
        .iter()
        .map(|t| t["name"].as_str().unwrap())
        .collect();
    assert!(names.contains(&"search_code"));
    assert!(names.contains(&"get_architecture"));
    assert!(names.contains(&"get_module"));
    assert!(names.contains(&"why"));
    assert!(names.contains(&"find_symbol"));
    assert!(names.contains(&"get_conventions"));
}

#[test]
fn tools_call_get_conventions_returns_text() {
    let req = r#"{ "jsonrpc": "2.0", "id": 11, "method": "tools/call", "params": { "name": "get_conventions", "arguments": {} } }"#;
    let resp = reply(req, &no_hits());
    assert_eq!(resp["result"]["isError"], false);
    let text = resp["result"]["content"][0]["text"].as_str().unwrap();
    assert!(text.contains("rustfmt"));
}

#[test]
fn tools_call_why_formats_commits() {
    let req = r#"{ "jsonrpc": "2.0", "id": 9, "method": "tools/call", "params": { "name": "why", "arguments": { "query": "why the write lock" } } }"#;
    let resp = reply(req, &no_hits());
    assert_eq!(resp["result"]["isError"], false);
    let text = resp["result"]["content"][0]["text"].as_str().unwrap();
    assert!(text.contains("commit:abc123"));
    assert!(text.contains("fix: take the write lock"));
}

#[test]
fn tools_call_find_symbol_uses_code_search() {
    let hits = vec![fake_hit(
        "src/tree.rs",
        218,
        264,
        "fn process_doc() {}",
        90,
    )];
    let req = r#"{ "jsonrpc": "2.0", "id": 10, "method": "tools/call", "params": { "name": "find_symbol", "arguments": { "name": "process_doc" } } }"#;
    let resp = reply(req, &FakeSearch(hits));
    assert_eq!(resp["result"]["isError"], false);
    let text = resp["result"]["content"][0]["text"].as_str().unwrap();
    assert!(text.contains("src/tree.rs:218-264"));
}

#[test]
fn tools_call_get_architecture_formats_digest() {
    let req = r#"{ "jsonrpc": "2.0", "id": 7, "method": "tools/call", "params": { "name": "get_architecture", "arguments": {} } }"#;
    let resp = reply(req, &no_hits());
    assert_eq!(resp["result"]["isError"], false);
    let text = resp["result"]["content"][0]["text"].as_str().unwrap();
    assert!(text.contains("global architecture digest"));
}

#[test]
fn tools_call_get_module_passes_path() {
    let req = r#"{ "jsonrpc": "2.0", "id": 8, "method": "tools/call", "params": { "name": "get_module", "arguments": { "path": "src/state" } } }"#;
    let resp = reply(req, &no_hits());
    assert_eq!(resp["result"]["isError"], false);
    let text = resp["result"]["content"][0]["text"].as_str().unwrap();
    assert!(text.contains("digest for src/state"));
}

#[test]
fn trace_symbol_method_exists_on_trait() {
    // FakeSearch returns empty for trace_symbol; FakeTracer returns the stub hop.
    let fake = no_hits(); // FakeSearch(vec![])
    let hops = fake
        .trace_symbol(Some("ingest_document"), None, "callers", 2, 10)
        .unwrap();
    assert!(
        hops.is_empty(),
        "FakeSearch::trace_symbol must return empty"
    );
}

#[test]
fn format_trace_empty_returns_sentinel() {
    assert_eq!(format_trace(&vec![]), "No graph edges found.");
}

#[test]
fn format_trace_nonempty_contains_path_sym_kind_depth() {
    let hops = vec![TraceHop {
        path: "src/api.rs".into(),
        document_id: "doc-xyz".into(),
        sym: "sym:handle_ingest".into(),
        edge_kind: "CALLS".into(),
        confidence: 90,
        depth: 1,
    }];
    let s = format_trace(&hops);
    assert!(s.contains("src/api.rs"));
    assert!(s.contains("sym:handle_ingest"));
    assert!(s.contains("CALLS"));
    assert!(s.contains("depth=1"));
    assert!(s.contains("0.90"));
}

#[test]
fn tools_list_includes_all_seven_tools() {
    let req = r#"{ "jsonrpc": "2.0", "id": 2, "method": "tools/list", "params": {} }"#;
    let resp = reply(req, &no_hits());
    let tools = resp["result"]["tools"].as_array().unwrap();
    let names: Vec<&str> = tools.iter().map(|t| t["name"].as_str().unwrap()).collect();
    assert_eq!(names.len(), 7, "expected 7 tools, got {names:?}");
    assert!(names.contains(&"search_code"));
    assert!(names.contains(&"get_architecture"));
    assert!(names.contains(&"get_module"));
    assert!(names.contains(&"why"));
    assert!(names.contains(&"find_symbol"));
    assert!(names.contains(&"get_conventions"));
    assert!(names.contains(&"trace_symbol"));
}

#[test]
fn tools_call_trace_symbol_formats_hops() {
    let req = r#"{ "jsonrpc": "2.0", "id": 20, "method": "tools/call", "params": { "name": "trace_symbol", "arguments": { "sym": "ingest_document", "direction": "callers", "depth": 2, "limit": 20 } } }"#;
    let resp = reply(req, &FakeTracer);
    assert_eq!(resp["result"]["isError"], false);
    let text = resp["result"]["content"][0]["text"].as_str().unwrap();
    assert!(text.contains("src/ingest.rs"));
    assert!(text.contains("sym:ingest_document"));
    assert!(text.contains("CALLS"));
    assert!(text.contains("depth=1"));
}

#[test]
fn tools_call_trace_symbol_no_results() {
    let req = r#"{ "jsonrpc": "2.0", "id": 21, "method": "tools/call", "params": { "name": "trace_symbol", "arguments": { "sym": "nothing" } } }"#;
    let resp = reply(req, &no_hits());
    assert_eq!(resp["result"]["isError"], false);
    let text = resp["result"]["content"][0]["text"].as_str().unwrap();
    assert_eq!(text, "No graph edges found.");
}

#[test]
fn tools_call_backend_error_is_iserror() {
    let req = r#"{ "jsonrpc": "2.0", "id": 4, "method": "tools/call", "params": { "name": "search_code", "arguments": { "query": "boom" } } }"#;
    let resp = reply(req, &ErrorSearch("connection refused".into()));
    assert_eq!(resp["result"]["isError"], true);
    let text = resp["result"]["content"][0]["text"].as_str().unwrap();
    assert!(text.contains("connection refused"));
}

#[test]
fn unknown_method_returns_error() {
    let req = r#"{ "jsonrpc": "2.0", "id": 5, "method": "foo/bar", "params": {} }"#;
    let resp = reply(req, &no_hits());
    assert_eq!(resp["error"]["code"], -32601);
}

#[test]
fn handle_message_dispatches_and_serializes() {
    let out = handle_message(
        r#"{"jsonrpc":"2.0","id":1,"method":"tools/list","params":{}}"#,
        &no_hits(),
    )
    .unwrap();
    assert!(out.contains("search_code") && out.contains("get_conventions"));
    // A notification (no id) yields no response; bad JSON too.
    assert!(handle_message(r#"{"jsonrpc":"2.0","method":"x"}"#, &no_hits()).is_none());
    assert!(handle_message("not json", &no_hits()).is_none());
}

#[test]
fn notification_returns_none() {
    // notifications/initialized has no "id" field
    let req = r#"{ "jsonrpc": "2.0", "method": "notifications/initialized", "params": {} }"#;
    assert!(dispatch(req, &no_hits()).is_none());
}

#[test]
fn unknown_tool_name_returns_invalid_params_error() {
    let req = r#"{ "jsonrpc": "2.0", "id": 6, "method": "tools/call", "params": { "name": "does_not_exist", "arguments": {} } }"#;
    let resp = reply(req, &no_hits());
    assert_eq!(resp["error"]["code"], -32602);
}

// --- format_hits tests ---

#[test]
fn format_hits_empty_returns_no_results() {
    assert_eq!(format_hits(&vec![]), "No results.");
}

#[test]
fn format_hits_nonempty_contains_path_line_and_score() {
    let hits = vec![fake_hit("src/lib.rs", 1, 5, "pub fn entry()", 88)];
    let s = format_hits(&hits);
    assert!(s.contains("src/lib.rs:1-5"), "expected path:line range");
    assert!(s.contains("0.88"), "expected score");
    assert!(s.contains("pub fn entry()"), "expected snippet");
}

#[test]
fn format_hits_truncates_long_snippet() {
    let long_snippet: String = "x".repeat(500);
    let hits = vec![CodeHit {
        path: "a.rs".into(),
        line_start: None,
        line_end: None,
        snippet: long_snippet,
        score: 50,
    }];
    let s = format_hits(&hits);
    // snippet portion should be at most 400 chars
    // the line before the snippet is "a.rs  (score 0.50)\n"
    let snippet_part = s.split('\n').nth(1).unwrap_or("");
    assert!(
        snippet_part.chars().count() <= 400,
        "snippet should be truncated to 400 chars"
    );
}
