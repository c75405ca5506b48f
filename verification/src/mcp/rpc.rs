//! JSON-RPC: a message is decoded, the tool it calls is asked, and the reply is written.

use super::format::{
    commits_text, digests_text, format_commits, format_digests, format_hits, format_trace, hits_text,
    trace_text,
};
use super::types::{CodeHit, CodeSearch, CommitHit, Digest, TraceHop};
use crate::json::{
    json_as_str, json_as_u64, json_compact, json_get, json_member, json_number, json_parse, json_quote,
    json_quoted, json_string,
};
use crate::text::{cat2, contains_text, has_suffix, lemma_holds_middle, opt_text, same, trim, trim_text};
use vstd::prelude::*;

verus! {

// ---------------------------------------------------------------------------------------------
// The tools.
// ---------------------------------------------------------------------------------------------

pub const SEARCH_CODE_TOOL: &'static str = "{\"description\":\"Semantic + keyword code search over an indexed repo. Returns ranked path:line locations with snippets.\",\"inputSchema\":{\"properties\":{\"limit\":{\"description\":\"max results (default 10)\",\"type\":\"integer\"},\"query\":{\"description\":\"natural-language or keyword query\",\"type\":\"string\"}},\"required\":[\"query\"],\"type\":\"object\"},\"name\":\"search_code\"}";

pub const GET_ARCHITECTURE_TOOL: &'static str = "{\"description\":\"High-level architecture digest of the indexed repo (the consolidated 'global' summary tree). An optional query focuses it.\",\"inputSchema\":{\"properties\":{\"limit\":{\"description\":\"max digest nodes (default 10)\",\"type\":\"integer\"},\"query\":{\"description\":\"optional focus query\",\"type\":\"string\"}},\"type\":\"object\"},\"name\":\"get_architecture\"}";

pub const GET_MODULE_TOOL: &'static str = "{\"description\":\"Architecture digest for one directory/module. 'path' is a repo-relative directory (e.g. 'src/state').\",\"inputSchema\":{\"properties\":{\"limit\":{\"description\":\"max digest nodes (default 10)\",\"type\":\"integer\"},\"path\":{\"description\":\"repo-relative directory (the module key)\",\"type\":\"string\"},\"query\":{\"description\":\"optional focus query\",\"type\":\"string\"}},\"required\":[\"path\"],\"type\":\"object\"},\"name\":\"get_module\"}";

pub const WHY_TOOL: &'static str = "{\"description\":\"Find the commits that explain WHY code is the way it is — searches the repo's git history (commit messages + changed files) for the most relevant commits.\",\"inputSchema\":{\"properties\":{\"limit\":{\"description\":\"max commits (default 10)\",\"type\":\"integer\"},\"query\":{\"description\":\"natural-language question about why/when something changed\",\"type\":\"string\"}},\"required\":[\"query\"],\"type\":\"object\"},\"name\":\"why\"}";

pub const FIND_SYMBOL_TOOL: &'static str = "{\"description\":\"Locate where a symbol (function/type/class/etc.) is defined or used in the indexed code.\",\"inputSchema\":{\"properties\":{\"limit\":{\"description\":\"max results (default 10)\",\"type\":\"integer\"},\"name\":{\"description\":\"symbol name, e.g. 'process_doc'\",\"type\":\"string\"}},\"required\":[\"name\"],\"type\":\"object\"},\"name\":\"find_symbol\"}";

pub const GET_CONVENTIONS_TOOL: &'static str = "{\"description\":\"Read the project's extracted coding conventions (formatting, patterns, config-derived rules).\",\"inputSchema\":{\"properties\":{},\"type\":\"object\"},\"name\":\"get_conventions\"}";

pub const TRACE_SYMBOL_TOOL: &'static str = "{\"description\":\"Walk the code call-graph to find callers of a symbol or callees from a file. Uses statically extracted edges (Rust/C/C++ in v1). Supply either `sym` (e.g. 'ingest_document') or `path` (a file path); `direction` controls which way to walk.\",\"inputSchema\":{\"properties\":{\"depth\":{\"description\":\"max hops to traverse (default 2)\",\"type\":\"integer\"},\"direction\":{\"description\":\"'callers' (default) or 'callees'\",\"type\":\"string\"},\"limit\":{\"description\":\"max results (default 20)\",\"type\":\"integer\"},\"path\":{\"description\":\"repo-relative file path to look up callees from, e.g. 'src/api.rs'\",\"type\":\"string\"},\"sym\":{\"description\":\"symbol name to look up callers for, e.g. 'process_doc'\",\"type\":\"string\"}},\"type\":\"object\"},\"name\":\"trace_symbol\"}";

/// What `initialize` answers.
pub const SERVER_INFO: &'static str = "{\"capabilities\":{\"tools\":{}},\"protocolVersion\":\"2024-11-05\",\"serverInfo\":{\"name\":\"engram-mcp\",\"version\":\"0.1.0\"}}";

/// What `tools/list` answers: every tool.
pub open spec fn tool_list() -> Seq<char> {
    "{\"tools\":["@ + SEARCH_CODE_TOOL@ + ","@ + GET_ARCHITECTURE_TOOL@ + ","@ + GET_MODULE_TOOL@
        + ","@ + WHY_TOOL@ + ","@ + FIND_SYMBOL_TOOL@ + ","@ + GET_CONVENTIONS_TOOL@ + ","@
        + TRACE_SYMBOL_TOOL@ + "]}"@
}

pub fn list_tools() -> (r: String)
    ensures
        r@ == tool_list(),
{
    let mut s = cat2("{\"tools\":[", SEARCH_CODE_TOOL);
    s.push_str(",");
    s.push_str(GET_ARCHITECTURE_TOOL);
    s.push_str(",");
    s.push_str(GET_MODULE_TOOL);
    s.push_str(",");
    s.push_str(WHY_TOOL);
    s.push_str(",");
    s.push_str(FIND_SYMBOL_TOOL);
    s.push_str(",");
    s.push_str(GET_CONVENTIONS_TOOL);
    s.push_str(",");
    s.push_str(TRACE_SYMBOL_TOOL);
    s.push_str("]}");
    s
}

// ---------------------------------------------------------------------------------------------
// Decoding a call.
// ---------------------------------------------------------------------------------------------

/// A call of a tool.
#[derive(Debug)]
pub enum ToolCall {
    Search { query: String, limit: usize },
    Architecture { query: String, limit: usize },
    Module { path: String, query: String, limit: usize },
    Why { query: String, limit: usize },
    Conventions,
    Trace { sym: Option<String>, path: Option<String>, direction: String, depth: usize, limit: usize },
    Unknown,
}

/// What a call of a tool says.
#[verifier::ext_equal]
pub enum Call {
    Search { query: Seq<char>, limit: usize },
    Architecture { query: Seq<char>, limit: usize },
    Module { path: Seq<char>, query: Seq<char>, limit: usize },
    Why { query: Seq<char>, limit: usize },
    Conventions,
    Trace {
        sym: Option<Seq<char>>,
        path: Option<Seq<char>>,
        direction: Seq<char>,
        depth: usize,
        limit: usize,
    },
    Unknown,
}

impl View for ToolCall {
    type V = Call;

    open spec fn view(&self) -> Call {
        match self {
            ToolCall::Search { query, limit } => Call::Search { query: query@, limit: *limit },
            ToolCall::Architecture { query, limit } => Call::Architecture {
                query: query@,
                limit: *limit,
            },
            ToolCall::Module { path, query, limit } => Call::Module {
                path: path@,
                query: query@,
                limit: *limit,
            },
            ToolCall::Why { query, limit } => Call::Why { query: query@, limit: *limit },
            ToolCall::Conventions => Call::Conventions,
            ToolCall::Trace { sym, path, direction, depth, limit } => Call::Trace {
                sym: opt_text(*sym),
                path: opt_text(*path),
                direction: direction@,
                depth: *depth,
                limit: *limit,
            },
            ToolCall::Unknown => Call::Unknown,
        }
    }
}

/// A member that is a string, if there is one.
pub open spec fn string_member(json: Seq<char>, field: Seq<char>) -> Option<Seq<char>> {
    match json_member(json, field) {
        Some(v) => json_string(v),
        None => None,
    }
}

/// A member that is a string, or a default.
pub open spec fn string_or(json: Seq<char>, field: Seq<char>, default: Seq<char>) -> Seq<char> {
    match string_member(json, field) {
        Some(s) => s,
        None => default,
    }
}

/// A member that is a number without a sign, or a default.
pub open spec fn number_or(json: Seq<char>, field: Seq<char>, default: usize) -> usize {
    match json_member(json, field) {
        Some(v) => match json_number(v) {
            Some(n) => n as usize,
            None => default,
        },
        None => default,
    }
}

/// A member of an object, or `null`.
pub open spec fn member_or_null(json: Seq<char>, field: Seq<char>) -> Seq<char> {
    match json_member(json, field) {
        Some(v) => v,
        None => "null"@,
    }
}

fn read_string(json: &str, field: &str) -> (r: Option<String>)
    ensures
        opt_text(r) == string_member(json@, field@),
{
    match json_get(json, field) {
        Some(v) => json_as_str(v.as_str()),
        None => None,
    }
}

fn read_string_or(json: &str, field: &str, default: &str) -> (r: String)
    ensures
        r@ == string_or(json@, field@, default@),
{
    match read_string(json, field) {
        Some(s) => s,
        None => default.to_owned(),
    }
}

fn read_number_or(json: &str, field: &str, default: usize) -> (r: usize)
    ensures
        r == number_or(json@, field@, default),
{
    match json_get(json, field) {
        Some(v) => match json_as_u64(v.as_str()) {
            Some(n) => n as usize,
            None => default,
        },
        None => default,
    }
}

fn read_member_or_null(json: &str, field: &str) -> (r: String)
    ensures
        r@ == member_or_null(json@, field@),
{
    match json_get(json, field) {
        Some(v) => v,
        None => "null".to_owned(),
    }
}

/// The call that the parameters of `tools/call` say: the tool's name, and its arguments or their
/// defaults.
pub open spec fn call_of(params: Seq<char>) -> Call {
    let name = string_or(params, "name"@, ""@);
    let args = member_or_null(params, "arguments"@);
    let query = string_or(args, "query"@, ""@);
    let limit = number_or(args, "limit"@, 10);
    if name == "search_code"@ {
        Call::Search { query, limit }
    } else if name == "get_architecture"@ {
        Call::Architecture { query, limit }
    } else if name == "get_module"@ {
        Call::Module { path: string_or(args, "path"@, ""@), query, limit }
    } else if name == "why"@ {
        Call::Why { query, limit }
    } else if name == "find_symbol"@ {
        Call::Search { query: string_or(args, "name"@, ""@), limit }
    } else if name == "get_conventions"@ {
        Call::Conventions
    } else if name == "trace_symbol"@ {
        Call::Trace {
            sym: string_member(args, "sym"@),
            path: string_member(args, "path"@),
            direction: string_or(args, "direction"@, "callers"@),
            depth: number_or(args, "depth"@, 2),
            limit: number_or(args, "limit"@, 20),
        }
    } else {
        Call::Unknown
    }
}

/// Decodes the parameters of `tools/call`.
pub fn decode_call(params: &str) -> (r: ToolCall)
    ensures
        r@ == call_of(params@),
{
    let name = read_string_or(params, "name", "");
    let args = read_member_or_null(params, "arguments");
    let query = read_string_or(args.as_str(), "query", "");
    let limit: usize = read_number_or(args.as_str(), "limit", 10);
    let n = name.as_str();
    if same(n, "search_code") {
        ToolCall::Search { query, limit }
    } else if same(n, "get_architecture") {
        ToolCall::Architecture { query, limit }
    } else if same(n, "get_module") {
        ToolCall::Module { path: read_string_or(args.as_str(), "path", ""), query, limit }
    } else if same(n, "why") {
        ToolCall::Why { query, limit }
    } else if same(n, "find_symbol") {
        ToolCall::Search { query: read_string_or(args.as_str(), "name", ""), limit }
    } else if same(n, "get_conventions") {
        ToolCall::Conventions
    } else if same(n, "trace_symbol") {
        ToolCall::Trace {
            sym: read_string(args.as_str(), "sym"),
            path: read_string(args.as_str(), "path"),
            direction: read_string_or(args.as_str(), "direction", "callers"),
            depth: read_number_or(args.as_str(), "depth", 2),
            limit: read_number_or(args.as_str(), "limit", 20),
        }
    } else {
        ToolCall::Unknown
    }
}

// ---------------------------------------------------------------------------------------------
// Replies.
// ---------------------------------------------------------------------------------------------

/// A reply with a result, which is JSON already, as is the id.
pub open spec fn result_reply(id: Seq<char>, result: Seq<char>) -> Seq<char> {
    "{\"id\":"@ + id + ",\"jsonrpc\":\"2.0\",\"result\":"@ + result + "}"@
}

/// A reply with an error.
pub open spec fn error_reply(id: Seq<char>, error: Seq<char>) -> Seq<char> {
    "{\"error\":"@ + error + ",\"id\":"@ + id + ",\"jsonrpc\":\"2.0\"}"@
}

pub const UNKNOWN_TOOL: &'static str = "{\"code\":-32602,\"message\":\"Unknown tool\"}";

pub const UNKNOWN_METHOD: &'static str = "{\"code\":-32601,\"message\":\"Method not found\"}";

/// The result of a tool: its text, or the text of its error, which is marked as one.
pub open spec fn tool_result(out: Result<Seq<char>, Seq<char>>) -> Seq<char> {
    match out {
        Ok(text) => "{\"content\":[{\"text\":"@ + json_quoted(text)
            + ",\"type\":\"text\"}],\"isError\":false}"@,
        Err(text) => "{\"content\":[{\"text\":"@ + json_quoted(text)
            + ",\"type\":\"text\"}],\"isError\":true}"@,
    }
}

pub open spec fn outcome_view(r: Result<String, String>) -> Result<Seq<char>, Seq<char>> {
    match r {
        Ok(t) => Ok(t@),
        Err(e) => Err(e@),
    }
}

pub fn write_result_reply(id: &str, result: &str) -> (r: String)
    ensures
        r@ == result_reply(id@, result@),
{
    let mut s = cat2("{\"id\":", id);
    s.push_str(",\"jsonrpc\":\"2.0\",\"result\":");
    s.push_str(result);
    s.push_str("}");
    s
}

pub fn write_error_reply(id: &str, error: &str) -> (r: String)
    ensures
        r@ == error_reply(id@, error@),
{
    let mut s = cat2("{\"error\":", error);
    s.push_str(",\"id\":");
    s.push_str(id);
    s.push_str(",\"jsonrpc\":\"2.0\"}");
    s
}

pub fn write_tool_result(out: &Result<String, String>) -> (r: String)
    ensures
        r@ == tool_result(outcome_view(*out)),
{
    match out {
        Ok(text) => {
            let mut s = cat2("{\"content\":[{\"text\":", json_quote(text.as_str()).as_str());
            s.push_str(",\"type\":\"text\"}],\"isError\":false}");
            s
        },
        Err(text) => {
            let mut s = cat2("{\"content\":[{\"text\":", json_quote(text.as_str()).as_str());
            s.push_str(",\"type\":\"text\"}],\"isError\":true}");
            s
        },
    }
}

// ---------------------------------------------------------------------------------------------
// Asking the backend.
// ---------------------------------------------------------------------------------------------

pub open spec fn hits_outcome(r: Result<Vec<CodeHit>, String>) -> Result<Seq<char>, Seq<char>> {
    match r {
        Ok(h) => Ok(hits_text(h@)),
        Err(e) => Err(e@),
    }
}

pub open spec fn digests_outcome(r: Result<Vec<Digest>, String>) -> Result<Seq<char>, Seq<char>> {
    match r {
        Ok(d) => Ok(digests_text(d@)),
        Err(e) => Err(e@),
    }
}

pub open spec fn commits_outcome(r: Result<Vec<CommitHit>, String>) -> Result<Seq<char>, Seq<char>> {
    match r {
        Ok(c) => Ok(commits_text(c@)),
        Err(e) => Err(e@),
    }
}

pub open spec fn trace_outcome(r: Result<Vec<TraceHop>, String>) -> Result<Seq<char>, Seq<char>> {
    match r {
        Ok(h) => Ok(trace_text(h@)),
        Err(e) => Err(e@),
    }
}

/// Whether an argument that may be missing is this text.
pub open spec fn is_arg(arg: Option<&str>, text: Option<Seq<char>>) -> bool {
    match (arg, text) {
        (Some(a), Some(t)) => a@ == t,
        (None, None) => true,
        _ => false,
    }
}

/// Whether a tool may have this outcome: the backend was asked for what the call says, and its
/// answer is shown as text.
pub open spec fn tool_gives<B: CodeSearch>(
    backend: &B,
    call: Call,
    out: Result<Seq<char>, Seq<char>>,
) -> bool {
    match call {
        Call::Search { query, limit } => exists|q: &str, r: Result<Vec<CodeHit>, String>|
            q@ == query && #[trigger] call_ensures(B::search, (backend, q, limit), r) && out
                == hits_outcome(r),
        Call::Architecture { query, limit } => exists|q: &str, r: Result<Vec<Digest>, String>|
            q@ == query && #[trigger] call_ensures(B::get_architecture, (backend, q, limit), r) && out
                == digests_outcome(r),
        Call::Module { path, query, limit } => exists|
            p: &str,
            q: &str,
            r: Result<Vec<Digest>, String>,
        |
            p@ == path && q@ == query && #[trigger] call_ensures(
                B::get_module,
                (backend, p, q, limit),
                r,
            ) && out == digests_outcome(r),
        Call::Why { query, limit } => exists|q: &str, r: Result<Vec<CommitHit>, String>|
            q@ == query && #[trigger] call_ensures(B::why, (backend, q, limit), r) && out
                == commits_outcome(r),
        Call::Conventions => exists|r: Result<String, String>| #[trigger]
            call_ensures(B::get_conventions, (backend,), r) && out == outcome_view(r),
        Call::Trace { sym, path, direction, depth, limit } => exists|
            s: Option<&str>,
            p: Option<&str>,
            d: &str,
            r: Result<Vec<TraceHop>, String>,
        |
            is_arg(s, sym) && is_arg(p, path) && d@ == direction && #[trigger] call_ensures(
                B::trace_symbol,
                (backend, s, p, d, depth, limit),
                r,
            ) && out == trace_outcome(r),
        Call::Unknown => false,
    }
}

fn opt_as_str(o: &Option<String>) -> (r: Option<&str>)
    ensures
        is_arg(r, opt_text(*o)),
{
    match o {
        Some(s) => Some(s.as_str()),
        None => None,
    }
}

/// Asks the backend for what a call says; an unknown tool is not asked.
fn call_tool<B: CodeSearch>(backend: &B, call: &ToolCall) -> (r: Option<Result<String, String>>)
    ensures
        match r {
            Some(out) => tool_gives(backend, call@, outcome_view(out)),
            None => call@ is Unknown,
        },
{
    match call {
        ToolCall::Search { query, limit } => {
            let q = query.as_str();
            let answer = backend.search(q, *limit);
            let ghost given = answer;
            assert(call_ensures(B::search, (backend, q, *limit), given));
            let out: Result<String, String> = match answer {
                Ok(h) => Ok(format_hits(&h)),
                Err(e) => Err(e),
            };
            assert(outcome_view(out) == hits_outcome(given));
            Some(out)
        },
        ToolCall::Architecture { query, limit } => {
            let q = query.as_str();
            let answer = backend.get_architecture(q, *limit);
            let ghost given = answer;
            assert(call_ensures(B::get_architecture, (backend, q, *limit), given));
            let out: Result<String, String> = match answer {
                Ok(d) => Ok(format_digests(&d)),
                Err(e) => Err(e),
            };
            assert(outcome_view(out) == digests_outcome(given));
            Some(out)
        },
        ToolCall::Module { path, query, limit } => {
            let p = path.as_str();
            let q = query.as_str();
            let answer = backend.get_module(p, q, *limit);
            let ghost given = answer;
            assert(call_ensures(B::get_module, (backend, p, q, *limit), given));
            let out: Result<String, String> = match answer {
                Ok(d) => Ok(format_digests(&d)),
                Err(e) => Err(e),
            };
            assert(outcome_view(out) == digests_outcome(given));
            Some(out)
        },
        ToolCall::Why { query, limit } => {
            let q = query.as_str();
            let answer = backend.why(q, *limit);
            let ghost given = answer;
            assert(call_ensures(B::why, (backend, q, *limit), given));
            let out: Result<String, String> = match answer {
                Ok(c) => Ok(format_commits(&c)),
                Err(e) => Err(e),
            };
            assert(outcome_view(out) == commits_outcome(given));
            Some(out)
        },
        ToolCall::Conventions => {
            let out = backend.get_conventions();
            assert(call_ensures(B::get_conventions, (backend,), out));
            Some(out)
        },
        ToolCall::Trace { sym, path, direction, depth, limit } => {
            let s = opt_as_str(sym);
            let p = opt_as_str(path);
            let d = direction.as_str();
            let answer = backend.trace_symbol(s, p, d, *depth, *limit);
            let ghost given = answer;
            assert(call_ensures(B::trace_symbol, (backend, s, p, d, *depth, *limit), given));
            let out: Result<String, String> = match answer {
                Ok(h) => Ok(format_trace(&h)),
                Err(e) => Err(e),
            };
            assert(outcome_view(out) == trace_outcome(given));
            Some(out)
        },
        ToolCall::Unknown => None,
    }
}

/// Whether a request may have this reply: `initialize` and `tools/list` have one each,
/// `tools/call` has what the tool gives or, for an unknown tool, an error, and any other method
/// has an error.
pub open spec fn reply_gives<B: CodeSearch>(
    backend: &B,
    id: Seq<char>,
    method: Seq<char>,
    params: Seq<char>,
    reply: Seq<char>,
) -> bool {
    if method == "initialize"@ {
        reply == result_reply(id, SERVER_INFO@)
    } else if method == "tools/list"@ {
        reply == result_reply(id, tool_list())
    } else if method == "tools/call"@ {
        if call_of(params) is Unknown {
            reply == error_reply(id, UNKNOWN_TOOL@)
        } else {
            exists|out: Result<Seq<char>, Seq<char>>| #[trigger]
                tool_gives(backend, call_of(params), out) && reply == result_reply(
                    id,
                    tool_result(out),
                )
        }
    } else {
        reply == error_reply(id, UNKNOWN_METHOD@)
    }
}

/// Law: a reply carries the id of its request and is either a result or an error, and it is an error
/// only for an unknown method or an unknown tool: what goes wrong in a tool is the tool's result.
pub proof fn law_reply_carries_id<B: CodeSearch>(
    backend: &B,
    id: Seq<char>,
    method: Seq<char>,
    params: Seq<char>,
    reply: Seq<char>,
)
    requires
        reply_gives(backend, id, method, params, reply),
    ensures
        (exists|body: Seq<char>| reply == #[trigger] result_reply(id, body)) || reply == error_reply(
            id,
            UNKNOWN_METHOD@,
        ) || reply == error_reply(id, UNKNOWN_TOOL@),
        method == "tools/call"@ && !(call_of(params) is Unknown) ==> exists|
            out: Result<Seq<char>, Seq<char>>,
        |
            reply == result_reply(id, #[trigger] tool_result(out)),
{
    if method == "tools/call"@ && !(call_of(params) is Unknown) {
        reveal_strlit("initialize");
        reveal_strlit("tools/list");
        reveal_strlit("tools/call");
        assert("tools/call"@[6] == 'c');
        assert("tools/list"@[6] == 'l');
        assert("initialize"@[6] == 'l');
        let out = choose|out: Result<Seq<char>, Seq<char>>| #[trigger]
            tool_gives(backend, call_of(params), out) && reply == result_reply(id, tool_result(out));
        assert(reply == result_reply(id, tool_result(out)));
    }
}

/// Handles one JSON-RPC message. A message without an id is a notification and has no reply;
/// every other message has one, with its id.
pub fn dispatch<B: CodeSearch>(req: &str, backend: &B) -> (r: Option<String>)
    ensures
        match json_member(req@, "id"@) {
            None => r is None,
            Some(id) => r is Some && reply_gives(
                backend,
                id,
                string_or(req@, "method"@, ""@),
                member_or_null(req@, "params"@),
                r->0@,
            ),
        },
{
    let id = match json_get(req, "id") {
        Some(id) => id,
        None => {
            return None;
        },
    };
    let method = read_string_or(req, "method", "");
    let m = method.as_str();
    let i = id.as_str();
    if same(m, "initialize") {
        return Some(write_result_reply(i, SERVER_INFO));
    }
    if same(m, "tools/list") {
        let tools = list_tools();
        return Some(write_result_reply(i, tools.as_str()));
    }
    if same(m, "tools/call") {
        let params = read_member_or_null(req, "params");
        let call = decode_call(params.as_str());
        return match call_tool(backend, &call) {
            None => Some(write_error_reply(i, UNKNOWN_TOOL)),
            Some(out) => {
                let result = write_tool_result(&out);
                let reply = write_result_reply(i, result.as_str());
                assert(tool_gives(backend, call_of(params@), outcome_view(out)));
                Some(reply)
            },
        };
    }
    Some(write_error_reply(i, UNKNOWN_METHOD))
}

/// Handles one message as it comes over the wire, without the white space around it. What is no JSON
/// has no reply.
pub fn handle_message<B: CodeSearch>(raw: &str, backend: &B) -> (r: Option<String>)
    ensures
        match json_compact(trim_text(raw@)) {
            None => r is None,
            Some(_) => match json_member(trim_text(raw@), "id"@) {
                None => r is None,
                Some(id) => r is Some && reply_gives(
                    backend,
                    id,
                    string_or(trim_text(raw@), "method"@, ""@),
                    member_or_null(trim_text(raw@), "params"@),
                    r->0@,
                ),
            },
        },
{
    let req = trim(raw);
    match json_parse(req.as_str()) {
        None => None,
        Some(_) => dispatch(req.as_str(), backend),
    }
}

/// Law: each tool is asked for what its arguments say: a search and a question about history with the query, a
/// symbol by its name, a module by its path, and a trace with what it is to start from. Ten results are asked
/// for where no limit is given, twenty of a trace, which goes two steps deep and towards the callers unless it
/// is told otherwise.
pub proof fn law_tool_calls(params: Seq<char>, args: Seq<char>, name: Seq<char>)
    requires
        string_member(params, "name"@) == Some(name),
        json_member(params, "arguments"@) == Some(args),
    ensures
        name == "search_code"@ && string_member(args, "query"@) is Some ==> asks_for(
            call_of(params),
            string_member(args, "query"@)->0,
        ) && call_of(params) is Search,
        name == "find_symbol"@ && string_member(args, "name"@) is Some ==> asks_for(
            call_of(params),
            string_member(args, "name"@)->0,
        ) && call_of(params) is Search,
        name == "why"@ && string_member(args, "query"@) is Some ==> asks_for(
            call_of(params),
            string_member(args, "query"@)->0,
        ) && call_of(params) is Why,
        name == "get_architecture"@ && string_member(args, "query"@) is Some ==> asks_for(
            call_of(params),
            string_member(args, "query"@)->0,
        ) && call_of(params) is Architecture,
        name == "get_module"@ && string_member(args, "path"@) is Some ==> call_of(params) is Module
            && call_of(params)->Module_path == string_member(args, "path"@)->0,
        name == "get_conventions"@ ==> call_of(params) is Conventions,
        name == "trace_symbol"@ ==> call_of(params) is Trace && call_of(params)->sym == string_member(
            args,
            "sym"@,
        ) && call_of(params)->Trace_path == string_member(args, "path"@) && (string_member(args, "direction"@) is Some
            ==> call_of(params)->direction == string_member(args, "direction"@)->0) && (json_member(
            args,
            "direction"@,
        ) is None ==> call_of(params)->direction == "callers"@) && (json_member(args, "depth"@) is None
            ==> call_of(params)->depth == 2) && (json_member(args, "limit"@) is None
            ==> call_of(params)->Trace_limit == 20),
        json_member(args, "limit"@) is None ==> (call_of(params) is Search ==> call_of(params)->Search_limit == 10)
            && (call_of(params) is Why ==> call_of(params)->Why_limit == 10) && (call_of(params) is Architecture
            ==> call_of(params)->Architecture_limit == 10) && (call_of(params) is Module
            ==> call_of(params)->Module_limit == 10),
{
    lemma_tool_names();
}

/// Whether a call asks for a text.
pub open spec fn asks_for(call: Call, query: Seq<char>) -> bool {
    match call {
        Call::Search { query: q, .. } => q == query,
        Call::Architecture { query: q, .. } => q == query,
        Call::Module { query: q, .. } => q == query,
        Call::Why { query: q, .. } => q == query,
        _ => false,
    }
}

proof fn lemma_tool_names()
    ensures
        "search_code"@.len() == 11,
        "find_symbol"@.len() == 11,
        "search_code"@[0] != "find_symbol"@[0],
        "why"@.len() == 3,
        "get_architecture"@.len() == 16,
        "get_module"@.len() == 10,
        "get_conventions"@.len() == 15,
        "trace_symbol"@.len() == 12,
{
    reveal_strlit("search_code");
    reveal_strlit("find_symbol");
    reveal_strlit("why");
    reveal_strlit("get_architecture");
    reveal_strlit("get_module");
    reveal_strlit("get_conventions");
    reveal_strlit("trace_symbol");
}

/// Law: the result of a tool holds the text of its outcome as a string, and is marked as an error exactly where
/// the outcome is one.
pub proof fn law_tool_result(text: Seq<char>)
    ensures
        contains_text(tool_result(Ok(text)), "\"text\":"@ + json_quoted(text)),
        contains_text(tool_result(Err(text)), "\"text\":"@ + json_quoted(text)),
        has_suffix(tool_result(Ok(text)), "\"isError\":false}"@),
        has_suffix(tool_result(Err(text)), "\"isError\":true}"@),
{
    let front = "{\"content\":[{\"text\":"@;
    let quoted = json_quoted(text);
    let good = ",\"type\":\"text\"}],\"isError\":false}"@;
    let bad = ",\"type\":\"text\"}],\"isError\":true}"@;
    reveal_strlit("{\"content\":[{\"text\":");
    reveal_strlit("\"text\":");
    reveal_strlit(",\"type\":\"text\"}],\"isError\":false}");
    reveal_strlit(",\"type\":\"text\"}],\"isError\":true}");
    reveal_strlit("\"isError\":false}");
    reveal_strlit("\"isError\":true}");
    let head = front.take(13);
    let mark = "\"text\":"@;
    assert(front =~= head + mark);
    let ok = tool_result(Ok(text));
    let err = tool_result(Err(text));
    lemma_holds_middle(head, mark + quoted, good);
    assert(head + (mark + quoted) + good =~= ok);
    lemma_holds_middle(head, mark + quoted, bad);
    assert(head + (mark + quoted) + bad =~= err);
    let g = "\"isError\":false}"@;
    let b = "\"isError\":true}"@;
    assert(good.subrange(good.len() - g.len(), good.len() as int) =~= g);
    assert(bad.subrange(bad.len() - b.len(), bad.len() as int) =~= b);
    assert(ok.subrange(ok.len() - g.len(), ok.len() as int) =~= good.subrange(
        good.len() - g.len(),
        good.len() as int,
    ));
    assert(err.subrange(err.len() - b.len(), err.len() as int) =~= bad.subrange(
        bad.len() - b.len(),
        bad.len() as int,
    ));
}

/// Law: a reply holds the id of its request and what it replies, and says whether that is a result or an error.
pub proof fn law_replies(id: Seq<char>, what: Seq<char>)
    ensures
        contains_text(result_reply(id, what), "\"id\":"@ + id),
        contains_text(result_reply(id, what), "\"result\":"@ + what),
        contains_text(error_reply(id, what), "\"id\":"@ + id),
        contains_text(error_reply(id, what), "\"error\":"@ + what),
{
    reveal_strlit("{\"id\":");
    reveal_strlit("\"id\":");
    reveal_strlit(",\"id\":");
    reveal_strlit(",\"jsonrpc\":\"2.0\",\"result\":");
    reveal_strlit("\"result\":");
    reveal_strlit("{\"error\":");
    reveal_strlit("\"error\":");
    let ok = result_reply(id, what);
    let err = error_reply(id, what);
    let mid = ",\"jsonrpc\":\"2.0\",\"result\":"@;
    let key = "\"result\":"@;
    let before = mid.take(mid.len() - key.len());
    assert(mid =~= before + key);
    lemma_holds_middle(seq!['{'], "\"id\":"@ + id, mid + what + "}"@);
    assert(seq!['{'] + ("\"id\":"@ + id) + (mid + what + "}"@) =~= ok);
    lemma_holds_middle("{\"id\":"@ + id + before, key + what, "}"@);
    assert("{\"id\":"@ + id + before + (key + what) + "}"@ =~= ok);
    let end = ",\"jsonrpc\":\"2.0\"}"@;
    lemma_holds_middle(seq!['{'], "\"error\":"@ + what, ",\"id\":"@ + id + end);
    assert(seq!['{'] + ("\"error\":"@ + what) + (",\"id\":"@ + id + end) =~= err);
    lemma_holds_middle("{\"error\":"@ + what + seq![','], "\"id\":"@ + id, end);
    assert("{\"error\":"@ + what + seq![','] + ("\"id\":"@ + id) + end =~= err);
}

} // verus!
