//! The requests by which a backend asks the service, as addresses and JSON bodies.

use crate::json::{json_quote, json_quoted};
use crate::text::{cat2, decimal, decimal_of, same};
use vstd::prelude::*;

verus! {

/// The address of one of the service's operations on a namespace.
pub fn endpoint(url: &str, namespace: &str, suffix: &str) -> (r: String)
    ensures
        r@ == url@ + "/v1/"@ + namespace@ + "/"@ + suffix@,
{
    let mut e = cat2(url, "/v1/");
    e.push_str(namespace);
    e.push_str("/");
    e.push_str(suffix);
    e
}

/// The namespace that holds a repository's history.
pub fn history_namespace(namespace: &str) -> (r: String)
    ensures
        r@ == namespace@ + ":history"@,
{
    cat2(namespace, ":history")
}

/// The body of a search.
pub fn query_body(query: &str, limit: usize) -> (r: String)
    ensures
        r@ == "{\"limit\":"@ + decimal(limit as nat) + ",\"query\":"@ + json_quoted(query@) + "}"@,
{
    let mut b = cat2("{\"limit\":", decimal_of(limit as u64).as_str());
    b.push_str(",\"query\":");
    b.push_str(json_quote(query).as_str());
    b.push_str("}");
    b
}

/// The body of a request for a module's digest.
pub fn module_body(path: &str, query: &str, limit: usize) -> (r: String)
    ensures
        r@ == "{\"limit\":"@ + decimal(limit as nat) + ",\"path\":"@ + json_quoted(path@)
            + ",\"query\":"@ + json_quoted(query@) + "}"@,
{
    let mut b = cat2("{\"limit\":", decimal_of(limit as u64).as_str());
    b.push_str(",\"path\":");
    b.push_str(json_quote(path).as_str());
    b.push_str(",\"query\":");
    b.push_str(json_quote(query).as_str());
    b.push_str("}");
    b
}

/// The operation that walks in a direction: towards what is called, or, whatever else the
/// direction says, towards the callers.
pub fn trace_suffix(direction: &str) -> (r: String)
    ensures
        r@ == if direction@ == "callees"@ {
            "code/graph/callees"@
        } else {
            "code/graph/callers"@
        },
{
    if same(direction, "callees") {
        "code/graph/callees".to_owned()
    } else {
        "code/graph/callers".to_owned()
    }
}

/// A member of a JSON object, where there is one, with a comma before it.
pub open spec fn member_text(name: Seq<char>, value: Option<&str>) -> Seq<char> {
    match value {
        Some(v) => ",\""@ + name + "\":"@ + json_quoted(v@),
        None => Seq::empty(),
    }
}

fn write_member(name: &str, value: Option<&str>) -> (r: String)
    ensures
        r@ == member_text(name@, value),
{
    match value {
        Some(v) => {
            let mut m = cat2(",\"", name);
            m.push_str("\":");
            m.push_str(json_quote(v).as_str());
            m
        },
        None => {
            let m = String::new();
            assert(m@ =~= Seq::<char>::empty());
            m
        },
    }
}

/// The body of a walk from a symbol or from a file.
pub fn trace_body(sym: Option<&str>, path: Option<&str>, depth: usize, limit: usize) -> (r: String)
    ensures
        r@ == "{\"limit\":"@ + decimal(limit as nat) + ",\"max_depth\":"@ + decimal(depth as nat)
            + member_text("path"@, path) + member_text("sym"@, sym) + "}"@,
{
    let mut b = cat2("{\"limit\":", decimal_of(limit as u64).as_str());
    b.push_str(",\"max_depth\":");
    b.push_str(decimal_of(depth as u64).as_str());
    b.push_str(write_member("path", path).as_str());
    b.push_str(write_member("sym", sym).as_str());
    b.push_str("}");
    b
}

/// What a reply with this status means: nothing for a success, else the error that is shown.
/// `reason` is the status as text, `body` what the service said.
pub fn reply_error(status: u16, reason: &str, body: &str) -> (r: Option<String>)
    ensures
        match r {
            None => 200 <= status < 300,
            Some(e) => !(200 <= status < 300) && e@ == "HTTP "@ + reason@ + ": "@ + body@,
        },
{
    if 200 <= status && status < 300 {
        return None;
    }
    let mut e = cat2("HTTP ", reason);
    e.push_str(": ");
    e.push_str(body);
    Some(e)
}

/// What is shown where a repository has no conventions yet.
pub const NO_CONVENTIONS: &'static str = "No conventions yet — run the conventions rebuild.";

} // verus!
