//! Settings, read from named variables. Parsing is permissive: a value that cannot be parsed
//! counts as absent.

use crate::text::{
    ascii_lower, ascii_lower_text, decimal, law_number_is_read, parse_int64, parse_nat, parse_signed,
    parse_unsigned, same,
};
use vstd::prelude::*;

verus! {

#[derive(Debug, Clone)]
pub struct Config {
    pub db_path: String,
    pub bind_addr: String,
    pub auth_token: String,
    pub ollama_url: String,
    pub embed_model: String,
    pub embed_dim: usize,
    pub embed_timeout_secs: u64,
    pub gateway_url: String,
    /// Where embeddings are asked for; the gateway unless set.
    pub embed_url: String,
    pub gateway_key: String,
    pub llm_model: String,
    pub llm_provider: String,
    pub llm_timeout_secs: u64,
    pub audit_url: String,
    pub jobs_workers: usize,
    pub jobs_poll_ms: u64,
    pub jobs_max_attempts: i64,
    pub seal_input_token_budget: usize,
    pub seal_fanout: usize,
    /// The age at which a buffer is sealed whatever its size, in microseconds.
    pub seal_flush_age_micros: u64,
    pub stale_sweep_secs: u64,
    pub max_summary_output_tokens: usize,
    pub vault_dir: Option<String>,
    /// Wrap the gateway embedder with a local one.
    pub embed_fallback: bool,
    /// Consolidate code documents too.
    pub consolidate_code: bool,
}

/// A week, in microseconds.
pub const DEFAULT_FLUSH_AGE_MICROS: u64 = 604_800_000_000;

/// Whether `v` may be what reading the variable gave.
pub open spec fn read_as<F: Fn(&str) -> Option<String>>(get: F, key: &str, v: Option<String>) -> bool {
    call_ensures(get, (key,), v)
}

/// The text of a variable, or the default.
pub open spec fn text_or(v: Option<String>, default: Seq<char>) -> Seq<char> {
    match v {
        Some(s) => s@,
        None => default,
    }
}

/// The number that a variable writes, if it is at most `max`, or the default.
pub open spec fn number_or(v: Option<String>, max: nat, default: nat) -> nat {
    match v {
        Some(s) => match parse_nat(s@, max) {
            Some(n) => n,
            None => default,
        },
        None => default,
    }
}

/// The integer that a variable writes, or the default.
pub open spec fn integer_or(v: Option<String>, default: int) -> int {
    match v {
        Some(s) => match parse_int64(s@) {
            Some(n) => n,
            None => default,
        },
        None => default,
    }
}

/// The truth value that a word stands for, in whatever case.
pub open spec fn truth_of(word: Seq<char>) -> Option<bool> {
    let w = ascii_lower_text(word);
    if w == "true"@ || w == "1"@ || w == "yes"@ || w == "on"@ {
        Some(true)
    } else if w == "false"@ || w == "0"@ || w == "no"@ || w == "off"@ {
        Some(false)
    } else {
        None
    }
}

/// The truth value of a variable, or the default.
pub open spec fn truth_or(v: Option<String>, default: bool) -> bool {
    match v {
        Some(s) => match truth_of(s@) {
            Some(b) => b,
            None => default,
        },
        None => default,
    }
}

fn or_text(v: Option<String>, default: &str) -> (r: String)
    ensures
        r@ == text_or(v, default@),
{
    match v {
        Some(s) => s,
        None => default.to_owned(),
    }
}

/// The number that a variable writes, if it is at most `max`, or the default.
pub fn env_number(v: Option<String>, max: u64, default: u64) -> (r: u64)
    requires
        default <= max,
    ensures
        r == number_or(v, max as nat, default as nat),
        r <= max,
{
    match v {
        Some(s) => match parse_unsigned(s.as_str(), max) {
            Some(n) => n,
            None => default,
        },
        None => default,
    }
}

fn env_integer(v: Option<String>, default: i64) -> (r: i64)
    ensures
        r == integer_or(v, default as int),
{
    match v {
        Some(s) => match parse_signed(s.as_str()) {
            Some(n) => n,
            None => default,
        },
        None => default,
    }
}

/// The truth value of a variable: `true`, `1`, `yes`, `on` or `false`, `0`, `no`, `off` in
/// whatever case; anything else counts as absent.
pub fn env_bool(v: Option<String>, default: bool) -> (r: bool)
    ensures
        r == truth_or(v, default),
{
    match v {
        Some(s) => {
            let w = ascii_lower(s.as_str());
            if same(w.as_str(), "true") || same(w.as_str(), "1") || same(w.as_str(), "yes") || same(
                w.as_str(),
                "on",
            ) {
                true
            } else if same(w.as_str(), "false") || same(w.as_str(), "0") || same(w.as_str(), "no")
                || same(w.as_str(), "off") {
                false
            } else {
                default
            }
        },
        None => default,
    }
}

impl Config {
    /// Reads the settings through `get`, which gives the value of a variable. The flush age is
    /// the default; its variable is a decimal fraction, which the caller reads.
    pub fn from_vars<F: Fn(&str) -> Option<String>>(get: F) -> (c: Config)
        requires
            forall|k: &str| #[trigger] call_requires(get, (k,)),
        ensures
            exists|v: Option<String>|
                read_as(get, "ENGRAM_DB", v) && c.db_path@ == text_or(v, "engram.db"@),
            exists|v: Option<String>|
                read_as(get, "ENGRAM_BIND", v) && c.bind_addr@ == text_or(v, "127.0.0.1:8088"@),
            exists|v: Option<String>|
                read_as(get, "ENGRAM_TOKEN", v) && c.auth_token@ == text_or(v, "dev-token"@),
            exists|v: Option<String>|
                read_as(get, "ENGRAM_OLLAMA_URL", v) && c.ollama_url@ == text_or(
                    v,
                    "http://127.0.0.1:11434"@,
                ),
            exists|v: Option<String>|
                read_as(get, "ENGRAM_EMBED_MODEL", v) && c.embed_model@ == text_or(v, "bge-m3"@),
            exists|v: Option<String>|
                read_as(get, "ENGRAM_EMBED_DIM", v) && c.embed_dim == number_or(
                    v,
                    usize::MAX as nat,
                    1024,
                ),
            exists|v: Option<String>|
                read_as(get, "ENGRAM_EMBED_TIMEOUT_SECS", v) && c.embed_timeout_secs == number_or(
                    v,
                    u64::MAX as nat,
                    30,
                ),
            exists|v: Option<String>|
                read_as(get, "ENGRAM_GATEWAY_URL", v) && c.gateway_url@ == text_or(
                    v,
                    "http://127.0.0.1:4000"@,
                ),
            exists|v: Option<String>, w: Option<String>|
                #![trigger read_as(get, "ENGRAM_EMBED_URL", v), read_as(get, "ENGRAM_GATEWAY_URL", w)]
                read_as(get, "ENGRAM_EMBED_URL", v) && match v {
                    Some(s) => c.embed_url@ == s@,
                    None => read_as(get, "ENGRAM_GATEWAY_URL", w) && c.embed_url@ == text_or(
                        w,
                        "http://127.0.0.1:4000"@,
                    ),
                },
            exists|v: Option<String>|
                read_as(get, "ENGRAM_GATEWAY_KEY", v) && c.gateway_key@ == text_or(v, ""@),
            exists|v: Option<String>|
                read_as(get, "ENGRAM_LLM_MODEL", v) && c.llm_model@ == text_or(v, "qwen3"@),
            exists|v: Option<String>|
                read_as(get, "ENGRAM_LLM_PROVIDER", v) && c.llm_provider@ == text_or(v, "ollama"@),
            exists|v: Option<String>|
                read_as(get, "ENGRAM_LLM_TIMEOUT_SECS", v) && c.llm_timeout_secs == number_or(
                    v,
                    u64::MAX as nat,
                    90,
                ),
            exists|v: Option<String>|
                read_as(get, "ENGRAM_AUDIT_URL", v) && c.audit_url@ == text_or(
                    v,
                    "http://127.0.0.1:8383"@,
                ),
            exists|v: Option<String>|
                read_as(get, "ENGRAM_JOBS_WORKERS", v) && c.jobs_workers == number_or(
                    v,
                    usize::MAX as nat,
                    2,
                ),
            exists|v: Option<String>|
                read_as(get, "ENGRAM_JOBS_POLL_MS", v) && c.jobs_poll_ms == number_or(
                    v,
                    u64::MAX as nat,
                    500,
                ),
            exists|v: Option<String>|
                read_as(get, "ENGRAM_JOBS_MAX_ATTEMPTS", v) && c.jobs_max_attempts == integer_or(
                    v,
                    5,
                ),
            exists|v: Option<String>|
                read_as(get, "ENGRAM_SEAL_INPUT_TOKEN_BUDGET", v) && c.seal_input_token_budget
                    == number_or(v, usize::MAX as nat, 50_000),
            exists|v: Option<String>|
                read_as(get, "ENGRAM_SEAL_FANOUT", v) && c.seal_fanout == number_or(
                    v,
                    usize::MAX as nat,
                    10,
                ),
            c.seal_flush_age_micros == DEFAULT_FLUSH_AGE_MICROS,
            exists|v: Option<String>|
                read_as(get, "ENGRAM_STALE_SWEEP_SECS", v) && c.stale_sweep_secs == number_or(
                    v,
                    u64::MAX as nat,
                    3600,
                ),
            exists|v: Option<String>|
                read_as(get, "ENGRAM_MAX_SUMMARY_OUTPUT_TOKENS", v) && c.max_summary_output_tokens
                    == number_or(v, usize::MAX as nat, 5000),
            exists|v: Option<String>|
                read_as(get, "ENGRAM_VAULT_DIR", v) && c.vault_dir == v,
            exists|v: Option<String>|
                read_as(get, "ENGRAM_EMBED_FALLBACK", v) && c.embed_fallback == truth_or(v, false),
            exists|v: Option<String>|
                read_as(get, "ENGRAM_CONSOLIDATE_CODE", v) && c.consolidate_code == truth_or(
                    v,
                    false,
                ),
    {
        let db = get("ENGRAM_DB");
        assert(read_as(get, "ENGRAM_DB", db));
        let bind = get("ENGRAM_BIND");
        assert(read_as(get, "ENGRAM_BIND", bind));
        let token = get("ENGRAM_TOKEN");
        assert(read_as(get, "ENGRAM_TOKEN", token));
        let ollama = get("ENGRAM_OLLAMA_URL");
        assert(read_as(get, "ENGRAM_OLLAMA_URL", ollama));
        let model = get("ENGRAM_EMBED_MODEL");
        assert(read_as(get, "ENGRAM_EMBED_MODEL", model));
        let dim = get("ENGRAM_EMBED_DIM");
        assert(read_as(get, "ENGRAM_EMBED_DIM", dim));
        let timeout = get("ENGRAM_EMBED_TIMEOUT_SECS");
        assert(read_as(get, "ENGRAM_EMBED_TIMEOUT_SECS", timeout));
        let gateway = get("ENGRAM_GATEWAY_URL");
        assert(read_as(get, "ENGRAM_GATEWAY_URL", gateway));
        let embed = get("ENGRAM_EMBED_URL");
        assert(read_as(get, "ENGRAM_EMBED_URL", embed));
        let gateway_again = get("ENGRAM_GATEWAY_URL");
        assert(read_as(get, "ENGRAM_GATEWAY_URL", gateway_again));
        let key = get("ENGRAM_GATEWAY_KEY");
        assert(read_as(get, "ENGRAM_GATEWAY_KEY", key));
        let llm = get("ENGRAM_LLM_MODEL");
        assert(read_as(get, "ENGRAM_LLM_MODEL", llm));
        let provider = get("ENGRAM_LLM_PROVIDER");
        assert(read_as(get, "ENGRAM_LLM_PROVIDER", provider));
        let llm_timeout = get("ENGRAM_LLM_TIMEOUT_SECS");
        assert(read_as(get, "ENGRAM_LLM_TIMEOUT_SECS", llm_timeout));
        let audit = get("ENGRAM_AUDIT_URL");
        assert(read_as(get, "ENGRAM_AUDIT_URL", audit));
        let workers = get("ENGRAM_JOBS_WORKERS");
        assert(read_as(get, "ENGRAM_JOBS_WORKERS", workers));
        let poll = get("ENGRAM_JOBS_POLL_MS");
        assert(read_as(get, "ENGRAM_JOBS_POLL_MS", poll));
        let attempts = get("ENGRAM_JOBS_MAX_ATTEMPTS");
        assert(read_as(get, "ENGRAM_JOBS_MAX_ATTEMPTS", attempts));
        let budget = get("ENGRAM_SEAL_INPUT_TOKEN_BUDGET");
        assert(read_as(get, "ENGRAM_SEAL_INPUT_TOKEN_BUDGET", budget));
        let fanout = get("ENGRAM_SEAL_FANOUT");
        assert(read_as(get, "ENGRAM_SEAL_FANOUT", fanout));
        let sweep = get("ENGRAM_STALE_SWEEP_SECS");
        assert(read_as(get, "ENGRAM_STALE_SWEEP_SECS", sweep));
        let output = get("ENGRAM_MAX_SUMMARY_OUTPUT_TOKENS");
        assert(read_as(get, "ENGRAM_MAX_SUMMARY_OUTPUT_TOKENS", output));
        let vault = get("ENGRAM_VAULT_DIR");
        assert(read_as(get, "ENGRAM_VAULT_DIR", vault));
        let fallback = get("ENGRAM_EMBED_FALLBACK");
        assert(read_as(get, "ENGRAM_EMBED_FALLBACK", fallback));
        let consolidate = get("ENGRAM_CONSOLIDATE_CODE");
        assert(read_as(get, "ENGRAM_CONSOLIDATE_CODE", consolidate));
        Config {
            db_path: or_text(db, "engram.db"),
            bind_addr: or_text(bind, "127.0.0.1:8088"),
            auth_token: or_text(token, "dev-token"),
            ollama_url: or_text(ollama, "http://127.0.0.1:11434"),
            embed_model: or_text(model, "bge-m3"),
            embed_dim: env_number(dim, usize::MAX as u64, 1024) as usize,
            embed_timeout_secs: env_number(timeout, u64::MAX, 30),
            gateway_url: or_text(gateway, "http://127.0.0.1:4000"),
            embed_url: match embed {
                Some(s) => s,
                None => or_text(gateway_again, "http://127.0.0.1:4000"),
            },
            gateway_key: or_text(key, ""),
            llm_model: or_text(llm, "qwen3"),
            llm_provider: or_text(provider, "ollama"),
            llm_timeout_secs: env_number(llm_timeout, u64::MAX, 90),
            audit_url: or_text(audit, "http://127.0.0.1:8383"),
            jobs_workers: env_number(workers, usize::MAX as u64, 2) as usize,
            jobs_poll_ms: env_number(poll, u64::MAX, 500),
            jobs_max_attempts: env_integer(attempts, 5),
            seal_input_token_budget: env_number(budget, usize::MAX as u64, 50_000) as usize,
            seal_fanout: env_number(fanout, usize::MAX as u64, 10) as usize,
            seal_flush_age_micros: DEFAULT_FLUSH_AGE_MICROS,
            stale_sweep_secs: env_number(sweep, u64::MAX, 3600),
            max_summary_output_tokens: env_number(output, usize::MAX as u64, 5000) as usize,
            vault_dir: vault,
            embed_fallback: env_bool(fallback, false),
            consolidate_code: env_bool(consolidate, false),
        }
    }
}

// ---------------------------------------------------------------------------------------------
// Switches of code ingest and code search, each by the value of its variable.
// ---------------------------------------------------------------------------------------------

/// `ENGRAM_CODE_SYMBOL_SPLIT`: whether chunks of code are split where a definition starts.
pub fn code_symbol_split(v: Option<String>) -> (r: bool)
    ensures
        r == truth_or(v, true),
{
    env_bool(v, true)
}

/// `ENGRAM_CODE_PATH_PRIOR`: whether code search favours source over documents, tests and
/// settings.
pub fn code_path_prior(v: Option<String>) -> (r: bool)
    ensures
        r == truth_or(v, true),
{
    env_bool(v, true)
}

/// `ENGRAM_CODE_TREE_SITTER`: whether code is chunked by syntax tree.
pub fn code_tree_sitter(v: Option<String>) -> (r: bool)
    ensures
        r == truth_or(v, true),
{
    env_bool(v, true)
}

/// `ENGRAM_CODE_NATIVE_PACK`: whether small C and C++ definitions are packed together.
pub fn code_native_pack(v: Option<String>) -> (r: bool)
    ensures
        r == truth_or(v, false),
{
    env_bool(v, false)
}

/// `ENGRAM_CODE_NATIVE_BUDGET`: the token budget of such packing; less than 64 counts as absent.
pub fn code_native_budget(v: Option<String>) -> (r: usize)
    ensures
        r == ({
            let n = number_or(v, usize::MAX as nat, 480);
            if n >= 64 {
                n
            } else {
                480
            }
        }),
{
    let n: usize = env_number(v, usize::MAX as u64, 480) as usize;
    if n >= 64 {
        n
    } else {
        480
    }
}

/// `ENGRAM_CODE_KEYWORD_IDF`: whether code search weighs rare words more.
pub fn code_keyword_idf(v: Option<String>) -> (r: bool)
    ensures
        r == truth_or(v, true),
{
    env_bool(v, true)
}

/// `ENGRAM_CODE_GRAPH`: whether code search favours documents that hold the symbols asked for.
pub fn code_graph(v: Option<String>) -> (r: bool)
    ensures
        r == truth_or(v, false),
{
    env_bool(v, false)
}

/// `ENGRAM_CODE_GRAPH_EXTRACT`: whether ingest extracts code-graph edges.
pub fn code_graph_extract(v: Option<String>) -> (r: bool)
    ensures
        r == truth_or(v, false),
{
    env_bool(v, false)
}

/// `ENGRAM_CODE_GRAPH_MAX_DEPTH`: how far a walk of the code graph may go; at least 1.
pub fn code_graph_max_depth(v: Option<String>) -> (r: usize)
    ensures
        r == ({
            let n = number_or(v, usize::MAX as nat, 4);
            if n >= 1 {
                n
            } else {
                1
            }
        }),
{
    let n: usize = env_number(v, usize::MAX as u64, 4) as usize;
    if n >= 1 {
        n
    } else {
        1
    }
}

/// Law: a switch is on where its word is `true`, `1`, `yes` or `on`, off where it is `false`, `0`, `no` or `off`,
/// in upper or lower case, and else as it is by default, as it is where nothing is set.
pub proof fn law_switch(word: String, default: bool)
    ensures
        truth_or(None, default) == default,
        ascii_lower_text(word@) == "true"@ || ascii_lower_text(word@) == "1"@ || ascii_lower_text(word@) == "yes"@
            || ascii_lower_text(word@) == "on"@ ==> truth_or(Some(word), default),
        ascii_lower_text(word@) == "false"@ || ascii_lower_text(word@) == "0"@ || ascii_lower_text(word@) == "no"@
            || ascii_lower_text(word@) == "off"@ ==> !truth_or(Some(word), default),
        truth_or(Some(word), true) && !truth_or(Some(word), false) <==> !(ascii_lower_text(word@) == "true"@
            || ascii_lower_text(word@) == "1"@ || ascii_lower_text(word@) == "yes"@ || ascii_lower_text(word@)
            == "on"@ || ascii_lower_text(word@) == "false"@ || ascii_lower_text(word@) == "0"@ || ascii_lower_text(
            word@,
        ) == "no"@ || ascii_lower_text(word@) == "off"@),
{
    reveal_strlit("true");
    reveal_strlit("1");
    reveal_strlit("yes");
    reveal_strlit("on");
    reveal_strlit("false");
    reveal_strlit("0");
    reveal_strlit("no");
    reveal_strlit("off");
    assert("true"@.len() == 4 && "false"@.len() == 5);
    assert("1"@.len() == 1 && "0"@.len() == 1 && "on"@.len() == 2 && "no"@.len() == 2);
    assert("yes"@.len() == 3 && "off"@.len() == 3);
    assert("1"@[0] == '1' && "0"@[0] == '0');
    assert("on"@[0] == 'o' && "no"@[0] == 'n');
    assert("yes"@[0] == 'y' && "off"@[0] == 'o');
}

/// Law: a number that is set is taken where it fits, and the default where it does not, or nothing is set.
pub proof fn law_number_set(word: String, n: nat, max: nat, default: nat)
    ensures
        number_or(None, max, default) == default,
        word@ == decimal(n) ==> number_or(Some(word), max, default) == if n <= max {
            n
        } else {
            default
        },
{
    law_number_is_read(n, max);
}

} // verus!
