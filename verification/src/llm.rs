//! The language model that folds items into summaries, and the audit of its calls.

use crate::json::{json_quote, json_quoted};
use crate::model::Error;
use crate::store::random_id;
use crate::text::{
    cat2, contains_text, decimal, decimal_of, lemma_holds_middle, opt_text, same, signed_decimal,
    signed_decimal_of, texts, words_of, words_text,
};
use vstd::prelude::*;

verus! {

/// The outcome of one summarize call.
#[derive(Debug, Clone)]
pub struct ChatResult {
    pub text: String,
    pub usage_total: Option<u64>,
}

/// A chat-completion client. Its only use is to fold items into one summary; an error is handed
/// on, so that the caller can fall back.
pub trait ChatClient {
    fn summarize(&self, prompt: &str, max_tokens: usize) -> Result<ChatResult, Error>;
}

/// Whether asking a client with this prompt may have this outcome.
pub open spec fn chat_gives<C: ChatClient>(
    chat: &C,
    prompt: Seq<char>,
    max_tokens: usize,
    r: Result<ChatResult, Error>,
) -> bool {
    exists|p: &str| p@ == prompt && #[trigger] call_ensures(C::summarize, (chat, p, max_tokens), r)
}

// ---------------------------------------------------------------------------------------------
// Asking a gateway.
// ---------------------------------------------------------------------------------------------

/// The address at which a gateway completes chats.
pub fn chat_url(base_url: &str) -> (r: String)
    ensures
        r@ == base_url@ + "/v1/chat/completions"@,
{
    cat2(base_url, "/v1/chat/completions")
}

/// The body that asks a model for a summary, as JSON.
pub open spec fn chat_request_text(model: Seq<char>, prompt: Seq<char>, max_tokens: nat) -> Seq<char> {
    "{\"model\":"@ + json_quoted(model) + ",\"messages\":[{\"role\":\"user\",\"content\":"@ + json_quoted(
        prompt,
    ) + "}],\"max_tokens\":"@ + decimal(max_tokens) + "}"@
}

/// The body that asks a model for a summary.
pub fn chat_request(model: &str, prompt: &str, max_tokens: usize) -> (r: String)
    ensures
        r@ == chat_request_text(model@, prompt@, max_tokens as nat),
{
    let mut b = cat2("{\"model\":", json_quote(model).as_str());
    b.push_str(",\"messages\":[{\"role\":\"user\",\"content\":");
    b.push_str(json_quote(prompt).as_str());
    b.push_str("}],\"max_tokens\":");
    b.push_str(decimal_of(max_tokens as u64).as_str());
    b.push_str("}");
    b
}

/// What a reply says of the tokens that were used.
#[derive(Debug, Clone, Copy)]
pub struct ChatUsage {
    pub total_tokens: Option<u64>,
}

/// A reply of a gateway: what the message of each choice says, and the usage if there is one.
#[derive(Debug, Clone)]
pub struct ChatReply {
    pub choices: Vec<String>,
    pub usage: Option<ChatUsage>,
}

/// The tokens that a reply says were used.
pub open spec fn tokens_used(reply: ChatReply) -> Option<u64> {
    match reply.usage {
        Some(u) => u.total_tokens,
        None => None,
    }
}

/// What comes of a call: the text of the reply's first choice and the tokens that were used. A reply
/// without choices is an error, and so is a call that got none, with the message that says why.
pub fn chat_reply(reply: Result<ChatReply, String>) -> (r: Result<ChatResult, Error>)
    ensures
        match reply {
            Err(why) => match r {
                Err(Error::Llm(m)) => m@ == why@,
                _ => false,
            },
            Ok(reply) => if reply.choices@.len() == 0 {
                match r {
                    Err(Error::Llm(m)) => m@ == "no choices"@,
                    _ => false,
                }
            } else {
                r is Ok && r->Ok_0.text@ == reply.choices@[0]@ && r->Ok_0.usage_total == tokens_used(
                    reply,
                )
            },
        },
{
    match reply {
        Err(why) => Err(Error::Llm(why)),
        Ok(reply) => {
            if reply.choices.len() == 0 {
                return Err(Error::Llm("no choices".to_owned()));
            }
            let usage_total: Option<u64> = match reply.usage {
                Some(u) => u.total_tokens,
                None => None,
            };
            Ok(ChatResult { text: reply.choices[0].clone(), usage_total })
        },
    }
}

// ---------------------------------------------------------------------------------------------
// A client for trials.
// ---------------------------------------------------------------------------------------------

/// A client without a network: it always gives the same reply, or always fails.
pub struct FakeChatClient {
    reply: Option<String>,
}

impl FakeChatClient {
    /// The reply that the client gives.
    pub closed spec fn reply(self) -> Option<Seq<char>> {
        opt_text(self.reply)
    }

    /// A client that always gives this reply.
    pub fn ok(reply: &str) -> (r: Self)
        ensures
            r.reply() == Some(reply@),
    {
        FakeChatClient { reply: Some(reply.to_owned()) }
    }

    /// A client that always fails.
    pub fn failing() -> (r: Self)
        ensures
            r.reply() is None,
    {
        FakeChatClient { reply: None }
    }
}

impl ChatClient for FakeChatClient {
    fn summarize(&self, prompt: &str, max_tokens: usize) -> (r: Result<ChatResult, Error>)
        ensures
            match (self.reply(), r) {
                (Some(t), Ok(c)) => c.text@ == t && c.usage_total is Some && c.usage_total->0
                    == words_text(prompt@).len(),
                (None, Err(Error::Llm(m))) => m@ == "fake failure"@,
                _ => false,
            },
    {
        match &self.reply {
            Some(t) => {
                let words = words_of(prompt);
                assert(texts(words@).len() == words@.len());
                Ok(ChatResult { text: t.clone(), usage_total: Some(words.len() as u64) })
            },
            None => Err(Error::Llm("fake failure".to_owned())),
        }
    }
}

// ---------------------------------------------------------------------------------------------
// Audit.
// ---------------------------------------------------------------------------------------------

/// One event of the audit: a call of the language model.
#[derive(Debug, Clone)]
pub struct AuditEvent {
    pub event_id: String,
    pub app: String,
    pub persona: Option<String>,
    pub ts: String,
    pub received_at: String,
    pub model_id: String,
    pub session_id: Option<String>,
    pub run_id: Option<String>,
    pub turn: Option<i64>,
    pub query_text: Option<String>,
    pub retrieved_count: i64,
    pub usage_total: Option<u64>,
    pub raw_json: String,
    pub provider: String,
    pub op: String,
    pub latency_ms: i64,
    pub status: String,
}

/// What an audited call is about.
pub struct SummarizeCtx<'a> {
    pub namespace: &'a str,
    pub tree_kind: &'a str,
    pub tree_key: &'a str,
    pub level: i64,
    pub model: &'a str,
    pub provider: &'a str,
}

/// What an audited call is about.
#[verifier::ext_equal]
pub struct SummaryCall {
    pub namespace: Seq<char>,
    pub tree_kind: Seq<char>,
    pub tree_key: Seq<char>,
    pub level: i64,
    pub model: Seq<char>,
    pub provider: Seq<char>,
}

impl View for SummarizeCtx<'_> {
    type V = SummaryCall;

    open spec fn view(&self) -> SummaryCall {
        SummaryCall {
            namespace: self.namespace@,
            tree_kind: self.tree_kind@,
            tree_key: self.tree_key@,
            level: self.level,
            model: self.model@,
            provider: self.provider@,
        }
    }
}

/// The present time in RFC 3339: `time::OffsetDateTime::now_utc` and its formatting. Nothing is
/// promised of the result.
#[verifier::external_body]
fn now_rfc3339() -> String {
    time::OffsetDateTime::now_utc().format(
        &time::format_description::well_known::Rfc3339,
    ).unwrap_or_default()
}

/// A point in time, as std holds it.
#[verifier::external_type_specification]
#[verifier::external_body]
pub struct ExInstant(std::time::Instant);

/// `std::time::Instant::now`. Nothing is promised of the result.
#[verifier::external_body]
fn start_clock() -> std::time::Instant {
    std::time::Instant::now()
}

/// `std::time::Instant::elapsed`. Nothing is promised of the result.
#[verifier::external_body]
fn elapsed(start: &std::time::Instant) -> std::time::Duration {
    start.elapsed()
}

/// `std::time::Duration::as_millis`. Nothing is promised of the result: a span of time is opaque
/// here.
#[verifier::external_body]
fn millis(span: &std::time::Duration) -> u128 {
    span.as_millis()
}

/// Whether an event records this outcome of this call.
pub open spec fn event_records(
    e: AuditEvent,
    ctx: SummaryCall,
    res: Result<ChatResult, Error>,
    latency_ms: i64,
    id: Seq<char>,
    now: Seq<char>,
) -> bool {
    &&& e.event_id@ == "engram:"@ + id
    &&& e.app@ == "engram"@
    &&& opt_text(e.persona) == Some(ctx.namespace)
    &&& e.ts@ == now
    &&& e.received_at@ == now
    &&& e.model_id@ == ctx.model
    &&& e.session_id is None
    &&& e.run_id is None
    &&& e.turn is None
    &&& opt_text(e.query_text) == Some(
        ctx.tree_kind + ":"@ + ctx.tree_key + "@L"@ + signed_decimal(ctx.level as int),
    )
    &&& e.retrieved_count == 0
    &&& e.raw_json@ == "{}"@
    &&& e.provider@ == ctx.provider
    &&& e.op@ == "chat"@
    &&& e.latency_ms == latency_ms
    &&& match res {
        Ok(r) => e.status@ == "ok"@ && e.usage_total == r.usage_total,
        Err(_) => e.status@ == "error"@ && e.usage_total is None,
    }
}

/// Whether a sink was told of this outcome of this call.
pub open spec fn recorded<A: AuditSink>(audit: &A, ctx: SummaryCall, res: Result<ChatResult, Error>) -> bool {
    exists|e: AuditEvent, latency_ms: i64, id: Seq<char>, now: Seq<char>|
        #![trigger call_ensures(A::emit, (audit, &e), ()), event_records(e, ctx, res, latency_ms, id, now)]
        event_records(e, ctx, res, latency_ms, id, now) && call_ensures(A::emit, (audit, &e), ())
}

impl AuditEvent {
    /// The event of a call, at the present time and under a fresh random id.
    pub fn build(ctx: &SummarizeCtx<'_>, res: &Result<ChatResult, Error>, latency_ms: i64) -> (e: Self)
        ensures
            exists|id: Seq<char>, now: Seq<char>| #[trigger]
                event_records(e, ctx@, *res, latency_ms, id, now),
    {
        let now = now_rfc3339();
        let id = random_id();
        AuditEvent::build_at(ctx, res, latency_ms, id.as_str(), now.as_str())
    }

    /// The event of a call, at the given time and under the given id.
    pub fn build_at(
        ctx: &SummarizeCtx<'_>,
        res: &Result<ChatResult, Error>,
        latency_ms: i64,
        id: &str,
        now: &str,
    ) -> (e: Self)
        ensures
            event_records(e, ctx@, *res, latency_ms, id@, now@),
    {
        let (status, usage_total): (&str, Option<u64>) = match res {
            Ok(r) => ("ok", r.usage_total),
            Err(_) => ("error", None),
        };
        let mut query = cat2(ctx.tree_kind, ":");
        query.push_str(ctx.tree_key);
        query.push_str("@L");
        query.push_str(signed_decimal_of(ctx.level).as_str());
        AuditEvent {
            event_id: cat2("engram:", id),
            app: "engram".to_owned(),
            persona: Some(ctx.namespace.to_owned()),
            ts: now.to_owned(),
            received_at: now.to_owned(),
            model_id: ctx.model.to_owned(),
            session_id: None,
            run_id: None,
            turn: None,
            query_text: Some(query),
            retrieved_count: 0,
            usage_total,
            raw_json: "{}".to_owned(),
            provider: ctx.provider.to_owned(),
            op: "chat".to_owned(),
            latency_ms,
            status: status.to_owned(),
        }
    }
}

/// Where audit events go. A sink never fails its caller.
pub trait AuditSink {
    fn emit(&self, ev: &AuditEvent);
}

/// A sink that drops every event.
pub struct NullAuditSink;

impl AuditSink for NullAuditSink {
    fn emit(&self, ev: &AuditEvent) {
    }
}

/// Calls the language model and hands the outcome on, after one event (whether the call went
/// well or not) was emitted.
pub fn summarize_audited<C: ChatClient, A: AuditSink>(
    chat: &C,
    audit: &A,
    ctx: &SummarizeCtx<'_>,
    prompt: &str,
    max_tokens: usize,
) -> (r: Result<ChatResult, Error>)
    ensures
        call_ensures(C::summarize, (chat, prompt, max_tokens), r),
        recorded(audit, ctx@, r),
{
    let start = start_clock();
    let res = chat.summarize(prompt, max_tokens);
    let wide: u128 = millis(&elapsed(&start));
    let latency_ms: i64 = if wide > 0x7fff_ffff_ffff_ffff {
        0x7fff_ffff_ffff_ffff
    } else {
        wide as i64
    };
    let e = AuditEvent::build(ctx, &res, latency_ms);
    audit.emit(&e);
    proof {
        let (id, now) = choose|id: Seq<char>, now: Seq<char>| #[trigger]
            event_records(e, ctx@, res, latency_ms, id, now);
        assert(event_records(e, ctx@, res, latency_ms, id, now));
        assert(call_ensures(A::emit, (audit, &e), ()));
    }
    res
}

/// Law: what a model is asked holds the prompt as a string, the name of the model and the most tokens that the
/// answer may have.
pub proof fn law_chat_request(model: Seq<char>, prompt: Seq<char>, max_tokens: nat)
    ensures
        contains_text(chat_request_text(model, prompt, max_tokens), "\"model\":"@ + json_quoted(model)),
        contains_text(chat_request_text(model, prompt, max_tokens), "\"content\":"@ + json_quoted(prompt)),
        contains_text(chat_request_text(model, prompt, max_tokens), "\"max_tokens\":"@ + decimal(max_tokens)),
{
    reveal_strlit("{\"model\":");
    reveal_strlit("\"model\":");
    reveal_strlit(",\"messages\":[{\"role\":\"user\",\"content\":");
    reveal_strlit("\"content\":");
    reveal_strlit("}],\"max_tokens\":");
    reveal_strlit("\"max_tokens\":");
    let all = chat_request_text(model, prompt, max_tokens);
    let m = "\"model\":"@ + json_quoted(model);
    let mid = ",\"messages\":[{\"role\":\"user\",\"content\":"@;
    let key = "\"content\":"@;
    let before = mid.take(mid.len() - key.len());
    let end = "}],\"max_tokens\":"@;
    let cap = "\"max_tokens\":"@;
    let close = end.take(end.len() - cap.len());
    assert(mid =~= before + key);
    assert(end =~= close + cap);
    lemma_holds_middle(seq!['{'], m, mid + json_quoted(prompt) + end + decimal(max_tokens) + "}"@);
    assert(seq!['{'] + m + (mid + json_quoted(prompt) + end + decimal(max_tokens) + "}"@) =~= all);
    lemma_holds_middle(seq!['{'] + m + before, key + json_quoted(prompt), end + decimal(max_tokens) + "}"@);
    assert(seq!['{'] + m + before + (key + json_quoted(prompt)) + (end + decimal(max_tokens) + "}"@) =~= all);
    lemma_holds_middle(
        seq!['{'] + m + mid + json_quoted(prompt) + close,
        cap + decimal(max_tokens),
        "}"@,
    );
    assert(seq!['{'] + m + mid + json_quoted(prompt) + close + (cap + decimal(max_tokens)) + "}"@ =~= all);
}

} // verus!
