use engram::llm::{
    summarize_audited, AuditEvent, AuditSink, ChatClient, ChatResult, FakeChatClient, NullAuditSink, SummarizeCtx,
};
use std::sync::Mutex;


#[test]
fn fake_chat_is_deterministic() {
    let c = FakeChatClient::ok("SUMMARY");
    let r = c.summarize("fold these items", 100).unwrap();
    assert_eq!(r.text, "SUMMARY");
    assert_eq!(r.usage_total, Some(3));

    let err = FakeChatClient::failing();
    assert!(err.summarize("x", 10).is_err());
}

struct Capture(Mutex<Vec<AuditEvent>>);
impl AuditSink for Capture {
    fn emit(&self, ev: &AuditEvent) {
        self.0.lock().unwrap().push(ev.clone());
    }
}

fn ctx() -> SummarizeCtx<'static> {
    SummarizeCtx {
        namespace: "alice",
        tree_kind: "source",
        tree_key: "a",
        level: 0,
        model: "qwen3",
        provider: "ollama",
    }
}

#[test]
fn summarize_audited_emits_ok_event_and_returns_text() {
    let chat = FakeChatClient::ok("S");
    let sink = Capture(Mutex::new(Vec::new()));
    let r = summarize_audited(&chat, &sink, &ctx(), "a b c", 100).unwrap();
    assert_eq!(r.text, "S");
    let evs = sink.0.lock().unwrap();
    assert_eq!(evs.len(), 1);
    assert_eq!(evs[0].app, "engram");
    assert_eq!(evs[0].persona.as_deref(), Some("alice"));
    assert_eq!(evs[0].model_id, "qwen3");
    assert_eq!(evs[0].provider, "ollama");
    assert_eq!(evs[0].status, "ok");
    assert_eq!(evs[0].usage_total, Some(3));
    assert_eq!(evs[0].query_text.as_deref(), Some("source:a@L0"));
    assert!(evs[0].ts.contains('T')); // RFC3339
}

#[test]
fn summarize_audited_emits_error_event_and_propagates() {
    let chat = FakeChatClient::failing();
    let sink = Capture(Mutex::new(Vec::new()));
    let r = summarize_audited(&chat, &sink, &ctx(), "x", 10);
    assert!(r.is_err());
    let evs = sink.0.lock().unwrap();
    assert_eq!(evs.len(), 1);
    assert_eq!(evs[0].status, "error");
    assert_eq!(evs[0].usage_total, None);
}

#[test]
fn null_sink_is_noop() {
    NullAuditSink.emit(&AuditEvent::build(
        &ctx(),
        &Ok(ChatResult {
            text: "x".into(),
            usage_total: None,
        }),
        1,
    ));
}
