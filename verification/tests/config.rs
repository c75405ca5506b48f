use engram::config::{code_graph_extract, code_graph_max_depth, Config};


#[test]
fn defaults_when_unset() {
    let c = Config::from_vars(|_| None);
    assert_eq!(c.db_path, "engram.db");
    assert_eq!(c.bind_addr, "127.0.0.1:8088");
    assert_eq!(c.auth_token, "dev-token");
    assert_eq!(c.ollama_url, "http://127.0.0.1:11434");
    assert_eq!(c.embed_model, "bge-m3");
    assert_eq!(c.embed_dim, 1024);
    assert_eq!(c.embed_timeout_secs, 30);
}

#[test]
fn reads_overrides() {
    let c = Config::from_vars(|k| match k {
        "ENGRAM_DB" => Some("/tmp/x.db".into()),
        "ENGRAM_TOKEN" => Some("secret".into()),
        _ => None,
    });
    assert_eq!(c.db_path, "/tmp/x.db");
    assert_eq!(c.auth_token, "secret");
    assert_eq!(c.bind_addr, "127.0.0.1:8088");
}

#[test]
fn plan4_defaults_and_overrides() {
    let c = Config::from_vars(|_| None);
    assert_eq!(c.gateway_url, "http://127.0.0.1:4000");
    assert_eq!(c.embed_url, "http://127.0.0.1:4000"); // defaults to gateway_url
    assert_eq!(c.llm_model, "qwen3");
    assert_eq!(c.llm_provider, "ollama");
    assert_eq!(c.audit_url, "http://127.0.0.1:8383");
    assert_eq!(c.jobs_workers, 2);
    assert_eq!(c.jobs_max_attempts, 5);
    assert_eq!(c.seal_input_token_budget, 50_000);
    assert_eq!(c.seal_fanout, 10);
    assert_eq!(c.seal_flush_age_micros, 604_800_000_000);
    assert!(c.gateway_key.is_empty());
    assert!(c.vault_dir.is_none());
    assert!(!c.embed_fallback);
    assert!(!c.consolidate_code);

    let c2 = Config::from_vars(|k| match k {
        "ENGRAM_LLM_MODEL" => Some("deepseek-chat".into()),
        "ENGRAM_EMBED_URL" => Some("http://127.0.0.1:11434".into()),
        "ENGRAM_SEAL_FANOUT" => Some("3".into()),
        "ENGRAM_VAULT_DIR" => Some("/tmp/v".into()),
        "ENGRAM_CONSOLIDATE_CODE" => Some("true".into()),
        _ => None,
    });
    assert_eq!(c2.llm_model, "deepseek-chat");
    assert_eq!(c2.embed_url, "http://127.0.0.1:11434"); // decoupled from gateway_url
    assert_eq!(c2.gateway_url, "http://127.0.0.1:4000"); // LLM URL stays default
    assert_eq!(c2.seal_fanout, 3);
    assert_eq!(c2.vault_dir.as_deref(), Some("/tmp/v"));
    assert!(c2.consolidate_code);
}

#[test]
fn code_graph_extract_defaults_false() {
    let a = code_graph_extract(None);
    let b = code_graph_extract(None);
    assert_eq!(a, b);
    assert!(!a);
}

#[test]
fn code_graph_max_depth_defaults_4() {
    let a = code_graph_max_depth(None);
    let b = code_graph_max_depth(None);
    assert_eq!(a, b);
    assert_eq!(a, 4_usize);
}
