use engram::conventions::{is_config_file, rebuild_architecture_digest, rebuild_conventions};
use engram::embed::HashEmbedder;
use engram::ingest::{ingest_document, IngestOptions};
use engram::llm::FakeChatClient;
use engram::model::{NewDoc, Taint};
use engram::store::Store;

fn now() -> u64 {
    1_700_000_000_000_000
}

fn opts() -> IngestOptions {
    IngestOptions { symbol_split: true, tree_sitter: true, native_budget: None, code_graph: false, min_confidence: 60 }
}


#[test]
fn is_config_file_recognizes_common_configs() {
    assert!(is_config_file("rustfmt.toml"));
    assert!(is_config_file("crates/x/.editorconfig"));
    assert!(is_config_file(".eslintrc.json"));
    assert!(is_config_file("CONTRIBUTING.md"));
    assert!(!is_config_file("src/main.rs"));
    assert!(!is_config_file("README.md"));
}

#[test]
fn rebuild_writes_conventions_doc_to_meta_ns() {
    let mut store = Store::new();
    let e = HashEmbedder::new(32);
    // Ingest a config file + a source file into the code namespace.
    for (k, c) in [
        ("rustfmt.toml", "max_width = 100\n"),
        ("src/main.rs", "fn main() {}"),
    ] {
        let new = NewDoc {
            key: k.into(),
            title: k.into(),
            content: c.into(),
            author: "code".into(),
            taint: Taint::Internal,
            meta: Some("{\"kind\":\"file\"}".into()),
        };
        ingest_document(&mut store, &e, "repo:x", &new, &opts(), now()).unwrap();
    }
    let chat =
        FakeChatClient::ok("- format with rustfmt, max_width 100 (evidence: rustfmt.toml)");
    let doc = rebuild_conventions(&mut store, &chat, &e, "repo:x", 1000, &opts(), now()).unwrap();
    assert_eq!(doc.namespace, "repo:x:meta");
    assert_eq!(doc.key, "conventions");
    assert!(doc.content.contains("rustfmt"));
    // Readable back by key from the meta namespace.
    let got = store
        .get_by_key("repo:x:meta", "conventions").unwrap();
    assert!(got.content.contains("rustfmt"));
}

#[test]
fn rebuild_falls_back_when_llm_errors() {
    let mut store = Store::new();
    let e = HashEmbedder::new(32);
    let new = NewDoc {
        key: ".editorconfig".into(),
        title: ".editorconfig".into(),
        content: "indent_style = space\n".into(),
        author: "code".into(),
        taint: Taint::Internal,
        meta: Some("{\"kind\":\"file\"}".into()),
    };
    ingest_document(&mut store, &e, "repo:y", &new, &opts(), now()).unwrap();
    let chat = FakeChatClient::failing();
    let doc = rebuild_conventions(&mut store, &chat, &e, "repo:y", 1000, &opts(), now()).unwrap();
    assert!(doc.content.contains(".editorconfig"));
}

fn ingest_file(store: &mut Store, e: &HashEmbedder, ns: &str, key: &str, content: &str) {
    let new = NewDoc {
        key: key.into(),
        title: key.into(),
        content: content.into(),
        author: "code".into(),
        taint: Taint::Internal,
        meta: Some("{\"kind\":\"file\"}".into()),
    };
    ingest_document(store, e, ns, &new, &opts(), now()).unwrap();
}

#[test]
fn architecture_digest_is_single_pass_and_module_scoped() {
    let mut store = Store::new();
    let e = HashEmbedder::new(32);
    ingest_file(&mut store, &e, "repo:z", "src/api.rs", "fn route() {}");
    ingest_file(&mut store, &e, "repo:z", "src/store/mod.rs", "struct Store;");
    ingest_file(&mut store, &e, "repo:z", "README.md", "the readme");

    let chat = FakeChatClient::ok("engram: axum API over SQLite; src/api.rs routes requests");
    let doc = rebuild_architecture_digest(&mut store, &chat, &e, "repo:z", None, 1000, &opts(), now()).unwrap();
    assert_eq!(doc.namespace, "repo:z:meta");
    assert_eq!(doc.key, "architecture");
    assert!(doc.content.contains("axum"));
    // Readable back by key (what get_architecture serves).
    let got = store
        .get_by_key("repo:z:meta", "architecture").unwrap();
    assert!(got.content.contains("axum"));

    // A module digest is keyed by its directory.
    let m = rebuild_architecture_digest(&mut store, &chat, &e, "repo:z", Some("src/store"), 1000, &opts(), now())
        .unwrap();
    assert_eq!(m.key, "module:src/store");
}

#[test]
fn architecture_digest_falls_back_without_llm() {
    let mut store = Store::new();
    let e = HashEmbedder::new(32);
    ingest_file(&mut store, &e, "repo:w", "src/main.rs", "fn main() {}");
    let chat = FakeChatClient::failing();
    let doc = rebuild_architecture_digest(&mut store, &chat, &e, "repo:w", None, 1000, &opts(), now()).unwrap();
    assert!(doc.content.contains("src/main.rs")); // mechanical file-list fallback
}
