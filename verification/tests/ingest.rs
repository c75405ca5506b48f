use engram::chunking::CODE_CHUNK_TOKEN_BUDGET;
use engram::embed::{Embedder, HashEmbedder};
use engram::ingest::{
    chunk, chunk_code, chunk_code_with, estimate_tokens, extract_code_entities, extract_entities, ingest_document,
    IngestOptions,
};
use engram::model::{Error, NewDoc, Taint};
use engram::store::Store;

fn opts() -> IngestOptions {
    IngestOptions { symbol_split: true, tree_sitter: true, native_budget: None, code_graph: false, min_confidence: 60 }
}

fn by_lines() -> IngestOptions {
    IngestOptions { symbol_split: true, tree_sitter: false, native_budget: None, code_graph: false, min_confidence: 60 }
}

fn now() -> u64 {
    1_700_000_000_000_000
}


#[test]
fn short_content_is_one_chunk() {
    assert_eq!(chunk("hello world"), vec!["hello world".to_string()]);
    assert!(chunk("   ").is_empty());
}

#[test]
fn paragraphs_split_and_pack() {
    let big = "x".repeat(900);
    let out = chunk(&format!("para one\n\npara two\n\n{big}"));
    assert_eq!(out.len(), 3);
    assert!(out[0].contains("para one") && out[0].contains("para two"));
    assert_eq!(out[1].chars().count(), 800);
    assert_eq!(out[2].chars().count(), 100);
}

#[test]
fn cjk_safe() {
    let s = "漫画".repeat(500); // 1000 CJK chars, one paragraph
    let out = chunk(&s);
    assert_eq!(out.len(), 2);
    assert!(!out.iter().any(|c| c.contains('\u{FFFD}')));
}

#[test]
fn ingest_document_chunks_embeds_extracts_and_enqueues() {
    let mut store = Store::new();
    let e = HashEmbedder::new(32);
    let mk = |k: &str, c: &str| NewDoc {
        key: k.into(),
        title: k.into(),
        content: c.into(),
        author: "a".into(),
        taint: Taint::Internal,
        meta: None,
    };

    // Two short paragraphs pack into one chunk; a post-acquire job is enqueued.
    let doc = ingest_document(&mut store, &e, "alice", &mk(
            "d1",
            "Contact @bob about the launch.\n\nSee https://x.com/a and email a@b.com",
        ), &opts(), now())
    .unwrap();
    let d1: Vec<_> = store
        .chunks_for_namespace("alice", &e.signature())
        .into_iter()
        .filter(|(d, _, _)| d == &doc.document_id)
        .collect();
    assert_eq!(d1.len(), 1);
    assert!(d1.iter().all(|(_, _, v)| v.len() == 32));
    let hits = store.docs_with_entities("alice", &vec!["handle:bob".into(), "email:a@b.com".into()]);
    assert_eq!(hits.iter().find(|h| h.0 == doc.document_id).map(|h| h.1).unwrap_or(0), 2);
    assert_eq!(
        store
            .job(&format!("alice:{}", doc.document_id))
            .unwrap()
            .0,
        "pending"
    );

    // A long single paragraph hard-splits into multiple chunks under one doc.
    let long = format!("@carol owns the launch. {}", "x".repeat(900));
    let doc2 = ingest_document(&mut store, &e, "alice", &mk("d2", &long), &opts(), now()).unwrap();
    let d2: Vec<_> = store
        .chunks_for_namespace("alice", &e.signature())
        .into_iter()
        .filter(|(d, _, _)| d == &doc2.document_id)
        .collect();
    assert_eq!(d2.len(), 2);

    // Re-ingest d1 with different content replaces its chunks + entities, same id.
    let doc1b =
        ingest_document(&mut store, &e, "alice", &mk("d1", "totally different now"), &opts(), now()).unwrap();
    assert_eq!(doc1b.document_id, doc.document_id);
    let d1b: Vec<_> = store
        .chunks_for_namespace("alice", &e.signature())
        .into_iter()
        .filter(|(d, _, _)| d == &doc.document_id)
        .collect();
    assert_eq!(d1b.len(), 1);
    assert!(store
        .docs_with_entities("alice", &vec!["handle:bob".into()])
        .is_empty());
}

#[test]
fn extracts_canonical_entities() {
    let got = extract_entities(
        "Ping Alice at Alice@Example.com or @aliceH about #LaunchDay see https://x.com/a",
    );
    assert!(got.contains(&"email:alice@example.com".to_string()));
    assert!(got.contains(&"handle:aliceh".to_string()));
    assert!(got.contains(&"hashtag:launchday".to_string()));
    assert!(got.contains(&"url:https://x.com/a".to_string()));
    assert!(!got.iter().any(|e| e == "handle:example.com"));
    let mut sorted = got.clone();
    sorted.sort();
    sorted.dedup();
    assert_eq!(got, sorted);
}

#[test]
fn entities_inside_urls_are_not_mentions() {
    let got = extract_entities("see https://x.com/@alice#sec then ping @bob about #launch");
    assert!(got.contains(&"url:https://x.com/@alice#sec".to_string()));
    assert!(got.contains(&"handle:bob".to_string()));
    assert!(got.contains(&"hashtag:launch".to_string()));
    assert!(!got.contains(&"handle:alice".to_string()));
    assert!(!got.contains(&"hashtag:sec".to_string()));
}

#[test]
fn chunk_code_one_chunk_for_small_input() {
    let out = chunk_code("fn main() {\n    let x = 1;\n}\n");
    assert_eq!(out.len(), 1);
    assert_eq!(out[0].1, 1);
    assert_eq!(out[0].2, 3);
    assert!(out[0].0.contains("fn main()"));
    assert!(out[0].0.contains("let x = 1;"));
}

#[test]
fn chunk_code_splits_on_char_cap_at_line_boundary() {
    let a = "a".repeat(800);
    let b = "b".repeat(800);
    let out = chunk_code(&format!("{a}\n{b}"));
    assert_eq!(out.len(), 2);
    assert_eq!((out[0].1, out[0].2), (1, 1));
    assert_eq!((out[1].1, out[1].2), (2, 2));
    assert!(out[0].0.contains(&a));
    assert!(out[1].0.contains(&b));
}

#[test]
fn chunk_code_oversized_single_line_is_its_own_chunk() {
    let big = "z".repeat(2000);
    let out = chunk_code(&format!("head\n{big}\ntail"));
    assert_eq!(out.len(), 3);
    assert_eq!((out[0].1, out[0].2), (1, 1));
    assert_eq!((out[1].1, out[1].2), (2, 2));
    assert_eq!((out[2].1, out[2].2), (3, 3));
    assert!(out[1].0.contains(&big));
}

#[test]
fn chunk_code_empty_is_no_chunks() {
    assert!(chunk_code("").is_empty());
}

#[test]
fn symbol_split_isolates_multiline_definitions() {
    // Two multi-line interfaces; with symbol-split each lands in its own chunk.
    let src = "interface Foo {\n  a: number;\n  b: string;\n  c: boolean;\n}\n\
               interface Bar {\n  x: number;\n  y: string;\n  z: boolean;\n}\n";
    let out = chunk_code_with(src, true);
    assert_eq!(out.len(), 2, "each interface should be its own chunk");
    assert!(out[0].0.contains("interface Foo") && !out[0].0.contains("interface Bar"));
    assert!(out[1].0.contains("interface Bar"));
    // Line ranges are contiguous and cover every line (10 lines total).
    assert_eq!(out[0].1, 1);
    assert_eq!(out[0].2 + 1, out[1].1);
    assert_eq!(out[1].2, 10);
}

#[test]
fn symbol_split_disabled_keeps_one_chunk() {
    // Same input, split disabled: packs into a single chunk (well under the caps).
    let src = "interface Foo {\n  a: number;\n  b: string;\n  c: boolean;\n}\n\
               interface Bar {\n  x: number;\n  y: string;\n  z: boolean;\n}\n";
    assert_eq!(chunk_code_with(src, false).len(), 1);
}

#[test]
fn symbol_split_groups_tiny_oneliners() {
    // A run of one-line decls must not become one chunk per line (min-lines guard).
    let src = "type A = number;\ntype B = string;\ntype C = boolean;\n\
               type D = number;\ntype E = string;\ntype F = boolean;\n";
    let out = chunk_code_with(src, true);
    assert!(
        out.len() < 6,
        "tiny one-liners should group, got {} chunks",
        out.len()
    );
}

#[test]
fn extract_code_entities_finds_defs_and_imports_case_preserving() {
    let text = "use crate::store::Store;\npub fn DoThing() {}\nstruct MyType;\n";
    let got = extract_code_entities(text);
    assert!(got.contains(&"import:crate::store::Store".to_string()));
    assert!(got.contains(&"sym:DoThing".to_string()));
    assert!(got.contains(&"sym:MyType".to_string()));
    let mut sorted = got.clone();
    sorted.sort();
    sorted.dedup();
    assert_eq!(got, sorted);
}

#[test]
fn extract_code_entities_handles_multiple_languages() {
    let py = "import os\ndef handler():\n    pass\nclass Worker:\n    pass\n";
    let got = extract_code_entities(py);
    assert!(got.contains(&"import:os".to_string()));
    assert!(got.contains(&"sym:handler".to_string()));
    assert!(got.contains(&"sym:Worker".to_string()));
}

#[test]
fn extract_code_entities_empty_for_prose() {
    assert!(extract_code_entities("just some words, nothing to define").is_empty());
}

#[test]
fn ingest_code_mode_sets_line_ranges_and_code_entities() {
    let mut store = Store::new();
    let e = HashEmbedder::new(32);
    let new = NewDoc {
        key: "src/lib.rs".into(),
        title: "src/lib.rs".into(),
        content: "use crate::store::Store;\npub fn run() {}\n".into(),
        author: "code".into(),
        taint: Taint::Internal,
        meta: Some("{\"kind\":\"file\",\"lang\":\"rust\"}".into()),
    };
    let doc = ingest_document(&mut store, &e, "repo:x", &new, &by_lines(), now()).unwrap();
    let rows = store.chunks_for_doc("repo:x", &doc.document_id);
    assert_eq!(rows.len(), 1);
    assert_eq!((rows[0].line_start, rows[0].line_end), (Some(1), Some(2)));
    assert!(rows[0].entities.contains(&"sym:run".to_string()));
    assert!(rows[0]
        .entities
        .contains(&"import:crate::store::Store".to_string()));
    assert!(rows[0].entities.contains(&"path:src/lib.rs".to_string()));
}

#[test]
fn estimate_tokens_counts_cjk_heavier() {
    // Pure CJK: each char ≈ 1 token
    let cjk = "漫画作品の"; // 5 CJK chars
    let t = estimate_tokens(cjk);
    assert!(
        (4..=6).contains(&t),
        "CJK token estimate should be near char count, got {t}"
    );

    // Pure ASCII: ≈ chars/4
    let ascii = "hello world!!!"; // 14 chars
    let t2 = estimate_tokens(ascii);
    assert!(
        (3..=5).contains(&t2),
        "ASCII token estimate should be ~chars/4, got {t2}"
    );

    // Mixed: large CJK string
    let cjk_long = "漫".repeat(480); // 480 CJK chars → ~480 tokens
    let t3 = estimate_tokens(&cjk_long);
    assert!((475..=485).contains(&t3), "expected ~480, got {t3}");
}

#[test]
fn chunk_code_cjk_stays_within_token_budget() {
    // Build a long CJK string across many lines, each line ~100 CJK chars
    let line = "語".repeat(100); // 100 CJK = ~100 tokens per line
    let content: String = (0..30)
        .map(|_| line.as_str())
        .collect::<Vec<_>>()
        .join("\n"); // 30 lines, 3000 total CJK chars
    let out = chunk_code(&content);
    assert!(!out.is_empty());
    for (text, _s, _e) in &out {
        let tokens = estimate_tokens(text);
        assert!(
            tokens <= CODE_CHUNK_TOKEN_BUDGET,
            "chunk has {tokens} tokens, exceeds budget {CODE_CHUNK_TOKEN_BUDGET}"
        );
    }
}

#[test]
fn chunk_code_oversized_cjk_line_is_split() {
    // Single line of 2000 CJK chars — no newlines
    let line = "字".repeat(2000);
    let out = chunk_code(&line);
    assert!(
        out.len() > 1,
        "expected multiple chunks for oversized CJK line, got {}",
        out.len()
    );
    for (text, s, e) in &out {
        assert_eq!(*s, 1, "start_line should be 1");
        assert_eq!(*e, 1, "end_line should be 1");
        let tokens = estimate_tokens(text);
        assert!(
            tokens <= CODE_CHUNK_TOKEN_BUDGET,
            "split piece has {tokens} tokens, exceeds budget"
        );
    }
}

#[test]
fn ingest_prose_mode_unchanged_when_no_file_kind() {
    let mut store = Store::new();
    let e = HashEmbedder::new(32);
    let new = NewDoc {
        key: "note".into(),
        title: "note".into(),
        content: "ping @bob about the launch".into(),
        author: "a".into(),
        taint: Taint::Internal,
        meta: None,
    };
    let doc = ingest_document(&mut store, &e, "alice", &new, &opts(), now()).unwrap();
    let rows = store.chunks_for_doc("alice", &doc.document_id);
    assert_eq!(rows.len(), 1);
    assert_eq!((rows[0].line_start, rows[0].line_end), (None, None));
    assert!(rows[0].entities.contains(&"handle:bob".to_string()));
    assert!(rows[0].entities.iter().all(|e| !e.starts_with("sym:")));
}

// Test-only embedder that fails on a specific call number (1-based).
// If `always_fail` is true, every call fails regardless of `fail_on_call`.
// If `batch_always_fail` is true, `embed_batch` always returns Err (simulates a poisoned
// batch), while per-chunk `embed` still follows the normal `fail_on_call`/`always_fail` logic.
struct FailNthEmbedder {
    inner: HashEmbedder,
    fail_on_call: usize,
    always_fail: bool,
    batch_always_fail: bool,
    calls: std::sync::atomic::AtomicUsize,
}

impl Embedder for FailNthEmbedder {
    fn embed(&self, text: &str) -> Result<Vec<u32>, Error> {
        let n = self
            .calls
            .fetch_add(1, std::sync::atomic::Ordering::Relaxed)
            + 1;
        if self.always_fail || n == self.fail_on_call {
            return Err(Error::Embed("boom".into()));
        }
        self.inner.embed(text)
    }
    fn embed_batch(&self, texts: &Vec<String>) -> Result<Vec<Vec<u32>>, Error> {
        if self.batch_always_fail {
            return Err(Error::Embed("batch boom".into()));
        }
        // Default: loop through per-chunk embed.
        texts.iter().map(|t| self.embed(t)).collect()
    }
    fn signature(&self) -> String {
        self.inner.signature()
    }
    fn dim(&self) -> usize {
        self.inner.dim()
    }
}

/// A code-mode doc whose content is long enough to produce at least 2 chunks from
/// `chunk_code`. The embedder fails on chunk 2; `ingest_document` should still return Ok
/// and store (total_chunks - 1) chunks.
#[test]
fn ingest_skips_failed_chunk() {
    let mut store = Store::new();

    // Build a code doc with content large enough to be split into ≥2 chunks by chunk_code.
    // Each chunk_code chunk is up to MAX_CODE_CHUNK_CHARS (1500) chars; two 800-char lines
    // guarantees exactly 2 chunks (800+1 > 1500? No: 800+800+newline = 1601 > 1500, so the
    // second line starts a new chunk). Actually: cur = "aaa...\n" (801 chars); adding
    // "bbb...\n" (801) would make 1602 > 1500, so flush. Two chunks.
    let line_a = "a".repeat(800);
    let line_b = "b".repeat(800);
    let content = format!("{line_a}\n{line_b}");

    // Verify chunk_code yields exactly 2 chunks with this content.
    let pieces = chunk_code(&content);
    let total = pieces.len();
    assert!(total >= 2, "need ≥2 chunks for this test, got {total}");

    // batch_always_fail: true forces the fallback path; per-chunk embed fails on call #2.
    let embedder = FailNthEmbedder {
        inner: HashEmbedder::new(32),
        fail_on_call: 2,
        always_fail: false,
        batch_always_fail: true,
        calls: std::sync::atomic::AtomicUsize::new(0),
    };

    let new = NewDoc {
        key: "src/big.rs".into(),
        title: "src/big.rs".into(),
        content,
        author: "bot".into(),
        taint: Taint::Internal,
        meta: Some("{\"kind\":\"file\"}".into()),
    };
    let doc = ingest_document(&mut store, &embedder, "ns", &new, &opts(), now())
        .expect("ingest_document should succeed even when one chunk fails to embed");

    let rows = store.chunks_for_doc("ns", &doc.document_id);
    assert_eq!(
        rows.len(),
        total - 1,
        "expected {} chunks (skipped 1 failed), got {}",
        total - 1,
        rows.len()
    );
}

/// A code-mode doc where EVERY chunk fails to embed. `ingest_document` should return Err.
#[test]
fn ingest_errors_when_all_chunks_fail() {
    let mut store = Store::new();

    let line_a = "a".repeat(800);
    let line_b = "b".repeat(800);
    let content = format!("{line_a}\n{line_b}");

    let pieces = chunk_code(&content);
    assert!(!pieces.is_empty(), "need ≥1 chunk for this test");

    let embedder = FailNthEmbedder {
        inner: HashEmbedder::new(32),
        fail_on_call: 0, // unused when always_fail is true
        always_fail: true,
        batch_always_fail: false,
        calls: std::sync::atomic::AtomicUsize::new(0),
    };

    let new = NewDoc {
        key: "src/fail.rs".into(),
        title: "src/fail.rs".into(),
        content,
        author: "bot".into(),
        taint: Taint::Internal,
        meta: Some("{\"kind\":\"file\"}".into()),
    };
    let result = ingest_document(&mut store, &embedder, "ns", &new, &opts(), now());
    assert!(
        result.is_err(),
        "expected Err when all chunks fail to embed, got Ok"
    );
}

/// Batch embedding fails (poisoned batch) → falls back to per-chunk → skips the one bad chunk.
/// A code doc yielding ≥2 chunks; `embed_batch` always returns Err; per-chunk `embed` fails
/// only on call #2. The doc should ingest Ok with (total - 1) stored chunks.
#[test]
fn ingest_batch_falls_back_and_skips_bad_chunk() {
    let mut store = Store::new();

    // Two 800-char lines → chunk_code produces exactly 2 chunks.
    let line_a = "a".repeat(800);
    let line_b = "b".repeat(800);
    let content = format!("{line_a}\n{line_b}");

    let pieces = chunk_code(&content);
    let total = pieces.len();
    assert!(total >= 2, "need ≥2 chunks for this test, got {total}");

    // embed_batch always fails (poisoned batch), but per-chunk embed fails only on call #2.
    let embedder = FailNthEmbedder {
        inner: HashEmbedder::new(32),
        fail_on_call: 2,
        always_fail: false,
        batch_always_fail: true, // force fallback path
        calls: std::sync::atomic::AtomicUsize::new(0),
    };

    let new = NewDoc {
        key: "src/batch_fallback.rs".into(),
        title: "src/batch_fallback.rs".into(),
        content,
        author: "bot".into(),
        taint: Taint::Internal,
        meta: Some("{\"kind\":\"file\"}".into()),
    };
    let doc = ingest_document(&mut store, &embedder, "ns", &new, &opts(), now())
        .expect("ingest_document should succeed via per-chunk fallback even when batch fails");

    let rows = store.chunks_for_doc("ns", &doc.document_id);
    assert_eq!(
        rows.len(),
        total - 1,
        "expected {} chunks (skipped 1 failed), got {}",
        total - 1,
        rows.len()
    );
}
