use engram::chunking::{
    chunk, chunk_code_with, chunk_lines, estimate_tokens, is_cjk, starts_definition, CODE_CHUNK_TOKEN_BUDGET,
    MAX_CHUNK_CHARS, MAX_CODE_CHUNK_CHARS,
};
use engram::embed::{fnv1a, ollama_signature, Embedder, FallbackEmbedder, HashEmbedder};
use engram::ingest::{
    code_entities, commit_embedded, embed_chunks, extract_code_entities, extract_entities, ingest_document, is_file_meta,
    mask, plan_chunks, plan_edges, IngestOptions,
};
use engram::model::{taint_from, taint_str, EdgeKind, Error, MemoryDoc, NewDoc, Taint};
use engram::store::bytes::{bytes_to_vec, vec_to_bytes};
use engram::store::Store;
use engram::syntax::{syntax, Lang};
use engram::text::{
    ascii_lower, cut, decimal_of, last_segment, less, lines_of, parse_signed, parse_unsigned, signed_decimal_of,
    sorted_set, take_chars, trim, words_of,
};
use engram::treesit::{chunk_by_spans, chunk_code_ts, chunk_native, extract_symbols_ts, pack_spans};
use engram::vault::{existing_sha, seconds, sha256_hex, slug, yaml, NodeMeta, Vault};

const NOW: u64 = 1_700_000_000_000_000;

fn opts() -> IngestOptions {
    IngestOptions { symbol_split: true, tree_sitter: true, native_budget: None, code_graph: true, min_confidence: 60 }
}

fn strings(v: &[&str]) -> Vec<String> {
    v.iter().map(|s| s.to_string()).collect()
}

fn file(key: &str, content: &str) -> NewDoc {
    NewDoc {
        key: key.into(),
        title: key.into(),
        content: content.into(),
        author: "code".into(),
        taint: Taint::Internal,
        meta: Some("{\"kind\":\"file\"}".into()),
    }
}

// --- Text ---

#[test]
fn numbers_are_written_and_read_back() {
    for n in [0u64, 7, 10, 1_234_567, u64::MAX] {
        assert_eq!(parse_unsigned(&decimal_of(n), u64::MAX), Some(n));
    }
    for n in [i64::MIN, -1, 0, 42, i64::MAX] {
        assert_eq!(parse_signed(&signed_decimal_of(n)), Some(n));
    }
    assert_eq!(decimal_of(1205), "1205");
    assert_eq!(signed_decimal_of(-30), "-30");
    assert_eq!(parse_unsigned("+12", 100), Some(12));
    assert_eq!(parse_unsigned("101", 100), None);
    assert_eq!(parse_unsigned("", 100), None);
    assert_eq!(parse_unsigned("+", 100), None);
    assert_eq!(parse_unsigned(" 1", 100), None);
    assert_eq!(parse_unsigned("1x", 100), None);
    assert_eq!(parse_signed("-9223372036854775809"), None);
    assert_eq!(parse_signed("-"), None);
}

#[test]
fn lines_end_at_line_feeds() {
    assert_eq!(lines_of("a\nb\r\n\nc"), ["a", "b", "", "c"]);
    assert_eq!(lines_of("a\n"), ["a"]);
    assert!(lines_of("").is_empty());
    assert_eq!(lines_of("a\r"), ["a\r"]);
}

#[test]
fn texts_are_cut_trimmed_and_split() {
    assert_eq!(trim(" \t a b\u{a0}\n"), "a b");
    assert_eq!(words_of("  one\u{2003}two  "), ["one", "two"]);
    assert_eq!(cut("a:b:c", ':'), Some(("a".to_string(), "b:c".to_string())));
    assert_eq!(cut("abc", ':'), None);
    assert_eq!(last_segment("src/a.rs", '/'), "a.rs");
    assert_eq!(take_chars("héllo", 2), "hé");
    assert_eq!(ascii_lower("ÀBc"), "Àbc");
    assert!(less("a", "ab") && less("Z", "a") && !less("b", "b"));
    assert_eq!(sorted_set(&strings(&["b", "a", "b"])), ["a", "b"]);
}

// --- Chunks ---

#[test]
fn tokens_are_estimated() {
    assert_eq!(estimate_tokens(""), 0);
    assert!(is_cjk('漫') && !is_cjk('m'));
    let (a, b) = ("fn main() {", "漫画 }");
    assert!(estimate_tokens(&format!("{a}{b}")) <= estimate_tokens(a) + estimate_tokens(b) + 1);
    assert!(estimate_tokens("漫画") >= 2);
}

#[test]
fn chunks_of_prose_are_bounded() {
    let text = format!("{}\n\n{}\n\nshort", "a".repeat(1700), "b ".repeat(500));
    let out = chunk(&text);
    assert!(out.iter().all(|c| !c.trim().is_empty() && c.chars().count() <= MAX_CHUNK_CHARS));
    assert_eq!(out.iter().flat_map(|c| c.chars()).filter(|c| *c == 'a').count(), 1700);
}

#[test]
fn chunks_of_lines_keep_every_line_within_the_caps() {
    let lines: Vec<String> = (0..300).map(|i| format!("let value_{i} = compute({i});")).collect();
    let starts: Vec<bool> = (0..300).map(|i| i % 50 == 0).collect();
    let out = chunk_lines(&lines, &starts);
    let mut next = 1;
    for (text, from, to) in &out {
        assert_eq!(*from, next);
        assert_eq!(text.lines().count(), to - from + 1);
        assert!(text.chars().count() <= MAX_CODE_CHUNK_CHARS);
        assert!(estimate_tokens(text) <= CODE_CHUNK_TOKEN_BUDGET);
        next = to + 1;
    }
    assert_eq!(next, 301);
}

#[test]
fn a_long_line_is_split_only_where_its_characters_are_tokens() {
    let wide = "漫".repeat(1000);
    let out = chunk_code_with(&wide, true);
    assert!(out.len() > 1);
    assert!(out.iter().all(|(t, from, to)| estimate_tokens(t) <= CODE_CHUNK_TOKEN_BUDGET && (*from, *to) == (1, 1)));
    assert_eq!(out.iter().map(|(t, _, _)| t.as_str()).collect::<String>(), wide);
    let narrow = "x".repeat(4000);
    assert_eq!(chunk_code_with(&narrow, true), vec![(format!("{narrow}\n"), 1, 1)]);
}

#[test]
fn two_lines_that_fill_the_budget_are_one_chunk() {
    let text = format!("{}\n{}\n", "漫".repeat(399), "x".repeat(320));
    let out = chunk_code_with(&text, false);
    assert_eq!(out, vec![(text.clone(), 1, 2)]);
    assert_eq!(estimate_tokens(&out[0].0), CODE_CHUNK_TOKEN_BUDGET);

    // With three characters more the second line opens a chunk.
    let text = format!("{}\n{}\n", "漫".repeat(399), "x".repeat(323));
    let out = chunk_code_with(&text, false);
    assert_eq!(out.iter().map(|(_, from, to)| (*from, *to)).collect::<Vec<_>>(), [(1, 1), (2, 2)]);
}

#[test]
fn a_line_that_fits_only_without_its_line_feed_stays_whole() {
    let tight = format!("{}abcd", "漫".repeat(479));
    assert_eq!(estimate_tokens(&tight), CODE_CHUNK_TOKEN_BUDGET);
    assert_eq!(estimate_tokens(&format!("{tight}\n")), CODE_CHUNK_TOKEN_BUDGET + 1);
    let out = chunk_code_with(&format!("let a = 1;\n{tight}\nlet b = 2;\n"), false);
    assert_eq!(out, vec![("let a = 1;\n".to_string(), 1, 1), (tight, 2, 2), ("let b = 2;\n".to_string(), 3, 3)]);
}

#[test]
fn lines_are_packed_as_far_as_they_go() {
    let lines: Vec<String> = (0..200).map(|i| "漫x".repeat(i % 90)).collect();
    let text: String = lines.iter().map(|l| format!("{l}\n")).collect();
    let out = chunk_code_with(&text, false);
    assert!(out.len() > 2);
    for pair in out.windows(2) {
        let (whole, next) = (&pair[0].0, &lines[pair[1].1 - 1]);
        let grown = format!("{whole}{next}\n");
        assert!(
            grown.chars().count() > MAX_CODE_CHUNK_CHARS
                || estimate_tokens(whole) + estimate_tokens(next) > CODE_CHUNK_TOKEN_BUDGET
                || estimate_tokens(&grown) > CODE_CHUNK_TOKEN_BUDGET
        );
        assert!(estimate_tokens(whole) <= CODE_CHUNK_TOKEN_BUDGET);
    }
}

#[test]
fn chunks_of_prose_lose_no_word() {
    let solid = |s: &str| s.chars().filter(|c| !c.is_whitespace()).collect::<String>();
    let text = format!("  one two\n\n\n\u{3000}three\n four \n\n{}\n\n \n\n{} end", "long ".repeat(400), "x".repeat(790));
    let out = chunk(&text);
    assert!(out.len() > 3);
    assert_eq!(solid(&out.concat()), solid(&text));
}

#[test]
fn a_chunk_of_prose_is_chunked_into_itself() {
    let paragraphs: Vec<String> = (0..40).map(|i| format!(" paragraph {i}\n{}", "w ".repeat(i * 7))).collect();
    let out = chunk(&paragraphs.join("\n\n"));
    assert!(out.len() > 1);
    for c in &out {
        assert_eq!(chunk(c), vec![c.clone()]);
        assert!(!c.contains("\n\n"));
        assert_eq!(c.trim(), c);
    }
    assert_eq!(chunk("a\n\n b \n\n\nc"), ["a\nb\nc"]);
}

#[test]
fn white_space_is_what_unicode_says() {
    assert_eq!(trim("\u{85}\u{A0}\u{1680}\u{2000}\u{200A}\u{2028}\u{2029}\u{202F}\u{205F}\u{3000}\t\r\n\u{B}\u{C} a"), "a");
    assert_eq!(trim("\u{200B}a\u{FEFF}"), "\u{200B}a\u{FEFF}");
}

#[test]
fn definitions_start_where_the_pattern_says() {
    assert!(starts_definition("pub fn alpha() {"));
    assert!(starts_definition("    def beta(self):"));
    assert!(!starts_definition("let alpha = 1;"));
    assert!(!starts_definition(""));
}

#[test]
fn native_definitions_are_packed_up_to_the_budget() {
    let src = "int a() { return 1; }\nint b() { return 2; }\nint c() { return 3; }\n";
    let each = chunk_code_ts(src, Lang::C).unwrap();
    assert_eq!(each.len(), 3);
    let packed = chunk_native(src, Lang::C, 480).unwrap();
    assert_eq!(packed.len(), 1);
    assert_eq!((packed[0].1, packed[0].2), (1, 3));
    assert!(packed[0].0.contains("int a()") && packed[0].0.contains("int c()"));
    assert_eq!(chunk_native(src, Lang::C, 1).unwrap().len(), 3);
    assert_eq!(pack_spans(src, &vec![(1, 1), (2, 2), (3, 3)], 480), [(1, 3)]);
    assert_eq!(pack_spans(src, &vec![(1, 1), (2, 2), (3, 3)], 1), [(1, 1), (2, 2), (3, 3)]);
}

#[test]
fn packing_is_for_native_files_only() {
    let native = IngestOptions { native_budget: Some(480), ..opts() };
    let src = "int a() { return 1; }\nint b() { return 2; }\n";
    assert_eq!(plan_chunks(&file("x.c", src), &native).len(), 1);
    assert_eq!(plan_chunks(&file("x.c", src), &opts()).len(), 2);
    let rust = "fn a() {}\nfn b() {}\n";
    assert_eq!(plan_chunks(&file("x.rs", rust), &native).len(), plan_chunks(&file("x.rs", rust), &opts()).len());
}

#[test]
fn spans_and_what_lies_between_cover_a_file() {
    let src = "// top\nfn a() {\n}\n\n// tail\n";
    let out = chunk_by_spans(src, &vec![(2, 3)], 480);
    let covered: Vec<usize> = out.iter().flat_map(|(_, from, to)| *from..=*to).collect();
    for line in [1, 2, 3, 5] {
        assert!(covered.contains(&line), "line {line}");
    }
    assert!(out.iter().any(|(t, from, to)| t == "fn a() {\n}" && (*from, *to) == (2, 3)));
}

#[test]
fn grammars_parse_every_language() {
    let sources = [
        (Lang::Rust, "fn target() {}\n"),
        (Lang::Python, "def target():\n    pass\n"),
        (Lang::JavaScript, "function target() {}\n"),
        (Lang::TypeScript, "function target(x: number) {}\n"),
        (Lang::Tsx, "function target() { return <b/>; }\n"),
        (Lang::Go, "package p\nfunc target() {}\n"),
        (Lang::Java, "class target {}\n"),
        (Lang::Kotlin, "fun target() {}\n"),
        (Lang::C, "int target(void) { return 0; }\n"),
        (Lang::Cpp, "int target() { return 0; }\n"),
    ];
    for (lang, src) in sources {
        let nodes = syntax(lang, src).unwrap();
        assert_eq!(nodes[0].depth, 0);
        assert_eq!((nodes[0].start_byte, nodes[0].end_byte), (0, src.len()));
        assert!(nodes[1..].iter().all(|n| n.depth > 0));
        let symbols = extract_symbols_ts(src, lang).unwrap();
        assert!(symbols.contains(&"sym:target".to_string()), "{lang:?}: {symbols:?}");
    }
}

// --- Entities ---

#[test]
fn entities_are_found_by_pattern() {
    assert_eq!(
        extract_entities("mail A.B@x.org, see https://x.org/a @Ada #Rust"),
        ["email:a.b@x.org", "handle:ada", "hashtag:rust", "url:https://x.org/a"]
    );
    assert!(extract_entities("nothing here").is_empty());
    let code = extract_code_entities("use std::fmt;\npub fn alpha() {}\nstruct Beta;\n");
    assert!(code.contains(&"sym:alpha".to_string()));
    assert!(code.contains(&"sym:Beta".to_string()));
    assert!(code.contains(&"import:std::fmt".to_string()));
}

#[test]
fn entity_lists_are_sorted_sets() {
    assert_eq!(code_entities(&strings(&["b", "a", "b"]), &strings(&["m"])), ["import:m", "sym:a", "sym:b"]);
    assert_eq!(mask(&strings(&["x ", " y"]), &strings(&["a@b.c"])).len(), "x a@b.c y".len());
}

#[test]
fn meta_tells_files_from_prose() {
    assert!(is_file_meta(&Some("{\"kind\": \"file\"}".into())));
    assert!(!is_file_meta(&Some("{\"kind\":\"commit\"}".into())));
    assert!(!is_file_meta(&Some("{\"kind\":7}".into())));
    assert!(!is_file_meta(&Some("not json".into())));
    assert!(!is_file_meta(&None));
}

#[test]
fn edges_of_a_file_are_planned_where_the_graph_is_on() {
    let new = file("src/a.rs", "use crate::b::helper;\nfn a() { helper(); own(); helper(); }\nfn own() {}\n");
    let edges = plan_edges(&new, &opts());
    let find = |dst: &str| edges.iter().find(|e| e.dst_sym == dst && e.edge_kind == EdgeKind::Calls).map(|e| e.confidence);
    assert_eq!(find("sym:helper"), Some(60));
    assert_eq!(find("sym:own"), Some(100));
    assert_eq!(edges.iter().filter(|e| e.dst_sym == "sym:helper" && e.edge_kind == EdgeKind::Calls).count(), 1);
    assert!(plan_edges(&new, &IngestOptions { code_graph: false, ..opts() }).is_empty());
    assert!(plan_edges(&new, &IngestOptions { min_confidence: 100, ..opts() }).iter().all(|e| e.confidence == 100));
}

// --- Ingest ---

/// Embeds everything but texts that hold a word.
struct Picky(&'static str);

impl Embedder for Picky {
    fn embed(&self, text: &str) -> Result<Vec<u32>, Error> {
        if text.contains(self.0) {
            Err(Error::Embed("refused".into()))
        } else {
            Ok(vec![text.len() as u32])
        }
    }

    fn embed_batch(&self, batch: &Vec<String>) -> Result<Vec<Vec<u32>>, Error> {
        batch.iter().map(|t| self.embed(t)).collect()
    }

    fn signature(&self) -> String {
        "picky".into()
    }

    fn dim(&self) -> usize {
        1
    }
}

#[test]
fn a_chunk_that_cannot_be_embedded_is_skipped() {
    let mut store = Store::new();
    let text = format!("{}\n\n{}\n\n{}", "a".repeat(700), "bad ".repeat(150), "c".repeat(700));
    let new = NewDoc { meta: None, ..file("k", &text) };
    let plan = plan_chunks(&new, &opts());
    assert_eq!(plan.len(), 3);
    let embedded = embed_chunks(&Picky("bad"), &plan);
    assert_eq!(embedded.iter().map(|e| e.is_some()).collect::<Vec<_>>(), [true, false, true]);
    let doc = ingest_document(&mut store, &Picky("bad"), "n", &new, &opts(), NOW).unwrap();
    let rows = store.chunks_for_doc("n", &doc.document_id);
    assert_eq!(rows.len(), 2);
    assert!(rows[0].text.starts_with('a') && rows[1].text.starts_with('c'));
}

#[test]
fn a_document_that_cannot_be_embedded_at_all_is_an_error() {
    let mut store = Store::new();
    let new = NewDoc { meta: None, ..file("k", "bad text") };
    let r = ingest_document(&mut store, &Picky("bad"), "n", &new, &opts(), NOW);
    assert!(matches!(&r, Err(Error::Embed(_))));
    assert!(store.docs().is_empty() && store.jobs().is_empty());
    // Without any chunk there is nothing to fail: the document is stored.
    let empty = NewDoc { meta: None, ..file("k", "   ") };
    let doc = ingest_document(&mut store, &Picky("bad"), "n", &empty, &opts(), NOW).unwrap();
    assert!(store.chunks_for_doc("n", &doc.document_id).is_empty());
}

#[test]
fn every_embedded_chunk_is_committed() {
    let mut store = Store::new();
    let new = file("src/a.rs", "fn a() {}\n\nfn b() {}\n");
    let plan = plan_chunks(&new, &opts());
    let embs = plan.iter().map(|_| Some(vec![3u32])).collect();
    let doc = commit_embedded(&mut store, "n", &new, &plan, &embs, &vec![], "sig", "id", NOW).unwrap();
    assert_eq!(doc.document_id, "id");
    let rows = store.chunks_for_doc("n", "id");
    assert_eq!(rows.len(), plan.len());
    assert!(rows.iter().zip(&plan).all(|(r, p)| r.text == p.text && r.entities == p.entities));
    assert!(rows[0].entities.contains(&"path:src/a.rs".to_string()));
}

// --- Embedding ---

#[test]
fn embeddings_are_stored_as_little_endian_bytes() {
    let v = vec![1.5f32.to_bits(), (-0.25f32).to_bits(), 0];
    let b = vec_to_bytes(&v);
    assert_eq!(b[0..4], 1.5f32.to_le_bytes());
    assert_eq!(b[4..8], (-0.25f32).to_le_bytes());
    assert_eq!(bytes_to_vec(&b), v);
    // Bytes that do not fill a number are dropped.
    assert_eq!(bytes_to_vec(&b[0..6].to_vec()), [1.5f32.to_bits()]);
}

#[test]
fn hashes_are_the_known_ones() {
    assert_eq!(fnv1a(""), 0xcbf2_9ce4_8422_2325);
    assert_eq!(fnv1a("a"), 0xaf63_dc4c_8601_ec8c);
    assert_eq!(sha256_hex("abc"), "ba7816bf8f01cfea414140de5dae2223b00361a396177a9cb410ff61f20015ad");
    assert_eq!(ollama_signature("bge-m3", 1024), "ollama:bge-m3:1024");
}

#[test]
fn a_failover_keeps_the_signature() {
    let f = FallbackEmbedder::new(Picky("bad"), HashEmbedder::new(4));
    assert_eq!(f.signature(), "picky");
    assert_eq!(f.dim(), 1);
    assert_eq!(f.embed("ok").unwrap(), [2]);
    assert_eq!(f.embed("bad").unwrap().len(), 4);
    assert_eq!(f.embed_batch(&strings(&["ok", "bad"])).unwrap().len(), 2);
    let none = FallbackEmbedder::new(Picky("bad"), Picky("b"));
    assert!(matches!(none.embed("bad"), Err(Error::Embed(_))));
}

// --- Names and pages ---

#[test]
fn names_are_read_back() {
    for t in [Taint::Internal, Taint::ExternalSync] {
        assert_eq!(taint_from(taint_str(t)), t);
    }
    assert_eq!(taint_from("anything"), Taint::Internal);
    assert_eq!(Taint::default(), Taint::Internal);
    for k in [EdgeKind::Calls, EdgeKind::UsesType, EdgeKind::Imports] {
        assert_eq!(EdgeKind::parse(k.as_str()), Some(k));
    }
    assert_eq!(EdgeKind::parse("calls"), None);
    assert_eq!(Error::Embed("x".into()).message(), "embed error: x");
    assert_eq!(Error::Io("x".into()).message(), "io error: x");
    assert_eq!(Error::NotFound.message(), "not found");
}

fn page_doc(title: &str, content: &str) -> MemoryDoc {
    MemoryDoc {
        document_id: "id/1".into(),
        namespace: "n".into(),
        key: "k".into(),
        title: title.into(),
        content: content.into(),
        author: "a".into(),
        taint: Taint::Internal,
        meta: None,
        created_at: 1_500_000,
        updated_at: 2_000_000,
    }
}

#[test]
fn a_page_is_written_again_only_when_its_content_changes() {
    let v = Vault::new("/vault");
    let page = v.doc_page(&page_doc("say \"hi\" \\ bye", "body"));
    assert_eq!(page.file, "id_1.md");
    assert!(page.content.contains("title: \"say \\\"hi\\\" \\\\ bye\"\n"));
    assert!(page.content.contains("created_at: 1.5\nupdated_at: 2\n"));
    assert_eq!(existing_sha(&page.content).as_deref(), Some(page.sha.as_str()));
    assert_eq!(page.sha, sha256_hex("body"));
    assert!(!page.needs_write(Some(&page.content)));
    assert!(v.doc_page(&page_doc("t", "other")).needs_write(Some(&page.content)));
    assert!(page.needs_write(Some("no front matter")));
    // A field that looks like the record hides it.
    let odd = v.doc_page(&page_doc("x\ncontent_sha: y", "body"));
    assert!(odd.needs_write(Some(&odd.content)));

    let node = v.node_page(&NodeMeta {
        namespace: "n",
        tree_kind: "module",
        tree_key: "src/a",
        node_id: "p",
        level: 2,
        label: None,
        body: "summary",
        created_at: 0,
    });
    assert_eq!(existing_sha(&node.content), Some(sha256_hex("summary")));
    assert!(!node.needs_write(Some(&node.content)));
    assert_eq!(node.dirs, ["n", "module", "src_a"]);
}

#[test]
fn fields_are_written_safely() {
    assert_eq!(slug("src/a b.rs"), "src_a_b_rs");
    assert_eq!(yaml("a\"b\\c"), "\"a\\\"b\\\\c\"");
    assert_eq!(seconds(0), "0");
    assert_eq!(seconds(1_000_001), "1.000001");
    assert_eq!(seconds(2_340_000), "2.34");
}
