use engram::index::parse_git_log;

fn sample() -> String {
    // Two commits in the GIT_LOG_FORMAT shape, each followed by --name-only file lists.
    format!(
        "{0}a1b2c3{1}Ada <ada@x.io>{1}ada@x.io{1}1700000000{1}fix: take the write lock{1}body line one\nbody line two{2}\nsrc/store.rs\nsrc/tree.rs\n\n{0}d4e5f6{1}Bo <bo@y.io>{1}bo@y.io{1}1700000100{1}feat: add cosine{1}{2}\nsrc/vec.rs\n",
        "\u{01}", "\u{1f}", "\u{1e}"
    )
}

#[test]
fn parses_two_commits_with_files() {
    let recs = parse_git_log(&sample());
    assert_eq!(recs.len(), 2);
    let c0 = &recs[0];
    assert_eq!(c0.sha, "a1b2c3");
    assert_eq!(c0.email, "ada@x.io");
    assert_eq!(c0.timestamp, 1_700_000_000);
    assert_eq!(c0.subject, "fix: take the write lock");
    assert!(c0.body.contains("body line one") && c0.body.contains("body line two"));
    assert_eq!(c0.files, vec!["src/store.rs", "src/tree.rs"]);
    // Empty body is fine.
    assert_eq!(recs[1].body, "");
    assert_eq!(recs[1].files, vec!["src/vec.rs"]);
}

#[test]
fn commit_doc_fields_carry_files_and_meta() {
    let recs = parse_git_log(&sample());
    let c = &recs[0];
    assert_eq!(c.key(), "commit:a1b2c3");
    assert_eq!(c.title(), "fix: take the write lock");
    let content = c.content();
    assert!(content.contains("take the write lock"));
    assert!(content.contains("src/store.rs") && content.contains("src/tree.rs"));
    let meta: serde_json::Value = serde_json::from_str(&c.meta()).unwrap();
    assert_eq!(meta["kind"], "commit");
    assert_eq!(meta["sha"], "a1b2c3");
    assert_eq!(meta["ts"], 1_700_000_000);
    assert_eq!(meta["files"][0], "src/store.rs");
}

#[test]
fn empty_log_is_no_commits() {
    assert!(parse_git_log("").is_empty());
    assert!(parse_git_log("\n\n").is_empty());
}
