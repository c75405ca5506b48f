use engram::index::{parse_diff_line, DiffEntry};

#[test]
fn parse_diff_line_added() {
    assert_eq!(
        parse_diff_line("A\tsrc/a.ts"),
        Some(DiffEntry::Added("src/a.ts".into()))
    );
}

#[test]
fn parse_diff_line_modified() {
    assert_eq!(
        parse_diff_line("M\tsrc/b.ts"),
        Some(DiffEntry::Modified("src/b.ts".into()))
    );
}

#[test]
fn parse_diff_line_deleted() {
    assert_eq!(
        parse_diff_line("D\tsrc/c.ts"),
        Some(DiffEntry::Deleted("src/c.ts".into()))
    );
}

#[test]
fn parse_diff_line_renamed() {
    assert_eq!(
        parse_diff_line("R100\told.ts\tnew.ts"),
        Some(DiffEntry::Renamed {
            old: "old.ts".into(),
            new: "new.ts".into()
        })
    );
}

#[test]
fn parse_diff_line_renamed_score_not_100() {
    assert_eq!(
        parse_diff_line("R85\tsrc/foo.rs\tsrc/bar.rs"),
        Some(DiffEntry::Renamed {
            old: "src/foo.rs".into(),
            new: "src/bar.rs".into()
        })
    );
}

#[test]
fn parse_diff_line_copied() {
    assert_eq!(
        parse_diff_line("C100\toriginal.ts\tcopy.ts"),
        Some(DiffEntry::Copied("copy.ts".into()))
    );
}

#[test]
fn parse_diff_line_blank_returns_none() {
    assert_eq!(parse_diff_line(""), None);
}

#[test]
fn parse_diff_line_whitespace_only_returns_none() {
    assert_eq!(parse_diff_line("   "), None);
}

#[test]
fn parse_diff_line_unknown_status_returns_none() {
    assert_eq!(parse_diff_line("X\tsomefile.txt"), None);
}

#[test]
fn parse_diff_line_does_not_panic_on_garbage() {
    // Must not panic
    let _ = parse_diff_line("this is not a diff line at all");
}
