use engram::index::build_by_key_url;

#[test]
fn by_key_url_encodes_spaces() {
    let url = build_by_key_url("http://127.0.0.1:8088", "repo:myrepo", "src/a b.ts");
    // Slashes and spaces must be encoded (dots are also encoded by NON_ALPHANUMERIC)
    assert!(url.contains("%2F"), "slash not encoded; got: {url}");
    assert!(url.contains("%20"), "space not encoded; got: {url}");
    assert!(url.starts_with("http://127.0.0.1:8088/v1/repo:myrepo/docs/by-key/"));
    // The "src" and "a b" parts should appear (possibly with more encoding)
    assert!(url.contains("src"), "got: {url}");
}

#[test]
fn by_key_url_encodes_slashes_in_key() {
    let url = build_by_key_url("http://host", "repo:x", "deep/nested/file.rs");
    // All slashes in the key become %2F so it's a single path segment
    assert!(url.contains("%2F"), "slash not encoded; got: {url}");
    // The words should appear in the url
    assert!(url.contains("deep"), "got: {url}");
    assert!(url.contains("nested"), "got: {url}");
    assert!(url.contains("file"), "got: {url}");
}

#[test]
fn by_key_url_namespace_colon_not_encoded() {
    let url = build_by_key_url("http://host", "repo:abc", "file.rs");
    // The colon in the namespace must NOT be percent-encoded
    assert!(url.contains("/v1/repo:abc/"), "got: {url}");
}

#[test]
fn by_key_url_trailing_slash_stripped_from_base() {
    let url1 = build_by_key_url("http://host/", "repo:x", "f.rs");
    let url2 = build_by_key_url("http://host", "repo:x", "f.rs");
    assert_eq!(url1, url2);
}
