use engram::treesit::{chunk_code_ts, extract_symbols_ts, lang_for_path, Lang};


#[test]
fn lang_detection() {
    assert_eq!(lang_for_path("src/main.rs"), Some(Lang::Rust));
    assert_eq!(lang_for_path("a/b.py"), Some(Lang::Python));
    assert_eq!(lang_for_path("x.ts"), Some(Lang::TypeScript));
    assert_eq!(lang_for_path("x.tsx"), Some(Lang::Tsx));
    assert_eq!(lang_for_path("x.go"), Some(Lang::Go));
    assert_eq!(lang_for_path("README.md"), None);
}

#[test]
fn rust_chunks_on_item_boundaries_and_covers_all_lines() {
    let src = "use std::fmt;\n\nfn alpha() {\n    let x = 1;\n}\n\nstruct Beta {\n    a: u8,\n}\n\nfn gamma() {}\n";
    let out = chunk_code_ts(src, Lang::Rust).unwrap();
    // Expect distinct chunks; alpha, Beta, gamma each isolated.
    let joined: Vec<&str> = out.iter().map(|(t, _, _)| t.as_str()).collect();
    assert!(out.len() >= 3, "want >=3 chunks, got {}", out.len());
    assert!(joined.iter().any(|t| t.contains("fn alpha")));
    assert!(joined
        .iter()
        .any(|t| t.contains("struct Beta") && !t.contains("fn alpha")));
    assert!(joined.iter().any(|t| t.contains("fn gamma")));
    // Line ranges are within bounds and non-decreasing.
    for (_, s, e) in &out {
        assert!(*s >= 1 && e >= s);
    }
}

#[test]
fn rust_symbols_via_ast() {
    let src = "fn alpha() {}\nstruct Beta;\nimpl Beta { fn method(&self) {} }\n";
    let syms = extract_symbols_ts(src, Lang::Rust).unwrap();
    assert!(syms.contains(&"sym:alpha".to_string()));
    assert!(syms.contains(&"sym:Beta".to_string()));
    assert!(
        syms.contains(&"sym:method".to_string()),
        "nested method symbol"
    );
}

#[test]
fn typescript_function_symbol_caught_by_ast() {
    // The regex extractor misses JS/TS `function`; the AST catches it.
    let src = "export function doThing(x: number): number { return x; }\n";
    let syms = extract_symbols_ts(src, Lang::TypeScript).unwrap();
    assert!(syms.contains(&"sym:doThing".to_string()));
}

#[test]
fn empty_content_is_no_chunks() {
    assert_eq!(chunk_code_ts("", Lang::Rust).unwrap().len(), 0);
}
