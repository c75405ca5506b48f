use engram::graph::extract_edges;
use engram::model::{EdgeKind, RawEdge};
use engram::treesit::Lang;

fn names(v: &[&str]) -> Vec<String> {
    v.iter().map(|s| s.to_string()).collect()
}


#[test]
fn rust_same_file_call_confidence_1() {
    let src = r#"
fn helper() {}
fn caller() {
    helper();
}
"#;
    let edges = extract_edges(src, Lang::Rust, &names(&["helper", "caller"]));
    let calls: Vec<&RawEdge> = edges
        .iter()
        .filter(|e| e.dst_sym == "sym:helper" && matches!(e.edge_kind, EdgeKind::Calls))
        .collect();
    assert!(
        !calls.is_empty(),
        "expected CALLS edge to sym:helper; got {edges:?}"
    );
    assert!(
        calls[0].confidence == 100,
        "expected confidence 1.0, got {}",
        calls[0].confidence
    );
}

#[test]
fn rust_imported_call_confidence_0_6() {
    let src = r#"
use crate::store::Store;
fn caller(s: Store) {
    s.open("x");
}
"#;
    let edges = extract_edges(src, Lang::Rust, &names(&["caller"]));
    let uses: Vec<&RawEdge> = edges
        .iter()
        .filter(|e| e.dst_sym == "sym:Store" && matches!(e.edge_kind, EdgeKind::UsesType))
        .collect();
    assert!(
        !uses.is_empty(),
        "expected USES_TYPE edge to sym:Store; got {edges:?}"
    );
    assert!(
        uses[0].confidence >= 59,
        "expected confidence ~0.6, got {}",
        uses[0].confidence
    );
}

#[test]
fn rust_use_decl_imports_edge() {
    let src = "use crate::store::Store;\nuse std::collections::HashMap;\n";
    let edges = extract_edges(src, Lang::Rust, &names(&[]));
    let imp_store = edges
        .iter()
        .any(|e| e.dst_sym == "sym:Store" && matches!(e.edge_kind, EdgeKind::Imports));
    let imp_map = edges
        .iter()
        .any(|e| e.dst_sym == "sym:HashMap" && matches!(e.edge_kind, EdgeKind::Imports));
    assert!(imp_store, "expected IMPORTS sym:Store; got {edges:?}");
    assert!(imp_map, "expected IMPORTS sym:HashMap; got {edges:?}");
}

#[test]
fn cpp_call_and_uses_type() {
    let src = r#"
#include "Stitcher.h"
struct Pixel { int r; };
int blend(Pixel p) {
    return process(p.r);
}
"#;
    let edges = extract_edges(src, Lang::Cpp, &names(&["blend", "Pixel"]));
    let calls_process = edges
        .iter()
        .any(|e| e.dst_sym == "sym:process" && matches!(e.edge_kind, EdgeKind::Calls));
    let uses_pixel = edges
        .iter()
        .any(|e| e.dst_sym == "sym:Pixel" && matches!(e.edge_kind, EdgeKind::UsesType));
    assert!(calls_process, "expected CALLS sym:process; got {edges:?}");
    assert!(uses_pixel, "expected USES_TYPE sym:Pixel; got {edges:?}");
    let pixel_edge = edges
        .iter()
        .find(|e| e.dst_sym == "sym:Pixel" && matches!(e.edge_kind, EdgeKind::UsesType))
        .unwrap();
    assert!(
        pixel_edge.confidence == 100,
        "Pixel defined in file → confidence 1.0, got {}",
        pixel_edge.confidence
    );
}

#[test]
fn cpp_include_imports_edge() {
    let src = r#"
#include <stdio.h>
#include "MyLib.hpp"
void run() {}
"#;
    let edges = extract_edges(src, Lang::Cpp, &names(&["run"]));
    let has_stdio = edges
        .iter()
        .any(|e| e.dst_sym == "sym:stdio" && matches!(e.edge_kind, EdgeKind::Imports));
    let has_mylib = edges
        .iter()
        .any(|e| e.dst_sym == "sym:MyLib" && matches!(e.edge_kind, EdgeKind::Imports));
    assert!(has_stdio, "expected IMPORTS sym:stdio; got {edges:?}");
    assert!(has_mylib, "expected IMPORTS sym:MyLib; got {edges:?}");
}

#[test]
fn unsupported_lang_returns_empty() {
    let edges = extract_edges("def foo(): pass", Lang::Python, &names(&[]));
    assert!(edges.is_empty(), "expected empty for Python; got {edges:?}");
}

#[test]
fn parse_failure_graceful() {
    let edges = extract_edges("", Lang::Rust, &names(&[]));
    assert!(edges.is_empty());
}
