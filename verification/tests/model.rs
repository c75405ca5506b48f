use engram::model::{taint_str, EdgeKind, RawEdge, Taint};


#[test]
fn taint_serializes_snake_case() {
    assert_eq!(taint_str(Taint::ExternalSync), "external_sync");
    assert_eq!(Taint::default(), Taint::Internal);
}

#[test]
fn edge_kind_as_str_round_trips() {
    assert_eq!(EdgeKind::Calls.as_str(), "CALLS");
    assert_eq!(EdgeKind::UsesType.as_str(), "USES_TYPE");
    assert_eq!(EdgeKind::Imports.as_str(), "IMPORTS");

    assert_eq!(EdgeKind::parse("CALLS"), Some(EdgeKind::Calls));
    assert_eq!(EdgeKind::parse("USES_TYPE"), Some(EdgeKind::UsesType));
    assert_eq!(EdgeKind::parse("IMPORTS"), Some(EdgeKind::Imports));
    assert_eq!(EdgeKind::parse("calls"), None); // case-sensitive
    assert_eq!(EdgeKind::parse("UNKNOWN"), None);
}

#[test]
fn raw_edge_fields_accessible() {
    let e = RawEdge {
        dst_sym: "sym:FooBar".into(),
        edge_kind: EdgeKind::Calls,
        src_line: Some(42),
        confidence: 90,
    };
    assert_eq!(e.dst_sym, "sym:FooBar");
    assert_eq!(e.edge_kind.as_str(), "CALLS");
    assert_eq!(e.src_line, Some(42));
    assert!(e.confidence == 90);
    // no src_doc_id field on RawEdge — verify by exhaustive struct literal above compiling
}
