use unity_asset_core::asset::Asset;
use unity_asset_core::syntax::{Limits, NodeKind, ScalarStyle, Severity};
use unity_asset_core::parse;

const HEADER: &str =
    "%YAML 1.1\n%TAG !u! tag:unity3d.com,2011:\n--- !u!114 &11400000\nMonoBehaviour:\n";

fn asset(body: &str) -> Vec<u8> {
    format!("{HEADER}{body}").into_bytes()
}

#[test]
fn parses_nested_flow_quotes_wrapped_plain_strings_and_indented_sequences() {
    let bytes = asset(&[
        "  nested: {first: [1, {label: 'a, b: it''s', ref: {fileID: 0}}],\n    second: \"escaped \\\" Unicode \\u4e2d\"}\n",
        "  'key: with spaces': value\n  wrapped: packed\n    continuation\n",
        "  list:\n    - name: one\n      nested:\n        - value: 1\n        - value: 2\n    - name: two\n      nested: []\n",
        "  tail: final\n",
    ].concat());
    let parsed = parse(&bytes).unwrap();
    let body = parsed.documents[0].root.get("MonoBehaviour").unwrap();
    assert_eq!(body.get("list").unwrap().items().unwrap().len(), 2);
    assert!(body
        .get("nested")
        .unwrap()
        .get("first")
        .unwrap()
        .items()
        .is_some());
    assert_eq!(body.get("tail").unwrap().scalar(&parsed).as_deref(), Some("final"));
}

#[test]
fn parser_limits_are_enforced_before_unbounded_recursion() {
    let bytes = asset("  nested: {one: {two: {three: 1}}}\n");
    assert!(Asset::parse_with_limits(
        &bytes,
        Limits {
            max_depth: 2,
            ..Limits::default()
        }
    )
    .is_err());
    assert!(Asset::parse_with_limits(
        &bytes,
        Limits {
            max_nodes: 2,
            ..Limits::default()
        }
    )
    .is_err());
    assert!(Asset::parse_with_limits(
        &bytes,
        Limits {
            max_bytes: 4,
            ..Limits::default()
        }
    )
    .is_err());
}

#[test]
fn parse_keeps_exact_bytes_with_bom_crlf_unknown_fields_and_comments() {
    let text = String::from_utf8(asset("  unknown: \"value: # literal\" # comment\n  empty:\n  null: null\n  list: [1, '2', {a: 3}]\n  block: |-\n    one: literal\n    # text\n\n")).unwrap();
    let bytes = format!("\u{feff}{}", text.replace('\n', "\r\n")).into_bytes();
    let parsed = parse(&bytes).unwrap();
    assert_eq!(parsed.bytes.as_slice(), bytes.as_slice());
    assert_eq!(parsed.newline, "\r\n");
    assert!(parsed.is_writable());
    let body = parsed.documents[0].root.get("MonoBehaviour").unwrap();
    assert_eq!(body.get("list").unwrap().items().unwrap().len(), 3);
    assert_eq!(body.get("unknown").unwrap().scalar(&parsed).as_deref(), Some("\"value: # literal\""));
}

#[test]
fn duplicate_keys_and_objects_make_the_asset_unwritable() {
    let duplicate = asset("  value: 1\n  value: 2\n");
    let parsed = parse(&duplicate).unwrap();
    assert!(!parsed.is_writable());
    let repeated = b"--- !u!1 &1\nGameObject:\n  value: 1\n--- !u!1 &1\nGameObject:\n  value: 2\n";
    assert!(!parse(repeated).unwrap().is_writable());
    assert!(parse(&asset("  value: 1\n  other: 2\n")).unwrap().is_writable());
}

#[test]
fn unsupported_syntax_is_an_error() {
    assert!(parse(&asset("  value: *alias\n")).is_err());
    assert!(parse(&asset("  value: [1, 2\n")).is_err());
    assert!(parse(b"\xff\x00").is_err());
}

#[test]
fn pre_checks_report_their_own_codes_and_offsets() {
    let small = Limits { max_bytes: 4, ..Limits::default() };
    let error = Asset::parse_with_limits(b"--- !u!1 &1\n", small).unwrap_err();
    assert_eq!(error.code, "size_limit");
    assert_eq!(error.offset, 0);
    let error = parse(b"--- !u!1 &1\nGameObject:\n  a: \xc3\n").unwrap_err();
    assert_eq!(error.code, "invalid_utf8");
    assert_eq!(error.offset, 29);
    let error = parse(b"--- !u!1 &1\nGameObject:\n  a: \x00\n").unwrap_err();
    assert_eq!(error.code, "binary_asset");
    let error = parse(b"--- !u!1 &1\nGameObject:\n\ta: 1\n").unwrap_err();
    assert_eq!(error.code, "tab_indentation");
    assert_eq!(error.offset, 24);
    assert_eq!(error.to_text(), "tab_indentation at byte 24: tab indentation is outside the supported Unity dialect");
}

#[test]
fn empty_sequence_elements_remain_separate() {
    let bytes = asset("  strings:\n  - first\n  - \n  - second\n  - \n  tail: done\n");
    let parsed = parse(&bytes).unwrap();
    let items = parsed.documents[0]
        .root
        .get("MonoBehaviour")
        .unwrap()
        .get("strings")
        .unwrap()
        .items()
        .unwrap();
    assert_eq!(items.len(), 4);
    assert!(matches!(items[1].value.kind, NodeKind::Scalar(ScalarStyle::Empty)));
    assert_eq!(items[2].value.scalar(&parsed).as_deref(), Some("second"));
}

#[test]
fn missing_empty_null_and_quoted_empty_have_distinct_fingerprints() {
    let base = asset("  value:\n  emptyString: \"\"\n  explicitNull: null\n");
    let body = parse(&base).unwrap();
    let map = body.documents[0].root.get("MonoBehaviour").unwrap();
    assert_ne!(map.get("value").unwrap().fingerprint, map.get("emptyString").unwrap().fingerprint);
    assert_ne!(map.get("value").unwrap().fingerprint, map.get("explicitNull").unwrap().fingerprint);
    assert!(matches!(map.get("explicitNull").unwrap().kind, NodeKind::Scalar(ScalarStyle::Null)));
    assert!(matches!(map.get("emptyString").unwrap().kind, NodeKind::Scalar(ScalarStyle::DoubleQuoted)));
}

#[test]
fn fingerprints_ignore_mapping_order() {
    let a = parse(&asset("  v: {x: 1, y: 2}\n")).unwrap();
    let b = parse(&asset("  v: {y: 2, x: 1}\n")).unwrap();
    let va = a.documents[0].root.get("MonoBehaviour").unwrap().get("v").unwrap();
    let vb = b.documents[0].root.get("MonoBehaviour").unwrap().get("v").unwrap();
    assert_eq!(va.fingerprint, vb.fingerprint);
}

#[test]
fn headers_give_object_and_class_ids_and_stripped_flags() {
    let bytes = b"--- !u!1 &10\nGameObject:\n  m_Name: A\n--- !u!4 &20 stripped\nTransform:\n  m_Father: {fileID: 0}\n";
    let parsed = parse(bytes).unwrap();
    assert_eq!(parsed.documents.len(), 2);
    assert_eq!(parsed.documents[0].object_id, "10");
    assert_eq!(parsed.documents[0].class_id.as_deref(), Some("1"));
    assert!(!parsed.documents[0].stripped);
    assert_eq!(parsed.documents[1].object_id, "20");
    assert!(parsed.documents[1].stripped);
    assert_eq!(parsed.newline, "\n");
    assert_eq!(parsed.document("20").unwrap().class_id.as_deref(), Some("4"));
    assert!(parsed.document("30").is_none());
    assert_eq!(parsed.content_hash.len(), 64);
}

#[test]
fn errors_are_error_severity() {
    let parsed = parse(&asset("  value: 1\n  value: 2\n")).unwrap();
    assert!(parsed.diagnostics.iter().all(|d| d.severity == Severity::Error));
    assert!(!parsed.diagnostics.is_empty());
}

#[test]
fn absent_asset_is_empty_and_distinct_from_an_empty_file() {
    let absent = Asset::absent();
    assert!(absent.bytes.is_empty());
    assert!(absent.documents.is_empty());
    assert_eq!(absent.newline, "\n");
    assert!(parse(b"").is_err());
}

#[test]
fn keys_and_scalar_styles_follow_the_text() {
    let bytes = asset("  flow: {'quoted key': 'v', \"dq\": \"w\", plain: ~, empty: }\n  block: |\n    text\n  folded: >\n    more\n  none:\n");
    let parsed = parse(&bytes).unwrap();
    let body = parsed.documents[0].root.get("MonoBehaviour").unwrap();
    let flow = body.get("flow").unwrap();
    assert!(flow.flow);
    assert_eq!(parsed.text(flow.span), "{'quoted key': 'v', \"dq\": \"w\", plain: ~, empty: }");
    match &flow.kind {
        NodeKind::Mapping(entries) => {
            let keys: Vec<&str> = entries.iter().map(|e| e.key.as_str()).collect();
            assert_eq!(keys, vec!["quoted key", "dq", "plain", "empty"]);
            assert_eq!(parsed.text(entries[0].key_span), "'quoted key'");
            assert!(matches!(entries[0].value.kind, NodeKind::Scalar(ScalarStyle::SingleQuoted)));
            assert!(matches!(entries[1].value.kind, NodeKind::Scalar(ScalarStyle::DoubleQuoted)));
            assert!(matches!(entries[2].value.kind, NodeKind::Scalar(ScalarStyle::Null)));
            assert!(matches!(entries[3].value.kind, NodeKind::Scalar(ScalarStyle::Empty)));
            assert!(entries.iter().all(|e| e.value.flow));
        }
        _ => panic!("flow mapping expected"),
    }
    assert!(matches!(body.get("block").unwrap().kind, NodeKind::Scalar(ScalarStyle::Literal)));
    assert!(matches!(body.get("folded").unwrap().kind, NodeKind::Scalar(ScalarStyle::Folded)));
    assert!(matches!(body.get("none").unwrap().kind, NodeKind::Scalar(ScalarStyle::Empty)));
}

#[test]
fn flow_sequences_keep_every_item_in_order() {
    let bytes = asset("  list: [1, '2', {a: 3, b: [x, y]}, [ ], last ]\n");
    let parsed = parse(&bytes).unwrap();
    let body = parsed.documents[0].root.get("MonoBehaviour").unwrap();
    let list = body.get("list").unwrap();
    match &list.kind {
        NodeKind::Sequence(items) => {
            let texts: Vec<String> = items.iter().map(|i| parsed.text(i.span)).collect();
            assert_eq!(texts, vec!["1", "'2'", "{a: 3, b: [x, y]}", "[ ]", "last"]);
            match &items[2].value.kind {
                NodeKind::Mapping(entries) => {
                    assert_eq!(entries.len(), 2);
                    match &entries[1].value.kind {
                        NodeKind::Sequence(inner) => assert_eq!(inner.len(), 2),
                        _ => panic!("inner flow sequence expected"),
                    }
                }
                _ => panic!("flow mapping expected"),
            }
            match &items[3].value.kind {
                NodeKind::Sequence(inner) => assert!(inner.is_empty()),
                _ => panic!("empty flow sequence expected"),
            }
        }
        _ => panic!("flow sequence expected"),
    }
}

#[test]
fn empty_input_is_an_empty_asset_and_documents_are_ordered() {
    assert_eq!(parse(b"").unwrap_err().code, "empty_asset");
    let bytes = b"--- !u!1 &1\nGameObject:\n  a: 1\n--- !u!1 &1\nGameObject:\n  b: 2\n--- !u!4 &3\nTransform:\n  c: 3\n";
    let parsed = parse(bytes).unwrap();
    assert_eq!(parsed.documents.len(), 3);
    for pair in parsed.documents.windows(2) {
        assert!(pair[0].span.end <= pair[1].span.start);
    }
    assert!(parsed.diagnostics.iter().all(|d| d.code == "duplicate_object_id"));
    assert_eq!(parsed.diagnostics.len(), 1);
}

#[test]
fn a_repeated_key_is_reported_at_its_second_occurrence() {
    let bytes = asset("  value: 1\n  value: 2\n");
    let parsed = parse(&bytes).unwrap();
    let body = parsed.documents[0].root.get("MonoBehaviour").unwrap();
    match &body.kind {
        NodeKind::Mapping(entries) => {
            assert_eq!(entries.len(), 2);
            let report = parsed.diagnostics.iter().find(|d| d.code == "duplicate_key").unwrap();
            assert_eq!(report.severity, Severity::Error);
            assert_eq!(report.span, entries[1].key_span);
        }
        _ => panic!("mapping expected"),
    }
}
