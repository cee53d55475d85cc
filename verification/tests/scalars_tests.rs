use unity_asset_core::fields::field_at;
use unity_asset_core::parse;
use unity_asset_core::scalars::scalar_string;

const TEXT: &[u8] = b"--- !u!114 &11\nMonoBehaviour:\n  plain: value with spaces\n  empty:\n  quoted: 'it''s'\n  double: \"tab\\there\"\n  folded: first\n    second\n  map:\n    a: 1\n";

#[test]
fn single_line_plain_scalar_is_its_trimmed_text() {
    let asset = parse(TEXT).unwrap();
    let node = field_at(&asset, "11", "/MonoBehaviour/plain").unwrap();
    assert_eq!(scalar_string(&asset, node).unwrap(), "value with spaces");
}

#[test]
fn empty_scalar_reads_as_empty_string() {
    let asset = parse(TEXT).unwrap();
    let node = field_at(&asset, "11", "/MonoBehaviour/empty").unwrap();
    assert_eq!(scalar_string(&asset, node).unwrap(), "");
}

#[test]
fn quoted_scalars_are_decoded_by_yaml() {
    let asset = parse(TEXT).unwrap();
    let single = field_at(&asset, "11", "/MonoBehaviour/quoted").unwrap();
    assert_eq!(scalar_string(&asset, single).unwrap(), "it's");
    let double = field_at(&asset, "11", "/MonoBehaviour/double").unwrap();
    assert_eq!(scalar_string(&asset, double).unwrap(), "tab\there");
}

#[test]
fn folded_plain_scalar_joins_its_lines() {
    let asset = parse(TEXT).unwrap();
    let node = field_at(&asset, "11", "/MonoBehaviour/folded").unwrap();
    assert_eq!(scalar_string(&asset, node).unwrap(), "first second");
}

#[test]
fn mapping_is_not_a_scalar_string() {
    let asset = parse(TEXT).unwrap();
    let node = field_at(&asset, "11", "/MonoBehaviour/map").unwrap();
    let err = scalar_string(&asset, node).unwrap_err();
    assert_eq!(err.code, "reference_value");
    assert_eq!(err.offset, node.span.start);
}

#[test]
fn duplicate_keys_and_object_ids_are_reported_by_code() {
    let keys = parse(b"--- !u!114 &1\nMonoBehaviour:\n  value: 1\n  value: 2\n").unwrap();
    assert!(keys.diagnostics.iter().any(|d| d.code == "duplicate_key"));
    let ids = parse(b"--- !u!1 &1\nGameObject:\n  value: 1\n--- !u!1 &1\nGameObject:\n  value: 2\n").unwrap();
    assert!(ids.diagnostics.iter().any(|d| d.code == "duplicate_object_id"));
    assert_eq!(ids.documents.len(), 2);
}
