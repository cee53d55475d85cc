use unity_asset_core::fields::{field_at, is_managed_reference};
use unity_asset_core::parse;

const TEXT: &str = "%YAML 1.1\n%TAG !u! tag:unity3d.com,2011:\n--- !u!114 &11\nMonoBehaviour:\n  m_Name: hero\n  m_Script: {fileID: 11500000, guid: 0123456789abcdef0123456789abcdef, type: 3}\n  slot:\n    rid: 5\n  list:\n  - 10\n  - 20\n  odd~key: 1\n";

#[test]
fn field_at_finds_fields_and_items() {
    let asset = parse(TEXT.as_bytes()).unwrap();
    let name = field_at(&asset, "11", "/MonoBehaviour/m_Name").unwrap();
    assert_eq!(asset.text(name.span), "hero");
    let item = field_at(&asset, "11", "/MonoBehaviour/list/1").unwrap();
    assert_eq!(asset.text(item.span), "20");
    let plus = field_at(&asset, "11", "/MonoBehaviour/list/+0").unwrap();
    assert_eq!(asset.text(plus.span), "10");
    let escaped = field_at(&asset, "11", "/MonoBehaviour/odd~0key").unwrap();
    assert_eq!(asset.text(escaped.span), "1");
    let slot = field_at(&asset, "11", "/MonoBehaviour/slot").unwrap();
    assert!(is_managed_reference(slot));
    assert!(!is_managed_reference(name));
}

#[test]
fn field_at_reports_each_refusal() {
    let asset = parse(TEXT.as_bytes()).unwrap();
    let e = field_at(&asset, "99", "/MonoBehaviour/m_Name").unwrap_err();
    assert_eq!((e.code.as_str(), e.message.as_str(), e.offset), ("unknown_object", "asset has no object 99", 0));
    let e = field_at(&asset, "11", "/MonoBehaviour").unwrap_err();
    assert_eq!(e.code, "property_path");
    assert_eq!(e.message, "field path must include the root type and a field");
    let e = field_at(&asset, "11", "MonoBehaviour/m_Name").unwrap_err();
    assert_eq!(e.code, "property_path");
    let e = field_at(&asset, "11", "/MonoBehaviour/a~2b").unwrap_err();
    assert_eq!((e.code.as_str(), e.message.as_str()), ("property_path", "invalid JSON pointer escape"));
    let body = asset.documents[0].root.get("MonoBehaviour").unwrap();
    let e = field_at(&asset, "11", "/MonoBehaviour/nope").unwrap_err();
    assert_eq!(e.code, "unknown_field");
    assert_eq!(e.message, "object 11 has no field /MonoBehaviour/nope");
    assert_eq!(e.offset, body.span.start);
    let e = field_at(&asset, "11", "/MonoBehaviour/list/2").unwrap_err();
    assert_eq!(e.code, "unknown_field");
    let e = field_at(&asset, "11", "/MonoBehaviour/m_Script/fileID").unwrap_err();
    assert_eq!(e.code, "reference_scope");
    let e = field_at(&asset, "11", "/MonoBehaviour/slot/rid").unwrap_err();
    assert_eq!(e.code, "reference_scope");
}
