use unity_asset_core::references::{AssetReference, ReferenceKind};
use unity_asset_core::syntax::Severity;
use unity_asset_core::{parse, validate};

const HEADER: &str =
    "%YAML 1.1\n%TAG !u! tag:unity3d.com,2011:\n--- !u!114 &11400000\nMonoBehaviour:\n";

fn asset(body: &str) -> Vec<u8> {
    format!("{HEADER}{body}").into_bytes()
}

fn graph() -> Vec<u8> {
    asset(&[
        "  m_Script: {fileID: 11500000, guid: aabbccdd00112233445566778899aabb, type: 3}\n",
        "  localValue: 10\n  incomingValue: 20\n  unknownFutureField: {x: 19, y: 23}\n",
        "  root: {rid: 101}\n  alias: {rid: 9007199254740993}\n  optional: {rid: -2}\n",
        "  references:\n    version: 2\n    RefIds:\n",
        "    - rid: 101\n      type: {class: MergeGroup, ns: Locus.MergeTesting, asm: Locus}\n      data:\n",
        "        label: Root\n        next: {rid: 9007199254740993}\n        children:\n",
        "        - rid: 9007199254740993\n        - rid: 103\n        - rid: 9007199254740993\n",
        "    - rid: 9007199254740993\n      type: {class: MergeAction, ns: Locus.MergeTesting, asm: Locus}\n      data:\n",
        "        label: Shared\n        next: {rid: 101}\n        health: 100\n        speed: 1\n",
        "    - rid: 103\n      type: {class: MergeAction, ns: Locus.MergeTesting, asm: Locus}\n      data:\n",
        "        label: Alternate\n        next: {rid: -2}\n        health: 30\n        speed: 3\n",
    ].concat())
}

fn replace(bytes: &[u8], old: &str, new: &str) -> Vec<u8> {
    String::from_utf8(bytes.to_vec())
        .unwrap()
        .replace(old, new)
        .into_bytes()
}

fn codes(bytes: &[u8]) -> Vec<String> {
    validate(&parse(bytes).unwrap()).into_iter().map(|d| d.code).collect()
}

#[test]
fn consistent_graph_has_no_diagnostics() {
    assert!(codes(&graph()).is_empty());
}

#[test]
fn duplicate_rid_is_reported() {
    let duplicate_rid = replace(&graph(), "rid: 103\n      type:", "rid: 101\n      type:");
    let diagnostics = validate(&parse(&duplicate_rid).unwrap());
    let found: Vec<_> = diagnostics.iter().filter(|d| d.code == "duplicate_rid").collect();
    assert_eq!(found.len(), 1);
    assert_eq!(found[0].message, "duplicate managed reference rid 101 in host 11400000");
    assert_eq!(found[0].object_id.as_deref(), Some("11400000"));
    assert_eq!(found[0].property_path.as_deref(), Some("/MonoBehaviour/references"));
    assert_eq!(found[0].severity, Severity::Error);
    // The removed rid 103 is now dangling.
    assert!(diagnostics.iter().any(|d| d.code == "dangling_managed_reference"
        && d.message == "rid 103 is absent from host 11400000's registry"));
}

#[test]
fn registry_entries_need_a_valid_rid_and_a_type() {
    let bytes = asset("  references:\n    version: 2\n    RefIds:\n    - rid: x1\n      type: {class: A}\n    - data: {}\n    - rid: 5\n");
    let diagnostics = validate(&parse(&bytes).unwrap());
    let codes: Vec<_> = diagnostics.iter().map(|d| d.code.as_str()).collect();
    assert_eq!(codes, vec!["invalid_rid", "missing_rid", "incomplete_managed_reference"]);
    assert_eq!(diagnostics[0].message, "managed reference ID x1 is not a signed 64-bit integer");
    assert_eq!(diagnostics[2].message, "rid 5 must preserve its type identity");
}

#[test]
fn registry_must_be_a_sequence_or_empty() {
    assert_eq!(codes(&asset("  references:\n    version: 2\n    RefIds: 7\n")), vec!["invalid_reference_registry"]);
    assert!(codes(&asset("  references:\n    version: 2\n    RefIds: \n")).is_empty());
}

#[test]
fn managed_references_must_be_registered_or_null() {
    assert!(codes(&asset("  a: {rid: -1}\n  b: {rid: -2}\n")).is_empty());
    assert_eq!(codes(&asset("  a: {rid: 7}\n")), vec!["dangling_managed_reference"]);
    let diagnostics = validate(&parse(&asset("  a: {rid: seven}\n")).unwrap());
    assert_eq!(diagnostics[0].code, "invalid_rid");
    assert_eq!(diagnostics[0].message, "rid seven is not a signed 64-bit integer");
    assert_eq!(diagnostics[0].property_path.as_deref(), Some("/MonoBehaviour/a"));
}

#[test]
fn object_pointers_are_checked() {
    let diagnostics = validate(&parse(&asset("  a: {fileID: 42}\n  b: {fileID: x}\n  c: {fileID: 0}\n  d: {fileID: 1, guid: zz, type: 2}\n")).unwrap());
    let codes: Vec<_> = diagnostics.iter().map(|d| d.code.as_str()).collect();
    assert_eq!(codes, vec!["dangling_local_reference", "invalid_file_id", "invalid_guid"]);
    assert_eq!(diagnostics[0].message, "local fileID 42 has no object in this asset snapshot");
    assert_eq!(diagnostics[1].message, "fileID x is not a signed 64-bit integer");
    assert_eq!(diagnostics[2].message, "invalid 128-bit GUID zz");
    assert!(codes_of_self_reference().is_empty());
}

fn codes_of_self_reference() -> Vec<String> {
    codes(&asset("  me: {fileID: 11400000}\n  ext: {fileID: 5, guid: 00000000000000000000000000000001, type: 3}\n"))
}

#[test]
fn component_lists_must_agree_with_owners() {
    let bytes = b"--- !u!1 &1\nGameObject:\n  m_Component:\n  - component: {fileID: 2}\n  - component: {fileID: 2}\n  - component: {fileID: 3}\n--- !u!4 &2\nTransform:\n  m_GameObject: {fileID: 1}\n  m_Father: {fileID: 0}\n  m_Children: []\n--- !u!114 &3\nMonoBehaviour:\n  m_GameObject: {fileID: 9}\n--- !u!114 &4\nMonoBehaviour:\n  m_GameObject: {fileID: 1}\n";
    let diagnostics = validate(&parse(bytes).unwrap());
    let codes: Vec<_> = diagnostics.iter().map(|d| d.code.as_str()).collect();
    assert_eq!(
        codes,
        vec!["duplicate_component", "component_owner_mismatch", "dangling_local_reference", "missing_owner_component"]
    );
    assert_eq!(diagnostics[0].message, "component fileID 2 is listed twice");
    assert_eq!(diagnostics[1].message, "component 3 belongs to another GameObject");
    assert_eq!(diagnostics[3].message, "GameObject 1 does not list component 4");
    assert_eq!(diagnostics[3].object_id.as_deref(), Some("4"));
}

#[test]
fn parents_and_children_must_list_each_other() {
    let bytes = b"--- !u!4 &1\nTransform:\n  m_Father: {fileID: 0}\n  m_Children:\n  - {fileID: 3}\n  - {fileID: 3}\n--- !u!4 &2\nTransform:\n  m_Father: {fileID: 0}\n  m_Children: []\n--- !u!4 &3\nTransform:\n  m_Father: {fileID: 2}\n  m_Children: []\n";
    let diagnostics = validate(&parse(bytes).unwrap());
    let codes: Vec<_> = diagnostics.iter().map(|d| d.code.as_str()).collect();
    assert_eq!(
        codes,
        vec!["child_parent_mismatch", "duplicate_child", "child_parent_mismatch", "parent_child_mismatch"]
    );
    assert_eq!(diagnostics[1].message, "child Transform 3 is listed twice");
    assert_eq!(diagnostics[0].message, "child Transform 3 points to parent 2, not 1");
    assert_eq!(diagnostics[3].message, "parent Transform 2 does not list child 3");
}

#[test]
fn transform_parent_cycles_are_reported() {
    let bytes = b"--- !u!4 &1\nTransform:\n  m_Father: {fileID: 2}\n  m_Children:\n  - {fileID: 2}\n--- !u!4 &2\nTransform:\n  m_Father: {fileID: 1}\n  m_Children:\n  - {fileID: 1}\n";
    let diagnostics = validate(&parse(bytes).unwrap());
    let cycles: Vec<_> = diagnostics.iter().filter(|d| d.code == "transform_cycle").collect();
    assert_eq!(cycles.len(), 1);
    assert_eq!(cycles[0].message, "Transform parent cycle includes 1");
    let acyclic = b"--- !u!4 &1\nTransform:\n  m_Father: {fileID: 0}\n  m_Children:\n  - {fileID: 2}\n--- !u!4 &2\nTransform:\n  m_Father: {fileID: 1}\n  m_Children: []\n";
    assert!(codes(acyclic).is_empty());
}

#[test]
fn parser_diagnostics_come_first() {
    let diagnostics = validate(&parse(&asset("  value: 1\n  value: 2\n  a: {rid: 5}\n")).unwrap());
    assert!(diagnostics.len() >= 2);
    assert_eq!(diagnostics.last().unwrap().code, "dangling_managed_reference");
    assert_ne!(diagnostics[0].code, "dangling_managed_reference");
}

fn kinds(refs: &[AssetReference]) -> Vec<ReferenceKind> {
    refs.iter().map(|r| r.kind.clone()).collect()
}

#[test]
fn references_are_listed_in_document_order() {
    let parsed = parse(&graph()).unwrap();
    let refs = parsed.references();
    assert_eq!(refs[0].kind, ReferenceKind::ExternalObject);
    assert_eq!(refs[0].property_path, "/MonoBehaviour/m_Script");
    assert_eq!(refs[0].file_id.as_deref(), Some("11500000"));
    assert_eq!(refs[0].guid.as_deref(), Some("aabbccdd00112233445566778899aabb"));
    assert_eq!(refs[0].host_object_id, "11400000");
    assert_eq!(refs[1].kind, ReferenceKind::ManagedReference);
    assert_eq!(refs[1].property_path, "/MonoBehaviour/root");
    assert_eq!(refs[1].rid.as_deref(), Some("101"));
    assert!(kinds(&refs[1..]).iter().all(|k| *k == ReferenceKind::ManagedReference));
    let children = refs
        .iter()
        .filter(|r| r.property_path.starts_with("/MonoBehaviour/references/RefIds/0/data/children/"))
        .count();
    assert_eq!(children, 3);
}

#[test]
fn local_pointers_and_escaped_keys() {
    let parsed = parse(&asset("  a/b: {fileID: 7}\n  c~d: {fileID: 8, guid: 00000000000000000000000000000000, type: 0}\n")).unwrap();
    let refs = parsed.references();
    assert_eq!(refs.len(), 2);
    assert_eq!(refs[0].kind, ReferenceKind::LocalObject);
    assert_eq!(refs[0].property_path, "/MonoBehaviour/a~1b");
    assert_eq!(refs[0].guid, None);
    assert_eq!(refs[1].kind, ReferenceKind::LocalObject);
    assert_eq!(refs[1].property_path, "/MonoBehaviour/c~0d");
}
