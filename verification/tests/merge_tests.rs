use unity_asset_core::{parse, prepare_merge, ChangeKind, ChangeStatus, MergeSession};

const HEADER: &str =
    "%YAML 1.1\n%TAG !u! tag:unity3d.com,2011:\n--- !u!114 &11400000\nMonoBehaviour:\n";

fn asset(body: &str) -> Vec<u8> {
    format!("{HEADER}{body}").into_bytes()
}

fn graph() -> Vec<u8> {
    asset(&[
        "  m_Script: {fileID: 11500000, guid: aabbccdd00112233445566778899aabb, type: 3}\n",
        "  localValue: 10\n  incomingValue: 20\n  unknownFutureField: {x: 19, y: 23}\n",
        "  root: {rid: 101}\n  alias: {rid: 9007199254740993}\n  optional: {rid: -2}\n",
        "  references:\n    version: 2\n    RefIds:\n",
        "    - rid: 101\n      type: {class: MergeGroup, ns: Locus.MergeTesting, asm: Locus}\n      data:\n",
        "        label: Root\n        next: {rid: 9007199254740993}\n        children:\n",
        "        - rid: 9007199254740993\n        - rid: 103\n        - rid: 9007199254740993\n",
        "    - rid: 9007199254740993\n      type: {class: MergeAction, ns: Locus.MergeTesting, asm: Locus}\n      data:\n",
        "        label: Shared\n        next: {rid: 101}\n        health: 100\n        speed: 1\n",
        "    - rid: 103\n      type: {class: MergeAction, ns: Locus.MergeTesting, asm: Locus}\n      data:\n",
        "        label: Alternate\n        next: {rid: -2}\n        health: 30\n        speed: 3\n",
    ].concat())
}

fn replace(bytes: &[u8], old: &str, new: &str) -> Vec<u8> {
    String::from_utf8(bytes.to_vec())
        .unwrap()
        .replace(old, new)
        .into_bytes()
}

#[test]
fn identical_snapshots_have_no_changes() {
    let bytes = asset("  unknown: \"value: # literal\" # comment\n  empty:\n  null: null\n  list: [1, '2', {a: 3}]\n");
    let session = prepare_merge(&bytes, &bytes, &bytes).unwrap();
    assert!(session.catalog().changes.is_empty());
    assert_eq!(session.catalog().parser_version, 1);
    assert_eq!(session.catalog().base_hash, session.base_asset().content_hash);
    assert_eq!(session.target_asset().bytes, bytes);
}

#[test]
fn missing_empty_null_and_quoted_empty_are_three_changes() {
    let base = asset("  value:\n  emptyString: \"\"\n  explicitNull: null\n");
    let source = asset("  value: null\n  emptyString:\n");
    let session = prepare_merge(&base, &base, &source).unwrap();
    let changes = &session.catalog().changes;
    assert_eq!(changes.len(), 3);
    assert_eq!(changes[0].property_path, "/MonoBehaviour/value");
    assert_eq!(changes[0].kind, ChangeKind::ModifyField);
    assert_eq!(changes[0].status, ChangeStatus::Clean);
    assert_eq!(changes[2].property_path, "/MonoBehaviour/explicitNull");
    assert_eq!(changes[2].kind, ChangeKind::RemoveField);
    assert!(changes[2].source.is_none());
    assert_eq!(changes[2].base.as_ref().unwrap().kind, "scalar:Null");
}

#[test]
fn shared_cyclic_graph_changes_are_addressed_by_rid() {
    let base = graph();
    let target = replace(&replace(&base, "health: 100", "health: 75"), "localValue: 10", "localValue: 99");
    let source = replace(
        &replace(&replace(&base, "speed: 1\n", "speed: 2.5\n"), "incomingValue: 20", "incomingValue: 88"),
        "label: Alternate",
        "label: Selected alternate",
    );
    let session = prepare_merge(&base, &target, &source).unwrap();
    assert_eq!(session.catalog().changes.len(), 3);
    assert!(session
        .catalog()
        .changes
        .iter()
        .any(|c| c.property_path.contains("@rid=9007199254740993/data/speed")));
    assert!(session.catalog().changes.iter().all(|c| c.status == ChangeStatus::Clean));
}

#[test]
fn change_ids_do_not_depend_on_target() {
    let base = graph();
    let target = replace(&base, "localValue: 10", "localValue: 99");
    let source = replace(&replace(&base, "speed: 1\n", "speed: 2.5\n"), "incomingValue: 20", "incomingValue: 88");
    let session = prepare_merge(&base, &target, &source).unwrap();
    let clean = prepare_merge(&base, &base, &source).unwrap();
    let a: Vec<_> = session.catalog().changes.iter().map(|c| c.id.clone()).collect();
    let b: Vec<_> = clean.catalog().changes.iter().map(|c| c.id.clone()).collect();
    assert_eq!(a, b);
    assert_eq!(a.len(), 2);
    assert!(a.iter().all(|id| id.len() == 64));
}

#[test]
fn conflicting_field_is_a_conflict() {
    let base = graph();
    let target = replace(&base, "health: 100", "health: 75");
    let source = replace(&base, "health: 100", "health: 42");
    let session = prepare_merge(&base, &target, &source).unwrap();
    let change = &session.catalog().changes[0];
    assert_eq!(change.status, ChangeStatus::Conflict);
    assert_eq!(change.target.as_ref().unwrap().raw, "75");
    assert_eq!(change.source.as_ref().unwrap().raw, "42");
    let applied = prepare_merge(&base, &source, &source).unwrap();
    assert_eq!(applied.catalog().changes[0].status, ChangeStatus::AlreadyApplied);
}

#[test]
fn managed_type_change_is_one_conflict() {
    let base = graph();
    let target = replace(&base, "health: 100", "health: 75");
    let source = replace(&replace(&base, "class: MergeAction", "class: MergeWeightedAction"), "speed: 1\n", "weight: 9\n");
    let session = prepare_merge(&base, &target, &source).unwrap();
    let changed = session
        .catalog()
        .changes
        .iter()
        .find(|c| c.property_path.ends_with("@rid=9007199254740993"))
        .unwrap();
    assert_eq!(changed.status, ChangeStatus::Conflict);
    assert!(changed.reason.as_deref().unwrap().contains("type identity"));
}

#[test]
fn pointer_fields_form_one_change() {
    let base = asset("  reference: {fileID: 100, guid: aabbccdd00112233445566778899aabb, type: 3}\n");
    let target = replace(&base, "fileID: 100", "fileID: 200");
    let source = replace(&base, "aabbccdd00112233445566778899aabb", "112233445566778899aabbccddeeff00");
    let session = prepare_merge(&base, &target, &source).unwrap();
    assert_eq!(session.catalog().changes.len(), 1);
    assert_eq!(session.catalog().changes[0].status, ChangeStatus::Conflict);
    assert_eq!(
        session.catalog().changes[0].reason.as_deref(),
        Some("PPtr GUID/fileID/type form one reference identity")
    );
}

#[test]
fn ordinary_arrays_are_replaced_whole() {
    let base = asset("  values: [1, 1, 2]\n");
    let target = asset("  values: [1, 2, 1]\n");
    let source = asset("  values: [9, 1, 2]\n");
    let session = prepare_merge(&base, &target, &source).unwrap();
    let changes = &session.catalog().changes;
    assert_eq!(changes.len(), 1);
    assert_eq!(changes[0].kind, ChangeKind::ReplaceSequence);
    assert_eq!(changes[0].status, ChangeStatus::Conflict);
}

#[test]
fn removed_object_is_an_object_change() {
    let base = b"--- !u!1 &1\nGameObject:\n  m_Component:\n  - component: {fileID: 2}\n--- !u!114 &2\nMonoBehaviour:\n  m_GameObject: {fileID: 1}\n  value: 0\n";
    let source = b"--- !u!1 &1\nGameObject:\n  m_Component: []\n";
    let session = prepare_merge(base, base, source).unwrap();
    let deletion = session
        .catalog()
        .changes
        .iter()
        .find(|c| c.kind == ChangeKind::RemoveObject)
        .unwrap();
    assert_eq!(deletion.object_id, "2");
    assert_eq!(deletion.property_path, "");
    assert_eq!(deletion.status, ChangeStatus::Clean);
}

#[test]
fn unwritable_snapshots_are_refused() {
    let duplicate = asset("  value: 1\n  value: 2\n");
    let error = prepare_merge(&duplicate, &duplicate, &duplicate).unwrap_err();
    assert_eq!(error.code, "invalid_asset");
    let a = parse(&duplicate).unwrap();
    let b = parse(&duplicate).unwrap();
    let c = parse(&duplicate).unwrap();
    assert!(MergeSession::new(a, b, c).is_err());
}

#[test]
fn snapshot_diagnostics_are_prefixed() {
    let base = asset("  a: {rid: 7}\n");
    let session = prepare_merge(&base, &base, &base).unwrap();
    let messages: Vec<_> = session.catalog().diagnostics.iter().map(|d| d.message.clone()).collect();
    assert_eq!(
        messages,
        vec![
            "base: rid 7 is absent from host 11400000's registry",
            "target: rid 7 is absent from host 11400000's registry",
            "source: rid 7 is absent from host 11400000's registry",
        ]
    );
}

#[test]
fn statuses_agree_with_summary_hashes() {
    let base = graph();
    let source = replace(&base, "health: 100", "health: 42");
    let applied = prepare_merge(&base, &source, &source).unwrap();
    for change in &applied.catalog().changes {
        assert_eq!(change.status, ChangeStatus::AlreadyApplied);
        assert_eq!(change.target.as_ref().map(|s| s.hash.clone()), change.source.as_ref().map(|s| s.hash.clone()));
    }
    let clean = prepare_merge(&base, &base, &source).unwrap();
    assert!(!clean.catalog().changes.is_empty());
    for change in &clean.catalog().changes {
        assert_eq!(change.status, ChangeStatus::Clean);
        assert_eq!(change.target.as_ref().map(|s| s.hash.clone()), change.base.as_ref().map(|s| s.hash.clone()));
        assert_ne!(change.target.as_ref().map(|s| s.hash.clone()), change.source.as_ref().map(|s| s.hash.clone()));
    }
}

#[test]
fn shared_snapshots_build_the_same_catalog() {
    let base = graph();
    let source = replace(&base, "incomingValue: 20", "incomingValue: 88");
    let owned = prepare_merge(&base, &base, &source).unwrap();
    let shared = MergeSession::from_shared(
        std::sync::Arc::new(parse(&base).unwrap()),
        std::sync::Arc::new(parse(&base).unwrap()),
        std::sync::Arc::new(parse(&source).unwrap()),
    )
    .unwrap();
    let ids = |s: &MergeSession| s.catalog().changes.iter().map(|c| c.id.clone()).collect::<Vec<_>>();
    assert_eq!(ids(&owned), ids(&shared));
    assert_eq!(shared.source_asset().bytes, source);
}

#[test]
fn same_byte_pairs_share_arcs_and_render_preserves_the_exact_target() {
    let a = b"--- !u!114 &11400000\nMonoBehaviour:\n  health: 100 # a\n";
    let b = b"--- !u!114 &11400000\nMonoBehaviour:\n  health: 101 # b\n";
    for (base, target, source) in [
        (a.as_slice(), a.as_slice(), b.as_slice()),
        (a.as_slice(), b.as_slice(), a.as_slice()),
        (a.as_slice(), b.as_slice(), b.as_slice()),
        (a.as_slice(), a.as_slice(), a.as_slice()),
    ] {
        let session = prepare_merge(base, target, source).unwrap();
        assert_eq!(std::ptr::eq(session.base_asset(), session.target_asset()), base == target);
        assert_eq!(std::ptr::eq(session.base_asset(), session.source_asset()), base == source);
        assert_eq!(std::ptr::eq(session.target_asset(), session.source_asset()), target == source);
        assert_eq!(session.render(&[]).unwrap().bytes, target);
    }
}

#[test]
fn alias_normalization_shares_originals_and_matching_normalized_target() {
    let old = b"--- !u!114 &11400000\r\nMonoBehaviour:\r\n  health: 100 # preserved\r\n";
    let target = b"--- !u!114 &11400000\r\nMonoBehaviour:\r\n  hitPoints: 100 # preserved\r\n";
    let session = unity_asset_core::prepare_merge_with_aliases(
        old,
        target,
        old,
        &[unity_asset_core::FieldAlias {
            object_id: "11400000".into(),
            old_path: "/MonoBehaviour/health".into(),
            new_path: "/MonoBehaviour/hitPoints".into(),
        }],
    )
    .unwrap();
    assert!(std::ptr::eq(session.original_base_asset().unwrap(), session.original_source_asset().unwrap()));
    assert!(std::ptr::eq(session.base_asset(), session.target_asset()));
    assert!(std::ptr::eq(session.target_asset(), session.source_asset()));
    assert_eq!(session.render(&[]).unwrap().bytes, target);
    assert_eq!(
        session.render(&[MergeSession::file_decision(unity_asset_core::Resolution::Source)]).unwrap().bytes,
        old
    );
}

#[test]
fn rendering_no_decisions_is_the_ready_target() {
    let base = graph();
    let target = replace(&base, "health: 100", "health: 75");
    let source = replace(&base, "health: 100", "health: 42");
    let session = prepare_merge(&base, &target, &source).unwrap();
    let out = session.render(&[]).unwrap();
    assert!(out.ready);
    assert!(out.conflicts.is_empty());
    assert!(out.applied_change_ids.is_empty());
    assert_eq!(out.bytes, target);
}
