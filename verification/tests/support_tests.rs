use unity_asset_core::aliases::{point_at, rename_snapshot_keys, split_pointer, yaml_key};
use unity_asset_core::indent::reindent;
use unity_asset_core::json::json_yaml;
use unity_asset_core::splice::replace_spans;
use unity_asset_core::type_names::{
    builtin_field, builtin_member, builtin_members, builtin_object, builtin_parent, element_type, integer_range,
    normalized_type, packed_element, raw, short_name, tokens,
};
use unity_asset_core::{
    parse, prepare_merge, Decision, FieldAlias, JsonValue, MergeSession, PackedElement, Resolution, Span,
};

const HEADER: &str =
    "%YAML 1.1\n%TAG !u! tag:unity3d.com,2011:\n--- !u!114 &11400000\nMonoBehaviour:\n";

fn asset(body: &str) -> Vec<u8> {
    format!("{HEADER}{body}").into_bytes()
}

fn text(v: &JsonValue) -> String {
    json_yaml(v).unwrap()
}

fn number(t: &str) -> JsonValue {
    JsonValue::Number(t.to_string())
}

fn member(k: &str, v: JsonValue) -> (String, JsonValue) {
    (k.to_string(), v)
}

// ---------------------------------------------------------------------------
// Type names.

#[test]
fn type_names_drop_global_layout_and_nesting() {
    assert_eq!(normalized_type("global::Game.Outer+Inner"), "Game.Outer.Inner");
    assert_eq!(normalized_type("List< int >"), "List<int>");
    assert_eq!(normalized_type("A/B\n"), "A.B");
    assert_eq!(short_name("UnityEngine.Vector3"), "Vector3");
    assert_eq!(short_name("Vector3"), "Vector3");
    assert_eq!(short_name("Game."), "");
}

#[test]
fn element_types_of_arrays_and_lists() {
    assert_eq!(element_type("int[]"), Some("int".to_string()));
    assert_eq!(element_type("List<Game.Item>"), Some("Game.Item".to_string()));
    assert_eq!(element_type("System.Collections.Generic.List<float>"), Some("float".to_string()));
    assert_eq!(element_type("global::Game.Thing [ ]"), Some("Game.Thing".to_string()));
    assert_eq!(element_type("int"), None);
}

#[test]
fn integer_ranges_and_packed_elements_follow_the_short_name() {
    assert_eq!(integer_range("System.SByte"), Some((-128, 127)));
    assert_eq!(integer_range("ushort"), Some((0, 65535)));
    assert_eq!(integer_range("char"), Some((0, 65535)));
    assert_eq!(integer_range("LayerMask"), Some((-2147483648, 2147483647)));
    assert_eq!(integer_range("ulong"), Some((0, 18446744073709551615)));
    assert_eq!(integer_range("float"), None);
    assert_eq!(packed_element("System.Boolean"), Some(PackedElement::Bool));
    assert_eq!(packed_element("Char"), Some(PackedElement::U16));
    assert_eq!(packed_element("double"), Some(PackedElement::F64));
    assert_eq!(packed_element("LayerMask"), None);
}

#[test]
fn builtin_members_objects_and_parents() {
    assert_eq!(builtin_members("UnityEngine.Color32").unwrap(), vec![("r", "byte"), ("g", "byte"), ("b", "byte"), ("a", "byte")]);
    assert_eq!(builtin_members("Quaternion").unwrap().len(), 4);
    assert!(builtin_members("Matrix4x4").is_none());
    assert_eq!(builtin_member("Rect", "height"), Some("float"));
    assert_eq!(builtin_member("Vector2Int", "z"), None);
    assert!(builtin_object("UnityEngine.Sprite"));
    assert!(!builtin_object("Game.Player"));
    assert_eq!(builtin_parent("MonoBehaviour"), Some("Behaviour"));
    assert_eq!(builtin_parent("RectTransform"), Some("Transform"));
    assert_eq!(builtin_parent("Sprite"), Some("Object"));
    assert_eq!(builtin_parent("Object"), None);
    assert_eq!(builtin_parent("Game.Player"), None);
}

#[test]
fn builtin_fields_depend_on_the_root_type() {
    assert_eq!(builtin_field("MonoBehaviour", "m_Script").unwrap().name, "MonoScript");
    assert!(builtin_field("GameObject", "m_Script").is_none());
    assert_eq!(builtin_field("RectTransform", "m_Pivot").unwrap().name, "Vector2");
    assert!(builtin_field("Transform", "m_Pivot").is_none());
    assert_eq!(builtin_field("Transform", "m_Children").unwrap().name, "Transform[]");
    let f = builtin_field("Anything", "serializedVersion").unwrap();
    assert_eq!(f.name, "int");
    assert_eq!(f.context, "");
    assert!(!f.managed);
}

#[test]
fn pointer_tokens_are_decoded() {
    assert_eq!(tokens("/a~1b/c~0d"), Some(vec!["a/b".to_string(), "c~d".to_string()]));
    assert_eq!(tokens("/"), Some(vec!["".to_string()]));
    assert_eq!(tokens("a"), None);
    assert_eq!(tokens("/bad~2"), None);
}

#[test]
fn raw_scalars_lose_white_space_and_quotes() {
    let bytes = asset("  a: \"quoted\"\n  b: 'single'\n  c: plain\n  d: {x: 1}\n");
    let parsed = parse(&bytes).unwrap();
    let body = parsed.documents[0].root.get("MonoBehaviour").unwrap();
    assert_eq!(raw(&parsed, body.get("a").unwrap()), Some("quoted".to_string()));
    assert_eq!(raw(&parsed, body.get("b").unwrap()), Some("single".to_string()));
    assert_eq!(raw(&parsed, body.get("c").unwrap()), Some("plain".to_string()));
    assert_eq!(raw(&parsed, body.get("d").unwrap()), None);
}

// ---------------------------------------------------------------------------
// Span replacement and reindenting.

#[test]
fn span_replacement_keeps_other_bytes_and_refuses_overlaps() {
    let bytes = b"0123456789".to_vec();
    assert_eq!(replace_spans(&bytes, Vec::new()).unwrap(), bytes);
    let one = replace_spans(&bytes, vec![(Span { start: 2, end: 4 }, b"ab".to_vec())]).unwrap();
    assert_eq!(one, b"01ab456789".to_vec());
    let two = replace_spans(
        &bytes,
        vec![(Span { start: 8, end: 9 }, b"X".to_vec()), (Span { start: 0, end: 1 }, b"YY".to_vec())],
    )
    .unwrap();
    assert_eq!(two, b"YY1234567X9".to_vec());
    let e = replace_spans(
        &bytes,
        vec![(Span { start: 1, end: 5 }, Vec::new()), (Span { start: 3, end: 6 }, Vec::new())],
    )
    .unwrap_err();
    assert_eq!(e.code, "overlapping_patch");
    assert_eq!(e.offset, 3);
}

#[test]
fn reindent_moves_lines_and_keeps_a_first_line_after_a_dash() {
    assert_eq!(reindent(b"  a: 1\n  b:\n    c: 2\n", 2, 2, "\n"), b"  a: 1\n  b:\n    c: 2\n".to_vec());
    assert_eq!(reindent(b"  a: 1\n  b:\n    c: 2\n", 2, 4, "\r\n"), b"    a: 1\r\n    b:\r\n      c: 2\r\n".to_vec());
    assert_eq!(reindent(b"a: 1\n    b: 2", 4, 2, "\n"), b"a: 1\n  b: 2".to_vec());
    assert_eq!(reindent(b"    x: 1\r\n", 4, 0, "\n"), b"x: 1\n".to_vec());
}

// ---------------------------------------------------------------------------
// JSON values written as flow YAML.

#[test]
fn json_values_are_written_as_flow_yaml() {
    assert_eq!(text(&JsonValue::Null), "null");
    assert_eq!(text(&JsonValue::Bool(true)), "1");
    assert_eq!(text(&JsonValue::Bool(false)), "0");
    assert_eq!(text(&number("-2.5")), "-2.5");
    assert_eq!(text(&JsonValue::Text("a: b\n".to_string())), "\"a: b\\n\"");
    assert_eq!(text(&JsonValue::Array(vec![number("1"), JsonValue::Array(Vec::new())])), "[1, []]");
    let obj = JsonValue::Object(vec![member("z", number("1")), member("a b", number("2")), member("m", JsonValue::Null)]);
    assert_eq!(text(&obj), "{\"a b\": 2, m: null, z: 1}");
    assert_eq!(text(&JsonValue::Packed("0a0b".to_string())), "0a0b");
}

#[test]
fn reference_guids_are_bare_and_must_be_hexadecimal() {
    let good = JsonValue::Object(vec![
        member("guid", JsonValue::Text("aabbccdd00112233445566778899AABB".to_string())),
        member("fileID", number("11500000")),
        member("type", number("3")),
    ]);
    assert_eq!(text(&good), "{fileID: 11500000, guid: aabbccdd00112233445566778899AABB, type: 3}");
    let bad = JsonValue::Object(vec![member("fileID", number("1")), member("guid", JsonValue::Text("xyz".to_string()))]);
    let e = json_yaml(&bad).unwrap_err();
    assert_eq!(e.code, "invalid_guid");
    let not_reference = JsonValue::Object(vec![member("guid", JsonValue::Text("xyz".to_string()))]);
    assert_eq!(text(&not_reference), "{guid: \"xyz\"}");
}

// ---------------------------------------------------------------------------
// Aliases and pointers.

#[test]
fn yaml_keys_and_pointer_splitting() {
    assert_eq!(yaml_key("m_Value2"), "m_Value2");
    assert_eq!(yaml_key("a b"), "\"a b\"");
    assert_eq!(split_pointer("/MonoBehaviour/a~1b").unwrap(), ("/MonoBehaviour".to_string(), "a/b".to_string()));
    assert_eq!(split_pointer("/top").unwrap(), ("".to_string(), "top".to_string()));
    assert_eq!(split_pointer("top").unwrap_err().code, "property_path");
    assert_eq!(split_pointer("/x~9").unwrap_err().message, "invalid JSON pointer escape");
}

#[test]
fn pointers_walk_mappings_and_sequences() {
    let bytes = asset("  rows:\n  - name: a\n  - name: b\n  flow: {x: 1}\n");
    let parsed = parse(&bytes).unwrap();
    let p = point_at(&parsed, "11400000", "/MonoBehaviour/rows/1/name").unwrap().unwrap();
    assert_eq!(parsed.text(p.node.span), "b");
    assert!(point_at(&parsed, "11400000", "/MonoBehaviour/rows/2").unwrap().is_none());
    assert!(point_at(&parsed, "11400000", "/MonoBehaviour/flow/x").unwrap().unwrap().entry.is_some());
    assert!(point_at(&parsed, "999", "/MonoBehaviour").unwrap().is_none());
    assert!(point_at(&parsed, "11400000", "MonoBehaviour").is_err());
}

#[test]
fn renaming_aliased_keys_keeps_every_other_byte() {
    let bytes = asset("  health: 100 # note\n  local: 7\n");
    let parsed = parse(&bytes).unwrap();
    let alias = FieldAlias {
        object_id: "11400000".into(),
        old_path: "/MonoBehaviour/health".into(),
        new_path: "/MonoBehaviour/hit points".into(),
    };
    let renamed = rename_snapshot_keys(&parsed, &[alias.clone()]).unwrap();
    assert_eq!(renamed, asset("  \"hit points\": 100 # note\n  local: 7\n"));
    let untouched = rename_snapshot_keys(&parse(&asset("  local: 7\n")).unwrap(), &[alias.clone()]).unwrap();
    assert_eq!(untouched, asset("  local: 7\n"));
    let both = parse(&asset("  health: 1\n  \"hit points\": 2\n")).unwrap();
    assert_eq!(rename_snapshot_keys(&both, &[alias.clone()]).unwrap_err().code, "ambiguous_alias");
    let twice = rename_snapshot_keys(&parsed, &[alias.clone(), alias]).unwrap_err();
    assert_eq!(twice.code, "ambiguous_alias");
    assert_eq!(twice.message, "multiple aliases modify the same key");
}

#[test]
fn alias_checks_refuse_ambiguous_or_unproven_renames() {
    let base = asset("  health: 100\n");
    let target = asset("  hitPoints: 100\n");
    let make = |old: &str, new: &str| FieldAlias {
        object_id: "11400000".into(),
        old_path: old.into(),
        new_path: new.into(),
    };
    let ok = make("/MonoBehaviour/health", "/MonoBehaviour/hitPoints");
    let code = |aliases: &[FieldAlias], t: &[u8]| {
        unity_asset_core::prepare_merge_with_aliases(&base, t, &base, aliases).err().map(|e| e.code)
    };
    assert_eq!(code(&[ok.clone(), ok.clone()], &target), Some("ambiguous_alias".to_string()));
    assert_eq!(code(&[make("/MonoBehaviour/health", "/Other/hitPoints")], &target), Some("alias_scope".to_string()));
    assert_eq!(code(&[make("/MonoBehaviour/hitPoints", "/MonoBehaviour/hitPoints")], &target), Some("alias_scope".to_string()));
    assert_eq!(code(&[ok.clone()], &base), Some("alias_target".to_string()));
    assert_eq!(code(&[make("health", "/MonoBehaviour/hitPoints")], &target), Some("property_path".to_string()));
    let session = unity_asset_core::prepare_merge_with_aliases(&base, &target, &base, &[ok]).unwrap();
    assert_eq!(session.catalog().aliases.len(), 1);
    assert_eq!(session.catalog().base_hash, parse(&base).unwrap().content_hash);
    assert!(session.catalog().changes.is_empty());
}

// ---------------------------------------------------------------------------
// Rendering decisions.

fn session(base: &[u8], target: &[u8], source: &[u8]) -> MergeSession {
    prepare_merge(base, target, source).unwrap()
}

fn decision(id: &str, resolution: Resolution) -> Decision {
    Decision { change_id: id.to_string(), resolution }
}

#[test]
fn no_decisions_and_idle_decisions_keep_the_target() {
    let base = asset("  a: 1\n  b: 2\n");
    let target = asset("  a: 1\n  b: 3\n");
    let source = asset("  a: 5\n  b: 2\n");
    let s = session(&base, &target, &source);
    let out = s.render(&[]).unwrap();
    assert!(out.ready);
    assert_eq!(out.bytes, target);
    assert!(out.applied_change_ids.is_empty());
    let id = s.catalog().changes[0].id.clone();
    let idle = s.render(&[decision(&id, Resolution::Exclude), MergeSession::object_decision("11400000", Resolution::Defer)]).unwrap();
    assert_eq!(idle.bytes, target);
    let applied = s.render(&[decision(&id, Resolution::Include)]).unwrap();
    assert_eq!(applied.bytes, asset("  a: 5\n  b: 3\n"));
    assert_eq!(applied.applied_change_ids, vec![id]);
}

#[test]
fn whole_file_choices_take_a_snapshot_as_given() {
    let base = asset("  a: 1\n");
    let target = asset("  a: 2\n");
    let source = asset("  a: 3\n");
    let s = session(&base, &target, &source);
    for (r, expected) in [(Resolution::Source, &source), (Resolution::Target, &target), (Resolution::Base, &base)] {
        let out = s.render(&[MergeSession::file_decision(r)]).unwrap();
        assert_eq!(&out.bytes, expected);
        assert_eq!(out.applied_change_ids, vec!["$file".to_string()]);
    }
    assert_eq!(s.render(&[MergeSession::file_decision(Resolution::Include)]).unwrap_err().code, "whole_file_resolution");
    let id = s.catalog().changes[0].id.clone();
    let e = s.render(&[MergeSession::file_decision(Resolution::Source), decision(&id, Resolution::Include)]).unwrap_err();
    assert_eq!(e.code, "overlapping_scope");
}

#[test]
fn decision_errors_name_their_cause() {
    let base = asset("  a: 1\n  flow: {x: 1}\n  rows:\n  - 1\n");
    let source = asset("  a: 2\n  flow: {x: 1}\n  rows:\n  - 1\n");
    let s = session(&base, &base, &source);
    let id = s.catalog().changes[0].id.clone();
    let code = |ds: &[Decision]| s.render(ds).unwrap_err().code;
    assert_eq!(code(&[decision(&id, Resolution::Include), decision(&id, Resolution::Exclude)]), "duplicate_decision");
    assert_eq!(code(&[decision("nope", Resolution::Include)]), "unknown_change");
    assert_eq!(code(&[decision("$field:not json", Resolution::Source)]), "field_selector");
    assert_eq!(code(&[MergeSession::object_decision("11400000", Resolution::Include)]), "object_resolution");
    assert_eq!(code(&[MergeSession::object_decision("42", Resolution::Delete)]), "unknown_object");
    assert_eq!(
        code(&[MergeSession::object_decision("11400000", Resolution::Source), decision(&id, Resolution::Include)]),
        "overlapping_scope"
    );
    let field = |path: &str, r: Resolution| MergeSession::field_decision("11400000", path, r);
    assert_eq!(code(&[field("", Resolution::Delete)]), "field_scope");
    assert_eq!(code(&[field("/MonoBehaviour/none/x", Resolution::Delete)]), "missing_parent");
    assert_eq!(code(&[field("/MonoBehaviour/flow/y", Resolution::SetValue { value: JsonValue::Null })]), "insert_scope");
    assert_eq!(code(&[field("/MonoBehaviour/b", Resolution::Delete)]), "unknown_field");
    assert_eq!(code(&[field("/MonoBehaviour/flow/x", Resolution::Delete)]), "delete_scope");
    assert_eq!(code(&[field("/MonoBehaviour/new", Resolution::Source)]), "missing_side_field");
    assert_eq!(code(&[field("/MonoBehaviour/a", Resolution::Include)]), "field_resolution");
    let bad_guid = JsonValue::Object(vec![member("fileID", number("1")), member("guid", JsonValue::Null)]);
    assert_eq!(code(&[decision(&id, Resolution::SetValue { value: bad_guid })]), "invalid_guid");
}

#[test]
fn typed_values_replace_a_change_and_fields_can_be_deleted_or_taken() {
    let base = asset("  a: 1\n  b: 2\n");
    let source = asset("  a: 7\n  b: 2\n");
    let s = session(&base, &base, &source);
    let id = s.catalog().changes[0].id.clone();
    let typed = s.render(&[decision(&id, Resolution::SetValue { value: JsonValue::Array(vec![number("1"), number("2")]) })]).unwrap();
    assert_eq!(typed.bytes, asset("  a: [1, 2]\n  b: 2\n"));
    let deleted = s.render(&[MergeSession::field_decision("11400000", "/MonoBehaviour/b", Resolution::Delete)]).unwrap();
    assert_eq!(deleted.bytes, asset("  a: 1\n"));
    let taken = s.render(&[MergeSession::field_decision("11400000", "/MonoBehaviour/a", Resolution::Source)]).unwrap();
    assert_eq!(taken.bytes, source);
    let kept = s.render(&[MergeSession::field_decision("11400000", "/MonoBehaviour/a", Resolution::Target)]).unwrap();
    assert_eq!(kept.bytes, base);
}

#[test]
fn overlapping_replacements_are_conflicts() {
    let base = asset("  pos: {x: 0, y: 0}\n");
    let source = asset("  pos: {x: 1, y: 0}\n");
    let s = session(&base, &base, &source);
    let id = s.catalog().changes[0].id.clone();
    let out = s
        .render(&[
            decision(&id, Resolution::Include),
            MergeSession::field_decision("11400000", "/MonoBehaviour/pos", Resolution::Source),
        ])
        .unwrap();
    assert!(!out.ready);
    assert_eq!(out.bytes, base);
    assert!(out.conflicts.iter().any(|c| c.code == "overlapping_patch"));
}

#[test]
fn decisions_for_an_object_cover_its_changes() {
    let base = asset("  a: 1\n  b: 2\n");
    let source = asset("  a: 3\n  b: 4\n");
    let s = session(&base, &base, &source);
    let ds = s.decisions_for_object("11400000", Resolution::Source);
    assert_eq!(ds.len(), 2);
    assert_eq!(ds[0].change_id, s.catalog().changes[0].id);
    assert!(matches!(ds[1].resolution, Resolution::Source));
    assert!(s.decisions_for_object("5", Resolution::Source).is_empty());
    assert_eq!(s.render(&ds).unwrap().bytes, source);
    let d = MergeSession::field_decision("1", "/a", Resolution::Delete);
    assert_eq!(d.change_id, "$field:[\"1\",\"/a\"]");
    assert_eq!(MergeSession::object_decision("7", Resolution::Base).change_id, "$object:7");
}

// ---------------------------------------------------------------------------
// Laws of change detection on concrete snapshots.

#[test]
fn a_target_equal_to_base_makes_every_change_clean() {
    let base = asset("  a: 1\n  rows: [1, 2]\n  flow: {x: 1}\n");
    let source = asset("  a: 2\n  rows: [3]\n  flow: {x: 4}\n  added: 5\n");
    let s = session(&base, &base, &source);
    assert!(!s.catalog().changes.is_empty());
    assert!(s.catalog().changes.iter().all(|c| c.status == unity_asset_core::ChangeStatus::Clean));
}

#[test]
fn an_unchanged_source_has_no_changes() {
    let base = asset("  a: 1\n  b: 2\n");
    let target = asset("  a: 9\n  c: 3\n");
    let s = session(&base, &target, &base);
    assert!(s.catalog().changes.is_empty());
    assert_eq!(s.render(&include_every(&s)).unwrap().bytes, target);
}

fn include_every(s: &MergeSession) -> Vec<Decision> {
    s.catalog().changes.iter().map(|c| decision(&c.id, Resolution::Include)).collect()
}
