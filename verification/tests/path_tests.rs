use unity_asset_core::pointer::{decode_token, path_child, path_index, paths_overlap, unescape};
use unity_asset_core::{array_hint_pattern, escape_pointer, id, property_tokens, PropertyToken};

#[test]
fn escape_and_decode_are_inverse() {
    assert_eq!(escape_pointer("a/b~c"), "a~1b~0c");
    assert_eq!(decode_token("a~1b~0c").unwrap(), "a/b~c");
    assert_eq!(decode_token(&escape_pointer("~1/~0")).unwrap(), "~1/~0");
    assert_eq!(unescape("a~1b~0c"), "a/b~c");
}

#[test]
fn invalid_pointer_escapes_are_rejected() {
    let error = decode_token("a~2").unwrap_err();
    assert_eq!(error.code, "property_path");
    assert!(decode_token("a~").is_err());
}

#[test]
fn child_pointers_escape_keys_and_number_items() {
    assert_eq!(path_child("/MonoBehaviour", "a/b"), "/MonoBehaviour/a~1b");
    assert_eq!(path_index("/list", 12), "/list/12");
}

#[test]
fn overlapping_paths_share_a_segment_prefix() {
    assert!(paths_overlap("/a/b", "/a/b"));
    assert!(paths_overlap("/a", "/a/b"));
    assert!(paths_overlap("/a/b/c", "/a/b"));
    assert!(!paths_overlap("/a/bc", "/a/b"));
    assert!(!paths_overlap("/a/b", "/a/c"));
}

#[test]
fn array_hints_replace_indexes_with_wildcards() {
    assert_eq!(array_hint_pattern("/MonoBehaviour/list/3/values/12"), "/MonoBehaviour/list/*/values/*");
    assert_eq!(array_hint_pattern("/a//b"), "/a//b");
    assert_eq!(array_hint_pattern(""), "");
}

#[test]
fn property_paths_tokenize_fields_and_indexes() {
    assert_eq!(
        property_tokens("m_List.Array.data[3].value").unwrap(),
        vec![
            PropertyToken::Field("m_List".into()),
            PropertyToken::Index(3),
            PropertyToken::Field("value".into())
        ]
    );
    assert_eq!(property_tokens("").unwrap(), vec![]);
    assert_eq!(property_tokens("Array.data[0]").unwrap(), vec![PropertyToken::Index(0)]);
}

#[test]
fn property_path_errors() {
    assert_eq!(property_tokens("a.Array.data[01]").unwrap_err(), "property.invalid_path: invalid array index");
    assert_eq!(property_tokens("a.Array.data[]").unwrap_err(), "property.invalid_path: invalid array index");
    assert_eq!(property_tokens("a.Array.data[1").unwrap_err(), "property.invalid_path: invalid array index");
    assert_eq!(
        property_tokens("a.Array.data[99999999999999999999999]").unwrap_err(),
        "property.invalid_path: array index overflow"
    );
    assert_eq!(property_tokens("a..b").unwrap_err(), "property.invalid_path: a..b");
    assert_eq!(property_tokens("a[1]").unwrap_err(), "property.invalid_path: a[1]");
    assert_eq!(property_tokens("a.Array.size").unwrap_err(), "property.invalid_path: a.Array.size");
    let deep = vec!["a"; 513].join(".");
    assert_eq!(property_tokens(&deep).unwrap_err(), "property.limit: path is too deep");
    assert_eq!(property_tokens(&vec!["a"; 512].join(".")).unwrap().len(), 512);
}

#[test]
fn object_ids_are_canonical_nonzero_integers() {
    assert_eq!(id("11400000").unwrap(), 11400000);
    assert_eq!(id("-5").unwrap(), -5);
    assert_eq!(id("9223372036854775807").unwrap(), i64::MAX);
    assert_eq!(id("-9223372036854775808").unwrap(), i64::MIN);
    for bad in ["0", "+5", "05", "-0", "", "x", "9223372036854775808", " 5"] {
        assert_eq!(id(bad).unwrap_err(), "property.invalid_id", "{bad}");
    }
}
