use rapx::analysis::verify::scan::{
    has_rapx_verify_attr, is_std_crate_name, normalize_json_trailing_commas, uses_std_backup_contracts,
    AttrInfo,
};

#[test]
fn normalize_json_trailing_commas_works() {
    let normalized = normalize_json_trailing_commas("{\"k\":[1,2,],}");
    let parsed: serde_json::Value = serde_json::from_str(normalized.as_str()).unwrap();
    let expected = serde_json::Value::Array(vec![
        serde_json::Value::from(1),
        serde_json::Value::from(2),
    ]);
    assert_eq!(parsed["k"], expected);
}

#[test]
fn normalize_drops_only_trailing_commas() {
    assert_eq!(normalize_json_trailing_commas("{\"k\":[1,2,],}"), "{\"k\":[1,2]}");
    assert_eq!(normalize_json_trailing_commas("[1, 2]"), "[1, 2]");
    assert_eq!(normalize_json_trailing_commas("[1,\n\t ]"), "[1\n\t ]");
    assert_eq!(normalize_json_trailing_commas("{\"a\": 1 , }"), "{\"a\": 1  }");
}

#[test]
fn normalize_keeps_commas_before_other_text() {
    assert_eq!(normalize_json_trailing_commas("[1,,]"), "[1,]");
    assert_eq!(normalize_json_trailing_commas("[\",]\"]"), "[\"]\"]");
    assert_eq!(normalize_json_trailing_commas(","), ",");
    assert_eq!(normalize_json_trailing_commas(", x ]"), ", x ]");
}

#[test]
fn normalize_handles_empty_and_unicode_whitespace() {
    assert_eq!(normalize_json_trailing_commas(""), "");
    assert_eq!(normalize_json_trailing_commas("[1,\u{3000}]"), "[1\u{3000}]");
    assert_eq!(normalize_json_trailing_commas("[1,\u{200B}]"), "[1,\u{200B}]");
}

#[test]
fn std_crate_names() {
    assert!(is_std_crate_name("core"));
    assert!(is_std_crate_name("std"));
    assert!(is_std_crate_name("alloc"));
    assert!(!is_std_crate_name("rapx"));
    assert!(!is_std_crate_name("stdx"));
    assert!(!is_std_crate_name(""));
}

fn attr(is_doc_comment: bool, path: &[&str]) -> AttrInfo {
    AttrInfo { is_doc_comment, path: path.iter().map(|s| s.to_string()).collect() }
}

#[test]
fn rapx_verify_attribute_is_found() {
    assert!(has_rapx_verify_attr(&[attr(false, &["inline"]), attr(false, &["rapx", "verify"])]));
    assert!(!has_rapx_verify_attr(&[]));
    assert!(!has_rapx_verify_attr(&[attr(true, &["rapx", "verify"])]));
    assert!(!has_rapx_verify_attr(&[attr(false, &["rapx"])]));
    assert!(!has_rapx_verify_attr(&[attr(false, &["rapx", "verify", "x"])]));
    assert!(!has_rapx_verify_attr(&[attr(false, &["verify", "rapx"])]));
}

#[test]
fn normalize_skips_every_unicode_space_before_a_closer() {
    let text = "[1,\u{85}\u{A0}\u{1680}\u{2000}\u{200A}\u{2028}\u{2029}\u{202F}\u{205F}]";
    let expected = "[1\u{85}\u{A0}\u{1680}\u{2000}\u{200A}\u{2028}\u{2029}\u{202F}\u{205F}]";
    assert_eq!(normalize_json_trailing_commas(text), expected);
    assert_eq!(normalize_json_trailing_commas("{\"a\":1,\u{1F}}"), "{\"a\":1,\u{1F}}");
}

#[test]
fn std_backup_contracts_only_without_annotations() {
    assert!(uses_std_backup_contracts(true, "core"));
    assert!(uses_std_backup_contracts(true, "alloc"));
    assert!(!uses_std_backup_contracts(false, "std"));
    assert!(!uses_std_backup_contracts(true, "rapx"));
}
