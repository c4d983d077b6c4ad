use qemu_hmp::completer::{extract_segment_kv, toplevel_comma_positions};

fn kv(key: &str, val: Option<&str>) -> Option<(String, Option<String>)> {
    Some((key.to_string(), val.map(|v| v.to_string())))
}

#[test]
fn toplevel_commas_flat() {
    let s = r#""a": 1, "b": 2, "c": 3"#;
    assert_eq!(toplevel_comma_positions(s), vec![6, 14]);
}

#[test]
fn toplevel_commas_nested_braces() {
    let s = r#""a": {"x": 1, "y": 2}, "b": 3"#;
    assert_eq!(toplevel_comma_positions(s), vec![21]);
}

#[test]
fn toplevel_commas_nested_brackets() {
    let s = r#""a": [1, 2, 3], "b": 4"#;
    assert_eq!(toplevel_comma_positions(s), vec![14]);
}

#[test]
fn toplevel_commas_string_with_comma() {
    let s = r#""a": "hello, world", "b": 5"#;
    assert_eq!(toplevel_comma_positions(s), vec![19]);
}

#[test]
fn toplevel_commas_empty() {
    assert_eq!(toplevel_comma_positions(""), Vec::<usize>::new());
}

#[test]
fn toplevel_commas_no_comma() {
    let s = r#""a": 1"#;
    assert_eq!(toplevel_comma_positions(s), Vec::<usize>::new());
}

#[test]
fn toplevel_commas_deeply_nested() {
    let s = r#""a": {"b": {"c": 1, "d": 2}}, "e": 3"#;
    assert_eq!(toplevel_comma_positions(s), vec![28]);
}

#[test]
fn toplevel_commas_escaped_quote_in_string() {
    let s = r#""a": "he said \"hi\", ok", "b": 1"#;
    assert_eq!(toplevel_comma_positions(s), vec![25]);
}

#[test]
fn toplevel_commas_are_byte_offsets() {
    // 'é' takes two bytes.
    assert_eq!(toplevel_comma_positions("é,a"), vec![2]);
    assert_eq!(toplevel_comma_positions("}},a"), vec![2]);
}

#[test]
fn extract_kv_string_value() {
    assert_eq!(
        extract_segment_kv(r#" "driver": "e1000""#),
        kv("driver", Some("e1000"))
    );
}

#[test]
fn extract_kv_number_value() {
    assert_eq!(extract_segment_kv(r#" "count": 42"#), kv("count", None));
}

#[test]
fn extract_kv_object_value() {
    assert_eq!(
        extract_segment_kv(r#" "file": {"path": "/tmp"}"#),
        kv("file", None)
    );
}

#[test]
fn extract_kv_bool_value() {
    assert_eq!(
        extract_segment_kv(r#" "enabled": true"#),
        kv("enabled", None)
    );
}

#[test]
fn extract_kv_incomplete_key() {
    assert_eq!(extract_segment_kv(r#" "dri"#), None);
}

#[test]
fn extract_kv_empty() {
    assert_eq!(extract_segment_kv("  "), None);
}

#[test]
fn extract_kv_unterminated_string_value() {
    assert_eq!(extract_segment_kv(r#""a": "open"#), None);
    assert_eq!(extract_segment_kv(r#""a" 1"#), None);
    assert_eq!(extract_segment_kv(r#""a":"#), None);
}
