use parapet::json::flatten;

fn names(pairs: &[(String, Vec<u8>)]) -> Vec<&str> {
    pairs.iter().map(|(n, _)| n.as_str()).collect()
}

fn values(pairs: &[(String, Vec<u8>)]) -> Vec<String> {
    pairs
        .iter()
        .map(|(_, v)| String::from_utf8_lossy(v).into_owned())
        .collect()
}

#[test]
fn flattens_a_flat_object() {
    let out = flatten(br#"{"test": "payload"}"#).unwrap();
    assert_eq!(names(&out), vec!["json.test"]);
    assert_eq!(values(&out), vec!["payload"]);
}

#[test]
fn a_key_is_inspectable_as_a_name() {
    // CRS rules target ARGS_NAMES too, so a payload hidden in a key must
    // still reach them.
    let out = flatten(br#"{"com.opensymphony.xwork2": "test"}"#).unwrap();
    assert_eq!(names(&out), vec!["json.com.opensymphony.xwork2"]);
}

#[test]
fn flattens_nested_objects_and_arrays() {
    let out = flatten(br#"{"a": {"b": ["x", "y"]}}"#).unwrap();
    assert_eq!(names(&out), vec!["json.a.b.0", "json.a.b.1"]);
    assert_eq!(values(&out), vec!["x", "y"]);
}

#[test]
fn carries_scalars_of_every_type() {
    // Object keys are sorted, not in document order.
    let out = flatten(br#"{"n": 42, "b": true, "z": null}"#).unwrap();
    assert_eq!(names(&out), vec!["json.b", "json.n", "json.z"]);
    assert_eq!(values(&out), vec!["true", "42", ""]);
}

#[test]
fn array_order_is_preserved() {
    // Arrays are ordered by definition, and the index is part of the name.
    let out = flatten(br#"{"a": ["first", "second", "third"]}"#).unwrap();
    assert_eq!(values(&out), vec!["first", "second", "third"]);
}

#[test]
fn a_bare_scalar_document_is_still_inspectable() {
    let out = flatten(br#""payload""#).unwrap();
    assert_eq!(values(&out), vec!["payload"]);
}

#[test]
fn json_a_malformed_document_is_an_error_not_an_empty_result() {
    assert!(flatten(b"{not json").is_err());
    assert!(flatten(b"").is_err());
}
