use hostfacts::json::{normalize, to_json_string, JsonValue};

fn obj(entries: Vec<(&str, JsonValue)>) -> JsonValue {
    JsonValue::Obj(entries.into_iter().map(|(k, v)| (k.to_string(), v)).collect())
}

fn s(text: &str) -> JsonValue {
    JsonValue::Str(text.to_string())
}

#[test]
fn serializer_is_compact_and_ordered() {
    let v = obj(vec![("b", s("x")), ("a", JsonValue::Bool(true)), ("c", JsonValue::Null)]);
    let n = normalize(&v);
    assert_eq!(to_json_string(&n), "{\"a\":true,\"b\":\"x\",\"c\":null}");
}

#[test]
fn serializer_escapes_special_characters() {
    let v = s("a\"b\\c\nd\te\rf");
    assert_eq!(to_json_string(&v), "\"a\\\"b\\\\c\\nd\\te\\rf\"");
}

#[test]
fn serializer_handles_arrays_and_nesting() {
    let v = obj(vec![
        ("list", JsonValue::Arr(vec![s("one"), s("two"), JsonValue::Bool(false)])),
        ("empty", JsonValue::Arr(Vec::new())),
    ]);
    let n = normalize(&v);
    assert_eq!(
        to_json_string(&n),
        "{\"empty\":[],\"list\":[\"one\",\"two\",false]}"
    );
}

#[test]
fn normalize_is_idempotent_on_nested_value() {
    let v = obj(vec![
        ("z", obj(vec![("k2", s("v2")), ("k1", s("v1"))])),
        ("a", JsonValue::Arr(vec![obj(vec![("y", s("1")), ("x", s("2"))])])),
    ]);
    let once = normalize(&v);
    let twice = normalize(&once);
    assert_eq!(to_json_string(&once), to_json_string(&twice));
}

#[test]
fn normalize_sorts_keys_recursively() {
    let v = obj(vec![("outer", obj(vec![("b", s("2")), ("a", s("1"))]))]);
    let n = normalize(&v);
    assert_eq!(to_json_string(&n), "{\"outer\":{\"a\":\"1\",\"b\":\"2\"}}");
}

#[test]
fn normalize_never_reorders_arrays() {
    let v = JsonValue::Arr(vec![s("c"), s("a"), s("b")]);
    let n = normalize(&v);
    assert_eq!(to_json_string(&n), "[\"c\",\"a\",\"b\"]");
}

#[test]
fn insertion_order_does_not_change_serialized_output() {
    let v1 = obj(vec![("a", s("1")), ("b", s("2")), ("c", s("3"))]);
    let v2 = obj(vec![("c", s("3")), ("a", s("1")), ("b", s("2"))]);
    assert_eq!(
        to_json_string(&normalize(&v1)),
        to_json_string(&normalize(&v2))
    );
}

#[test]
fn insertion_order_blindness_holds_at_depth() {
    let v1 = obj(vec![("wrap", obj(vec![("x", s("1")), ("y", s("2"))]))]);
    let v2 = obj(vec![("wrap", obj(vec![("y", s("2")), ("x", s("1"))]))]);
    assert_eq!(
        to_json_string(&normalize(&v1)),
        to_json_string(&normalize(&v2))
    );
}

#[test]
fn serialized_output_is_well_formed_json() {
    let v = obj(vec![
        ("text", s("quote \" and backslash \\")),
        ("flag", JsonValue::Bool(true)),
        ("nothing", JsonValue::Null),
        ("items", JsonValue::Arr(vec![s("x"), s("y")])),
    ]);
    let out = to_json_string(&normalize(&v));
    let parsed: serde_json::Value = serde_json::from_str(&out).expect("valid JSON");
    assert_eq!(parsed["text"], "quote \" and backslash \\");
    assert_eq!(parsed["flag"], true);
    assert!(parsed["nothing"].is_null());
    assert_eq!(parsed["items"][1], "y");
}
