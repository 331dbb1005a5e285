use netsim::json::{deep_copy, from_chars, json_eq, obj_get, to_chars, JsonValue};

fn chars(s: &str) -> Vec<char> {
    s.chars().collect()
}

fn text(v: &JsonValue) -> String {
    to_chars(v).into_iter().collect()
}

#[test]
fn renders_scalars() {
    assert_eq!(text(&JsonValue::Null), "null");
    assert_eq!(text(&JsonValue::Bool(true)), "true");
    assert_eq!(text(&JsonValue::Bool(false)), "false");
    assert_eq!(text(&JsonValue::Int(0)), "0");
    assert_eq!(text(&JsonValue::Int(-42)), "-42");
    assert_eq!(text(&JsonValue::Int(i64::MIN)), "-9223372036854775808");
    assert_eq!(text(&JsonValue::Str("Ok".to_string())), "\"Ok\"");
}

#[test]
fn renders_escapes() {
    let v = JsonValue::Str("a\"b\\c\nd\te".to_string());
    assert_eq!(text(&v), "\"a\\\"b\\\\c\\nd\\te\"");
}

#[test]
fn renders_containers() {
    let v = JsonValue::Arr(vec![
        JsonValue::Int(1),
        JsonValue::Obj(vec![("k".to_string(), JsonValue::Null)]),
    ]);
    assert_eq!(text(&v), "[1,{\"k\":null}]");
    assert_eq!(text(&JsonValue::Arr(Vec::new())), "[]");
    assert_eq!(text(&JsonValue::Obj(Vec::new())), "{}");
}

#[test]
fn parses_what_it_renders() {
    let samples = vec![
        JsonValue::Null,
        JsonValue::Bool(false),
        JsonValue::Int(1234567),
        JsonValue::Int(-1),
        JsonValue::Str("line\nbreak \"quoted\"".to_string()),
        JsonValue::Arr(vec![JsonValue::Int(1), JsonValue::Int(2), JsonValue::Int(3)]),
        JsonValue::Obj(vec![
            ("name".to_string(), JsonValue::Str("alpha".to_string())),
            ("id".to_string(), JsonValue::Int(0)),
            ("tags".to_string(), JsonValue::Arr(vec![JsonValue::Str("x".to_string())])),
        ]),
    ];
    for v in samples {
        let rendered = to_chars(&v);
        let parsed = from_chars(&rendered).expect("round trip parse");
        assert!(json_eq(&parsed, &v));
    }
}

#[test]
fn rejects_non_canonical_text() {
    for bad in [
        "", "01", "-0", "1.5", "1e3", " 1", "[1, 2]", "{\"a\" :1}", "\"\\u0041\"", "tru",
        "nul", "[1,]", "{\"a\":}", "\"unterminated", "[1]2",
    ] {
        assert!(from_chars(&chars(bad)).is_none(), "accepted {:?}", bad);
    }
}

#[test]
fn equality_is_deep_and_order_sensitive_for_objects() {
    let a = JsonValue::Obj(vec![
        ("x".to_string(), JsonValue::Int(1)),
        ("y".to_string(), JsonValue::Int(2)),
    ]);
    let b = deep_copy(&a);
    assert!(json_eq(&a, &b));
    let swapped = JsonValue::Obj(vec![
        ("y".to_string(), JsonValue::Int(2)),
        ("x".to_string(), JsonValue::Int(1)),
    ]);
    assert!(!json_eq(&a, &swapped));
    assert!(!json_eq(&JsonValue::Int(1), &JsonValue::Str("1".to_string())));
}

#[test]
fn object_lookup_finds_first_member() {
    let members = vec![
        ("id".to_string(), JsonValue::Int(7)),
        ("name".to_string(), JsonValue::Str("n".to_string())),
    ];
    let id_key = "id".to_string();
    let missing_key = "missing".to_string();
    assert!(json_eq(obj_get(&members, &id_key).unwrap(), &JsonValue::Int(7)));
    assert!(obj_get(&members, &missing_key).is_none());
}
