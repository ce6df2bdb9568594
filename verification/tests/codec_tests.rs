use tiddler_store::codec::{json_to_chars, parse_json};
use tiddler_store::json::JsonValue;

fn render(v: &JsonValue) -> String {
    json_to_chars(v).into_iter().collect()
}

fn round_trip(text: &str) {
    let v = parse_json(text).expect("canonical value must parse");
    assert_eq!(render(&v), text);
}

#[test]
fn scalar_round_trips() {
    round_trip("null");
    round_trip("true");
    round_trip("false");
    round_trip("0");
    round_trip("42");
    round_trip("-7");
    round_trip("9223372036854775807");
    round_trip("-9223372036854775808");
    round_trip("\"\"");
    round_trip("\"plain\"");
}

#[test]
fn escaped_string_round_trips() {
    round_trip("\"a\\\"b\\\\c\\nd\\te\\rf\"");
    let v = parse_json("\"x\\ny\"").expect("parses");
    match &v {
        JsonValue::Str(s) => assert_eq!(s, "x\ny"),
        _ => panic!("expected a string"),
    }
}

#[test]
fn container_round_trips() {
    round_trip("[]");
    round_trip("{}");
    round_trip("[1,2,3]");
    round_trip("[[],{},[null]]");
    round_trip("{\"a\":1,\"b\":[true,\"s\"],\"c\":{\"d\":null}}");
}

#[test]
fn serializer_emits_canonical_form() {
    let v = JsonValue::Obj(vec![
        ("k".to_string(), JsonValue::Int(-3)),
        (
            "l".to_string(),
            JsonValue::Arr(vec![JsonValue::Bool(false), JsonValue::Str("t\"q".to_string())]),
        ),
    ]);
    assert_eq!(render(&v), "{\"k\":-3,\"l\":[false,\"t\\\"q\"]}");
}

#[test]
fn control_characters_are_hex_escaped() {
    let v = JsonValue::Str("\u{1}\u{1f}".to_string());
    assert_eq!(render(&v), "\"\\u0001\\u001f\"");
    round_trip("\"\\u0001\\u001f\"");
    assert!(parse_json("\"\u{1}\"").is_none());
    assert!(parse_json("\"\\u000a\"").is_none());
    assert!(parse_json("\"\\u0041\"").is_none());
}

#[test]
fn malformed_texts_are_rejected() {
    assert!(parse_json("").is_none());
    assert!(parse_json("{").is_none());
    assert!(parse_json("[1,]").is_none());
    assert!(parse_json("tru").is_none());
    assert!(parse_json("01").is_none());
    assert!(parse_json("-0").is_none());
    assert!(parse_json("\"open").is_none());
    assert!(parse_json("{\"a\" :1}").is_none());
    assert!(parse_json("1 ").is_none());
    assert!(parse_json("{\"a\":1}}").is_none());
    assert!(parse_json("18446744073709551616").is_none());
}

#[test]
fn numbers_out_of_signed_range_are_rejected() {
    assert!(parse_json("9223372036854775808").is_none());
    assert!(parse_json("-9223372036854775809").is_none());
}
