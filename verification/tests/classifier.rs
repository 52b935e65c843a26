use jlh::classify::{
    classify, classify_by, document_category, INVALID_JSON, MISSING_TYPE, NON_JSON_OBJECT,
    TYPE_FIELD, UNREADABLE_LINE,
};
use jlh::json::Document;
use jlh::line::RawLine;

fn text(line: &str) -> RawLine {
    RawLine::Text(String::from(line))
}

#[test]
fn sentinels_have_their_names() {
    assert_eq!(TYPE_FIELD, "type");
    assert_eq!(UNREADABLE_LINE, "unreadable-line");
    assert_eq!(INVALID_JSON, "invalid-json");
    assert_eq!(NON_JSON_OBJECT, "non-json-object");
    assert_eq!(MISSING_TYPE, "missing-type");
}

#[test]
fn type_member_is_used_verbatim() {
    assert_eq!(classify(&text("{\"type\":\"login\"}")), "login");
    assert_eq!(classify(&text("{\"type\":\"Log In \"}")), "Log In ");
    assert_eq!(classify(&text("{\"type\":\"\"}")), "");
    assert_eq!(classify(&text("  {\"a\":[1,2],\"type\":\"t\\u00e9\",\"b\":null} ")), "t\u{e9}");
}

#[test]
fn unread_line_is_unreadable() {
    assert_eq!(classify(&RawLine::Unreadable(0)), "unreadable-line");
    assert_eq!(classify(&RawLine::Unreadable(99)), "unreadable-line");
}

#[test]
fn broken_syntax_is_invalid_json() {
    assert_eq!(classify(&text("not json")), "invalid-json");
    assert_eq!(classify(&text("")), "invalid-json");
    assert_eq!(classify(&text("{\"type\":\"login\"")), "invalid-json");
    assert_eq!(classify(&text("{\"type\":\"login\"} trailing")), "invalid-json");
    assert_eq!(classify(&text("{'type':'login'}")), "invalid-json");
}

#[test]
fn other_values_are_not_objects() {
    assert_eq!(classify(&text("42")), "non-json-object");
    assert_eq!(classify(&text("\"type\"")), "non-json-object");
    assert_eq!(classify(&text("null")), "non-json-object");
    assert_eq!(classify(&text("true")), "non-json-object");
    assert_eq!(classify(&text("[{\"type\":\"login\"}]")), "non-json-object");
}

#[test]
fn absent_or_non_string_member_is_missing() {
    assert_eq!(classify(&text("{\"other\":1}")), "missing-type");
    assert_eq!(classify(&text("{}")), "missing-type");
    assert_eq!(classify(&text("{\"type\":1}")), "missing-type");
    assert_eq!(classify(&text("{\"type\":null}")), "missing-type");
    assert_eq!(classify(&text("{\"type\":[\"login\"]}")), "missing-type");
    assert_eq!(classify(&text("{\"type\":{\"type\":\"login\"}}")), "missing-type");
    assert_eq!(classify(&text("{\"Type\":\"login\"}")), "missing-type");
}

#[test]
fn record_may_carry_the_name_of_a_sentinel() {
    assert_eq!(classify(&text("{\"type\":\"invalid-json\"}")), "invalid-json");
}

#[test]
fn designated_member_can_be_chosen() {
    let line = text("{\"type\":\"login\",\"level\":\"warn\"}");
    assert_eq!(classify_by(&line, "level"), "warn");
    assert_eq!(classify_by(&line, "type"), "login");
    assert_eq!(classify_by(&line, "kind"), "missing-type");
    assert_eq!(classify_by(&RawLine::Unreadable(1), "level"), "unreadable-line");
}

#[test]
fn document_decides_the_category() {
    assert_eq!(document_category(&Document::Malformed, "type"), "invalid-json");
    assert_eq!(document_category(&Document::NotObject, "type"), "non-json-object");
    let mut members = serde_json::Map::new();
    assert_eq!(document_category(&Document::Object(members.clone()), "type"), "missing-type");
    members.insert(String::from("type"), serde_json::Value::Bool(true));
    assert_eq!(document_category(&Document::Object(members.clone()), "type"), "missing-type");
    members.insert(String::from("type"), serde_json::Value::String(String::from("login")));
    members.insert(String::from("n"), serde_json::Value::Null);
    assert_eq!(document_category(&Document::Object(members.clone()), "type"), "login");
    assert_eq!(document_category(&Document::Object(members), "n"), "missing-type");
}
