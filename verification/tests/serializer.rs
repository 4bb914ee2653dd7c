use std::borrow::Cow;

use utils::json::serialize::{serialize_array, serialize_object, write_int};
use utils::json::{serialize_json, serialize_str, Object, Value};

fn text(value: &Value) -> String {
    let mut buf = Vec::new();
    serialize_json(value, &mut buf);
    String::from_utf8(buf).unwrap()
}

#[test]
fn integers_are_written_in_decimal() {
    assert_eq!(text(&Value::Int(0)), "0");
    assert_eq!(text(&Value::Int(7)), "7");
    assert_eq!(text(&Value::Int(10)), "10");
    assert_eq!(text(&Value::Int(123)), "123");
    assert_eq!(text(&Value::Int(-123)), "-123");
    assert_eq!(text(&Value::Int(i64::MAX)), "9223372036854775807");
    assert_eq!(text(&Value::Int(i64::MIN)), "-9223372036854775808");
    let mut buf = b"n=".to_vec();
    write_int(-40, &mut buf);
    assert_eq!(buf, b"n=-40");
}

#[test]
fn keywords_are_written_in_full() {
    assert_eq!(text(&Value::Bool(true)), "true");
    assert_eq!(text(&Value::Bool(false)), "false");
    assert_eq!(text(&Value::Null(())), "null");
}

#[test]
fn a_number_with_a_fraction_is_written_as_its_text() {
    assert_eq!(text(&Value::Float("0.123".into())), "0.123");
    assert_eq!(text(&Value::Float(format!("{}", f64::NAN).into())), "NaN");
    assert_eq!(text(&Value::Float(format!("{}", -2.5f64).into())), "-2.5");
}

#[test]
fn seven_bytes_are_escaped_and_no_other() {
    assert_eq!(text(&Value::String("\"".into())), "\"\\\"\"");
    assert_eq!(text(&Value::String("\\".into())), "\"\\\\\"");
    assert_eq!(
        text(&Value::String("\n\r\t\u{8}\u{c}".into())),
        "\"\\n\\r\\t\\b\\f\""
    );
    assert_eq!(text(&Value::String("a/b".into())), "\"a/b\"");
    assert_eq!(text(&Value::String("\u{0}\u{1f}".into())), "\"\u{0}\u{1f}\"");
    assert_eq!(text(&Value::String("h\u{e9}".into())), "\"h\u{e9}\"");
    let mut buf = Vec::new();
    serialize_str(&Cow::Borrowed("say \"hi\""), &mut buf);
    assert_eq!(buf, b"\"say \\\"hi\\\"\"");
}

#[test]
fn output_is_appended() {
    let mut buf = b"x".to_vec();
    serialize_json(&Value::Null(()), &mut buf);
    serialize_json(&Value::Int(1), &mut buf);
    assert_eq!(buf, b"xnull1");
}

#[test]
fn arrays_are_joined_with_comma_and_space() {
    assert_eq!(text(&Value::Array(Vec::new())), "[]");
    assert_eq!(text(&Value::Array(vec![Value::Null(())])), "[null]");
    assert_eq!(
        text(&Value::Array(vec![
            Value::Int(1),
            Value::String("a".into()),
            Value::Array(vec![Value::Bool(true), Value::Bool(false)]),
        ])),
        "[1, \"a\", [true, false]]"
    );
    let mut buf = Vec::new();
    serialize_array(&vec![Value::Int(1), Value::Int(2)], &mut buf);
    assert_eq!(buf, b"[1, 2]");
}

#[test]
fn objects_are_written_in_insertion_order() {
    let mut members = Object::new();
    assert_eq!(text(&Value::Object(Object::new())), "{}");
    members.insert("b".into(), Value::Int(1));
    members.insert("a".into(), Value::Null(()));
    members.insert("b".into(), Value::Int(2));
    let mut buf = Vec::new();
    serialize_object(&members, &mut buf);
    assert_eq!(buf, b"{\"b\": 2, \"a\": null}");
    let mut outer = Object::new();
    outer.insert("k\"".into(), Value::Object(members));
    assert_eq!(
        text(&Value::Object(outer)),
        "{\"k\\\"\": {\"b\": 2, \"a\": null}}"
    );
}
