use utils::json::{parse_json, serialize_json, Object, Value};

fn written(value: &Value) -> Vec<u8> {
    let mut buf = Vec::new();
    serialize_json(value, &mut buf);
    buf
}

fn sample() -> Value<'static> {
    let mut inner = Object::new();
    inner.insert("quote\"d".into(), Value::String("line\nbreak \\ / \t".into()));
    inner.insert("".into(), Value::Array(Vec::new()));
    let mut outer = Object::new();
    outer.insert("n".into(), Value::Int(i64::MAX));
    outer.insert("zero".into(), Value::Int(0));
    outer.insert("f".into(), Value::Float("10.25".into()));
    outer.insert("t".into(), Value::Bool(true));
    outer.insert("nothing".into(), Value::Null(()));
    outer.insert("inner".into(), Value::Object(inner));
    outer.insert(
        "list".into(),
        Value::Array(vec![
            Value::Int(1),
            Value::Float("2.".into()),
            Value::String("h\u{e9}llo".into()),
            Value::Array(vec![Value::Object(Object::new())]),
        ]),
    );
    Value::Object(outer)
}

#[test]
fn what_is_written_is_read_back() {
    let value = sample();
    let bytes = written(&value);
    assert_eq!(parse_json(&bytes).unwrap(), value);
}

#[test]
fn what_is_read_back_is_written_the_same() {
    let bytes = written(&sample());
    let parsed = parse_json(&bytes).unwrap();
    assert_eq!(written(&parsed), bytes);
}

#[test]
fn every_string_is_read_back() {
    for s in ["", "\"", "\\", "\\\"", "a\\", "\u{8}\u{c}\n\r\t/", "\u{0}", "\u{10ffff}x"] {
        let value = Value::String(s.into());
        assert_eq!(parse_json(&written(&value)).unwrap(), value);
    }
}

#[test]
fn a_negative_integer_is_not_read_back() {
    let bytes = written(&Value::Int(-5));
    assert_eq!(bytes, b"-5");
    assert!(parse_json(&bytes).is_err());
}

#[test]
fn a_number_text_without_a_dot_is_read_back_as_an_integer() {
    let bytes = written(&Value::Float("1".into()));
    assert_eq!(parse_json(&bytes).unwrap(), Value::Int(1));
    assert!(parse_json(&written(&Value::Float("NaN".into()))).is_err());
}

#[test]
fn whatever_is_parsed_is_read_back_from_its_text() {
    let inputs: [&[u8]; 7] = [
        b" [1, 2 ,3 ,] tail",
        b"{\"a\" : 1.50, \"a\": \"x\\/y\", \"b\": {}}",
        b"\"\\u\"",
        b"007",
        b"1.",
        b"\n[[[[\"\\\\\"]]]]",
        b"{\"k\": [true, false, null, 0.0, \"\"]}",
    ];
    for input in inputs {
        if let Ok(parsed) = parse_json(input) {
            let bytes = written(&parsed);
            assert_eq!(parse_json(&bytes).unwrap(), parsed);
        }
    }
}
