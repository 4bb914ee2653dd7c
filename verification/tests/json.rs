use std::borrow::Cow;
use std::str;

use utils::json::{parse_json, serialize_json, Error, Object, Value};

fn float(x: f64) -> Value<'static> {
    Value::Float(Cow::Owned(format!("{}", x)))
}

fn object(members: Vec<(&'static str, Value<'static>)>) -> Value<'static> {
    let mut o = Object::new();
    for (key, value) in members {
        o.insert(Cow::Borrowed(key), value);
    }
    Value::Object(o)
}

#[test]
fn test_parse_simple_values() {
    let cases: Vec<(&[u8], Value)> = vec![
        (b"\"hello there\"", Value::String("hello there".into())),
        (
            b"   \n\r   \"hello there\"  ",
            Value::String("hello there".into()),
        ),
        (
            b"\"General Kenobi \\\\\"",
            Value::String("General Kenobi \\".into()),
        ),
        (b"\"\"", Value::String("".into())),
        (b"1", Value::Int(1)),
        (b"314", Value::Int(314)),
        (b"3.14", float(3.14)),
        (b"true", Value::Bool(true)),
        (b"false", Value::Bool(false)),
        (b"null", Value::Null(())),
        (
            b"{\"a\": null, \n \"b\": [], \"c\"  : {}}",
            object(vec![
                ("a", Value::Null(())),
                ("b", Value::Array(Vec::new())),
                ("c", object(Vec::new())),
            ]),
        ),
        (
            b"{\"method\": \"isPrime\", \"number\": 123}",
            object(vec![
                ("method", Value::String(Cow::Borrowed("isPrime"))),
                ("number", Value::Int(123)),
            ]),
        ),
        (
            b"[\"\", 3.14, 314]",
            Value::Array(vec![Value::String("".into()), float(3.14), Value::Int(314)]),
        ),
    ];
    assert_eq!(cases.len(), 13);
    for (input, expected) in cases {
        let val = parse_json(input).expect("parsing failed");
        assert_eq!(val, expected);
    }
}

#[test]
fn test_parse_string_interrupted() -> Result<(), Error> {
    parse_json("\"hello there ".as_bytes()).err().unwrap();
    Ok(())
}

#[test]
fn test_parse_errors() {
    let inputs = [
        b"{".as_ref(),
        b"[,]",
        b"\"hello there",
        b"hey",
        b"",
        b"{1: 1}",
        b"{1: [}}",
    ];
    for input in inputs {
        parse_json(input).unwrap_err();
    }
}

#[test]
fn test_serialize_simples_values() {
    let cases = [
        (Value::Int(123), "123"),
        (Value::Int(-123), "-123"),
        (Value::Bool(false), "false"),
        (Value::Bool(true), "true"),
        (float(0.123), "0.123"),
        (float(f64::NAN), "NaN"),
        (Value::Null(()), "null"),
        (Value::String("foo".into()), "\"foo\""),
        (Value::String("\"".into()), "\"\\\"\""),
        (Value::String("\\".into()), "\"\\\\\""),
        (object(vec![("a", Value::Null(()))]), "{\"a\": null}"),
        (Value::Array(vec![Value::Null(())]), "[null]"),
    ];

    for (input, expected) in cases {
        let mut buf = Vec::new();
        serialize_json(&input, &mut buf);
        let res = str::from_utf8(&buf).expect("serialized to non utf8");
        assert_eq!(res, expected);
    }
}

#[test]
fn test_serialize_deserialize() {
    let inputs = [
        object(vec![
            ("a", Value::Null(())),
            ("b", object(Vec::new())),
            ("c", Value::Array(Vec::new())),
        ]),
        Value::Array(vec![Value::String("".into()), float(3.14), Value::Int(314)]),
    ];

    for input in inputs {
        let mut buf = Vec::new();
        serialize_json(&input, &mut buf);
        let res = parse_json(&buf).expect("Couldn't parse output");
        assert_eq!(res, input);
    }
}
