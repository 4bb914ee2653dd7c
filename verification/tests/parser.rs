use std::borrow::Cow;

use utils::json::cursor::Cursor;
use utils::json::parse::{parse_array, parse_number, parse_object, parse_value};
use utils::json::{parse_false, parse_json, parse_null, parse_str, parse_true, Value};

fn fault(input: &[u8]) -> (&'static str, usize) {
    let e = parse_json(input).unwrap_err();
    (e.msg(), e.pos())
}

#[test]
fn rejects_what_is_not_a_value() {
    let inputs: [&[u8]; 6] = [b"{", b"[,]", b"\"abc", b"hey", b"", b"{1: 1}"];
    for input in inputs {
        assert!(parse_json(input).is_err());
    }
}

#[test]
fn empty_input_is_a_message_end() {
    assert_eq!(fault(b""), ("Unexpected message end", 0));
    assert_eq!(fault(b"  \t\r\n"), ("Unexpected message end", 5));
}

#[test]
fn a_bare_word_is_a_message_end() {
    assert_eq!(fault(b"hey"), ("Unexpected message end", 0));
    assert_eq!(fault(b" -1"), ("Unexpected message end", 1));
}

#[test]
fn a_stray_token_is_reported_where_it_stands() {
    assert_eq!(fault(b"]"), ("Unexpected token while parsing message", 0));
    assert_eq!(fault(b"[,]"), ("Unexpected token while parsing message", 1));
    assert_eq!(fault(b" :"), ("Unexpected token while parsing message", 1));
}

#[test]
fn truncated_containers_end_the_message() {
    assert_eq!(fault(b"{"), ("Couldn't parse string. Missed first \"", 1));
    assert_eq!(fault(b"["), ("Unexpected message end", 1));
    assert_eq!(fault(b"[1"), ("Unexpected token when parsing array", 2));
    assert_eq!(fault(b"{\"a\": 1"), ("Unexpected token when parsing object", 7));
}

#[test]
fn an_object_key_must_be_a_string() {
    assert_eq!(fault(b"{1: 1}"), ("Couldn't parse string. Missed first \"", 1));
    assert_eq!(fault(b"{1: [}}"), ("Couldn't parse string. Missed first \"", 1));
}

#[test]
fn an_unterminated_string_is_reported_at_the_end() {
    assert_eq!(fault(b"\"abc"), ("Unexpected data end while parsing string", 4));
    assert_eq!(fault(b"\"hello there "), ("Unexpected data end while parsing string", 13));
    assert_eq!(fault(b"\"abc\\\""), ("Unexpected data end while parsing string", 6));
}

#[test]
fn keywords_must_match_byte_for_byte() {
    assert_eq!(fault(b"nul"), ("Unexpected data end while parsing litteral", 0));
    assert_eq!(fault(b"nope"), ("Unexpected value for litteral", 0));
    assert_eq!(fault(b" tru"), ("Unexpected data end while parsing litteral", 1));
    assert_eq!(fault(b"folse"), ("Unexpected value for litteral", 0));
    assert_eq!(fault(b"True"), ("Unexpected message end", 0));
}

#[test]
fn unsupported_escapes_are_faults() {
    assert_eq!(fault(b"\"\\u0041\""), ("Hex character not handled", 8));
    assert_eq!(fault(b"\"\\x\""), ("Unrecognised escape sequence", 4));
    assert_eq!(fault(b"\"a\\qb\\u\""), ("Unrecognised escape sequence", 8));
}

#[test]
fn strings_must_be_utf8() {
    assert_eq!(fault(b"\"\xff\""), ("String wasn't utf8 encoded", 3));
    assert_eq!(fault(b"\"\\n\xc3\""), ("String wasn't utf8 encoded", 5));
    assert_eq!(
        parse_json("\"h\u{e9}llo \u{1f600}\"".as_bytes()).unwrap(),
        Value::String("h\u{e9}llo \u{1f600}".into())
    );
    assert_eq!(
        parse_json("\"\\t\u{e9}\"".as_bytes()).unwrap(),
        Value::String("\t\u{e9}".into())
    );
}

#[test]
fn every_escape_is_decoded() {
    let parsed = parse_json(b"\"\\\"\\\\\\/\\b\\f\\n\\r\\t\"").unwrap();
    assert_eq!(parsed, Value::String("\"\\/\u{8}\u{c}\n\r\t".into()));
}

#[test]
fn a_string_without_escapes_is_borrowed() {
    match parse_json(b"\"plain\"").unwrap() {
        Value::String(Cow::Borrowed(s)) => assert_eq!(s, "plain"),
        other => panic!("{:?}", other),
    }
    match parse_json(b"\"a\\/b\"").unwrap() {
        Value::String(Cow::Owned(s)) => assert_eq!(s, "a/b"),
        other => panic!("{:?}", other),
    }
}

#[test]
fn integers_fit_in_64_bits() {
    assert_eq!(parse_json(b"0").unwrap(), Value::Int(0));
    assert_eq!(parse_json(b"007").unwrap(), Value::Int(7));
    assert_eq!(
        parse_json(b"9223372036854775807").unwrap(),
        Value::Int(i64::MAX)
    );
    assert_eq!(
        fault(b"9223372036854775808"),
        ("Wasn't able to parse number as integer", 19)
    );
    assert_eq!(
        fault(b"[99999999999999999999]"),
        ("Wasn't able to parse number as integer", 21)
    );
}

#[test]
fn a_number_with_a_fraction_keeps_its_text() {
    assert_eq!(parse_json(b"3.14").unwrap(), Value::Float("3.14".into()));
    assert_eq!(parse_json(b"1.").unwrap(), Value::Float("1.".into()));
    assert_eq!(parse_json(b"0.50 ").unwrap(), Value::Float("0.50".into()));
    let parsed = parse_json(b"3.14").unwrap();
    let text = parsed.float().unwrap();
    assert_eq!(text.parse::<f64>().unwrap(), 3.14);
}

#[test]
fn a_number_with_two_dots_fails_at_conversion() {
    assert_eq!(fault(b"1.2.3"), ("Wasn't able to parse number as float", 5));
    assert_eq!(fault(b"1..2"), ("Wasn't able to parse number as float", 4));
    assert_eq!(fault(b"[1.2.3]"), ("Wasn't able to parse number as float", 6));
}

#[test]
fn a_minus_sign_starts_no_token() {
    assert_eq!(fault(b"-5"), ("Unexpected message end", 0));
    assert_eq!(fault(b"[-5]"), ("Unexpected message end", 1));
}

#[test]
fn what_follows_the_value_is_not_read() {
    assert_eq!(parse_json(b"1 2 3").unwrap(), Value::Int(1));
    assert_eq!(parse_json(b"null}").unwrap(), Value::Null(()));
    assert_eq!(parse_json(b"\"a\"garbage").unwrap(), Value::String("a".into()));
    assert_eq!(parse_json(b"truest").unwrap(), Value::Bool(true));
}

#[test]
fn a_closing_bracket_may_follow_a_comma() {
    assert_eq!(
        parse_json(b"[1, 2,]").unwrap(),
        Value::Array(vec![Value::Int(1), Value::Int(2)])
    );
    let parsed = parse_json(b"{\"a\": 1,}").unwrap();
    assert_eq!(parsed.object().unwrap().len(), 1);
}

#[test]
fn items_need_separators() {
    assert_eq!(fault(b"[1 2]"), ("Unexpected token when parsing array", 3));
    assert_eq!(fault(b"[1}"), ("Unexpected token when parsing array", 2));
    assert_eq!(fault(b"{\"a\" 1}"), ("Unexpcted object key value separator", 5));
    assert_eq!(fault(b"{\"a\": 1 \"b\": 2}"), ("Unexpected token when parsing object", 8));
    assert_eq!(fault(b"{\"a\": 1]"), ("Unexpected token when parsing object", 7));
}

#[test]
fn the_last_of_two_equal_keys_wins() {
    let parsed = parse_json(b"{\"a\": 1, \"b\": 2, \"a\": 3}").unwrap();
    let members = parsed.object().unwrap();
    assert_eq!(members.len(), 2);
    assert_eq!(members.get("a"), Some(&Value::Int(3)));
    assert_eq!(members.get("b"), Some(&Value::Int(2)));
    assert_eq!(members.key(0), "a");
    assert_eq!(members.key(1), "b");
}

#[test]
fn containers_nest() {
    let parsed = parse_json(b" [ [ ] , { \"k\" : [ true , null ] } ] ").unwrap();
    let items = parsed.array().unwrap();
    assert_eq!(items.len(), 2);
    assert_eq!(items[0], Value::Array(Vec::new()));
    let inner = items[1].object().unwrap().get("k").unwrap();
    assert_eq!(
        inner,
        &Value::Array(vec![Value::Bool(true), Value::Null(())])
    );
}

#[test]
fn the_cursor_reads_one_byte_at_a_time() {
    let buf = b"ab";
    let mut cursor = Cursor { pos: 0 };
    assert_eq!(cursor.current(buf), Some(b'a'));
    cursor.advance();
    assert_eq!(cursor.current(buf), Some(b'b'));
    cursor.advance();
    assert_eq!(cursor.current(buf), None);
    assert_eq!(cursor.pos, 2);
}

#[test]
fn next_token_skips_whitespace_only() {
    let buf = b" \t\r\n{x";
    let mut cursor = Cursor { pos: 0 };
    assert_eq!(cursor.next_token(buf), b'{');
    assert_eq!(cursor.pos, 4);
    assert_eq!(cursor.next_token(buf), b'{');
    assert_eq!(cursor.pos, 4);
    cursor.advance();
    assert_eq!(cursor.next_token(buf), 0);
    assert_eq!(cursor.pos, 5);
    let mut beyond = Cursor { pos: 9 };
    assert_eq!(beyond.next_token(buf), 0);
    assert_eq!(beyond.pos, 9);
    for token in b"{}[]\":,0123456789tfn" {
        let one = [*token];
        let mut at = Cursor { pos: 0 };
        assert_eq!(at.next_token(&one), *token);
    }
}

#[test]
fn consume_str_returns_the_span_as_it_stands() {
    let buf = b"x\"a\\\"b\" rest";
    let mut cursor = Cursor { pos: 1 };
    let (span, escaped) = cursor.consume_str(buf).unwrap();
    assert_eq!(span, b"a\\\"b");
    assert!(escaped);
    assert_eq!(cursor.pos, 7);

    let mut cursor = Cursor { pos: 0 };
    let (span, escaped) = cursor.consume_str(b"\"\"").unwrap();
    assert_eq!(span, b"");
    assert!(!escaped);
    assert_eq!(cursor.pos, 2);

    let mut cursor = Cursor { pos: 0 };
    let e = cursor.consume_str(buf).unwrap_err();
    assert_eq!((e.msg(), e.pos()), ("Couldn't parse string. Missed first \"", 0));
    assert_eq!(cursor.pos, 0);

    let mut cursor = Cursor { pos: 40 };
    let e = cursor.consume_str(buf).unwrap_err();
    assert_eq!((e.msg(), e.pos()), ("Couldn't parse string. Missed first \"", 40));
}

#[test]
fn consume_number_takes_digits_and_dots() {
    let buf = b"12.5.7,";
    let mut cursor = Cursor { pos: 0 };
    let (span, float) = cursor.consume_number(buf).unwrap();
    assert_eq!(span, b"12.5.7");
    assert!(float);
    assert_eq!(cursor.pos, 6);

    let mut cursor = Cursor { pos: 5 };
    let (span, float) = cursor.consume_number(buf).unwrap();
    assert_eq!(span, b"7");
    assert!(!float);

    let mut cursor = Cursor { pos: 2 };
    let e = cursor.consume_number(buf).unwrap_err();
    assert_eq!((e.msg(), e.pos()), ("Couldn't parse number. Missed first digit", 2));
    assert_eq!(cursor.pos, 2);

    let mut cursor = Cursor { pos: 7 };
    let e = cursor.consume_number(buf).unwrap_err();
    assert_eq!((e.msg(), e.pos()), ("Couldn't parse number. Missed first digit", 7));
}

#[test]
fn consume_lit_compares_the_whole_keyword() {
    let buf = b"xnull";
    let mut cursor = Cursor { pos: 1 };
    cursor.consume_lit(buf, b"null").unwrap();
    assert_eq!(cursor.pos, 5);

    let mut cursor = Cursor { pos: 0 };
    let e = cursor.consume_lit(buf, b"null").unwrap_err();
    assert_eq!((e.msg(), e.pos()), ("Unexpected value for litteral", 0));
    assert_eq!(cursor.pos, 0);

    let mut cursor = Cursor { pos: 2 };
    let e = cursor.consume_lit(buf, b"null").unwrap_err();
    assert_eq!((e.msg(), e.pos()), ("Unexpected data end while parsing litteral", 2));

    let mut cursor = Cursor { pos: usize::MAX };
    let e = cursor.consume_lit(buf, b"null").unwrap_err();
    assert_eq!(e.msg(), "Unexpected data end while parsing litteral");

    let mut cursor = Cursor { pos: 0 };
    cursor.consume_true(b"true").unwrap();
    assert_eq!(cursor.pos, 4);
    let mut cursor = Cursor { pos: 0 };
    cursor.consume_false(b"false").unwrap();
    assert_eq!(cursor.pos, 5);
    let mut cursor = Cursor { pos: 0 };
    cursor.consume_null(b"null").unwrap();
    assert_eq!(cursor.pos, 4);
    let mut cursor = Cursor { pos: 0 };
    assert!(cursor.consume_true(b"false").is_err());
}

#[test]
fn the_parse_steps_move_the_cursor_past_what_they_read() {
    let buf = b"true false null \"s\" 12 [1] {\"a\": 2} ";
    let mut cursor = Cursor { pos: 0 };
    assert_eq!(parse_true(buf, &mut cursor).unwrap(), true);
    assert_eq!(cursor.pos, 4);
    cursor.advance();
    assert_eq!(parse_false(buf, &mut cursor).unwrap(), false);
    assert_eq!(cursor.pos, 10);
    cursor.advance();
    parse_null(buf, &mut cursor).unwrap();
    assert_eq!(cursor.pos, 15);
    cursor.advance();
    assert_eq!(parse_str(buf, &mut cursor).unwrap(), "s");
    assert_eq!(cursor.pos, 19);
    cursor.advance();
    assert_eq!(parse_number(buf, &mut cursor).unwrap(), Value::Int(12));
    assert_eq!(cursor.pos, 22);
    cursor.advance();
    assert_eq!(parse_array(buf, &mut cursor).unwrap(), vec![Value::Int(1)]);
    assert_eq!(cursor.pos, 26);
    cursor.advance();
    let members = parse_object(buf, &mut cursor).unwrap();
    assert_eq!(members.get("a"), Some(&Value::Int(2)));
    assert_eq!(cursor.pos, 35);
    let e = parse_value(buf, &mut cursor).unwrap_err();
    assert_eq!((e.msg(), e.pos()), ("Unexpected message end", 36));
    assert_eq!(cursor.pos, 36);
}

#[test]
fn a_fault_is_printed_with_its_message_and_offset() {
    let e = parse_json(b"hey").unwrap_err();
    assert_eq!(
        format!("{:?}", e),
        "Error { msg: \"Unexpected message end\", pos: 0 }"
    );
}
