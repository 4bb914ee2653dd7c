//! The parser: one value read from a buffer, by recursive descent.

use super::ascii::{
    false_text, is_digit, null_text, true_text, BACKSLASH, BACKSPACE, CLOSE_BRACE, CLOSE_BRACKET,
    COLON, COMMA, DOT, FORMFEED, LOWER_B, LOWER_F, LOWER_N, LOWER_R, LOWER_T, LOWER_U, NEWLINE,
    NINE, OPEN_BRACE, OPEN_BRACKET, QUOTE, RETURN, SLASH, TAB, ZERO,
};
use super::cursor::Cursor;
use super::error::{Error, Fault};
use super::grammar::{
    document, items_at, lemma_string_bounds, lemma_value_bounds, members_at, value_at,
};
use super::laws::{lemma_reads_back_well_formed, reads_back};
use super::model::{collect, Json};
use super::number::{
    count, integer_of, is_digits, lemma_ascii_text, lemma_number_span_ascii, number_at,
};
use super::round_trip::lemma_value_reads_back;
use super::scan::{
    byte_at, lemma_closing_quote_bounds, lemma_skip_spaces_bounds, literal_span, quoted_span,
};
use super::text::{after, escape_meaning, lemma_unescape_plain, string_at, unescape};
use super::value::{models, Object, Value};
use std::borrow::Cow;
use vstd::prelude::*;
use vstd::utf8::encode_utf8_decode_utf8;

verus! {

/// Reads the quoted string under the cursor. A string without a backslash is
/// returned as a view into `buf`; one with a backslash is decoded into a
/// buffer of its own.
pub fn parse_str<'a>(buf: &'a [u8], cursor: &mut Cursor) -> (r: Result<Cow<'a, str>, Error>)
    ensures
        match string_at(buf@, old(cursor).pos as int) {
            Ok((text, end)) => {
                &&& r matches Ok(s)
                &&& s@ == text
                &&& (s matches Cow::Owned(_)) == buf@.subrange(
                    old(cursor).pos + 1,
                    end - 1,
                ).contains(BACKSLASH)
                &&& final(cursor).pos == end
            },
            Err(fault) => {
                &&& r matches Err(e)
                &&& e@ == fault
                &&& final(cursor).pos == fault.pos
            },
        },
        old(cursor).pos <= final(cursor).pos,
        old(cursor).pos <= buf.len() ==> final(cursor).pos <= buf.len(),
{
    let (s, escaped) = match cursor.consume_str(buf) {
        Ok(found) => found,
        Err(e) => {
            return Err(e);
        },
    };
    proof {
        lemma_closing_quote_bounds(buf@, old(cursor).pos + 1, false);
    }
    if escaped {
        let mut next_char_escaped = false;
        let mut pos: usize = 0;
        let mut unescaped: Vec<u8> = Vec::new();
        assert(s@.skip(0) =~= s@);
        assert(Seq::<u8>::empty() + s@ =~= s@);
        while pos < s.len()
            invariant
                pos <= s.len(),
                old(cursor).pos + 1 < cursor.pos <= buf.len(),
                quoted_span(buf@, old(cursor).pos as int) == Ok::<int, Fault>(cursor.pos - 1),
                s@ == buf@.subrange(old(cursor).pos + 1, cursor.pos - 1),
                next_char_escaped ==> pos >= 1 && s@[pos - 1] == BACKSLASH,
                unescape(s@) == after(
                    unescaped@,
                    unescape(
                        if next_char_escaped {
                            s@.skip(pos - 1)
                        } else {
                            s@.skip(pos as int)
                        },
                    ),
                ),
            decreases s.len() - pos,
        {
            let c = s[pos];
            let ghost here = if next_char_escaped {
                s@.skip(pos - 1)
            } else {
                s@.skip(pos as int)
            };
            let ghost so_far = unescaped@;
            pos += 1;
            if !next_char_escaped {
                if c == BACKSLASH {
                    next_char_escaped = true;
                } else {
                    unescaped.push(c);
                    proof {
                        assert(here.skip(1) =~= s@.skip(pos as int));
                        assert(here[0] == c);
                        match unescape(here.skip(1)) {
                            Ok(rest) => {
                                assert(so_far + (seq![c] + rest) =~= so_far.push(c) + rest);
                            },
                            Err(_) => {},
                        }
                    }
                }
                continue ;
            }
            next_char_escaped = false;
            proof {
                assert(here.skip(2) =~= s@.skip(pos as int));
                assert(here[0] == BACKSLASH);
                assert(here[1] == c);
                match escape_meaning(c) {
                    Ok(b) => match unescape(here.skip(2)) {
                        Ok(rest) => {
                            assert(so_far + (seq![b] + rest) =~= so_far.push(b) + rest);
                        },
                        Err(_) => {},
                    },
                    Err(_) => {},
                }
            }
            if c == QUOTE || c == BACKSLASH || c == SLASH {
                unescaped.push(c);
            } else if c == LOWER_B {
                unescaped.push(BACKSPACE);
            } else if c == LOWER_F {
                unescaped.push(FORMFEED);
            } else if c == LOWER_N {
                unescaped.push(NEWLINE);
            } else if c == LOWER_R {
                unescaped.push(RETURN);
            } else if c == LOWER_T {
                unescaped.push(TAB);
            } else if c == LOWER_U {
                return Err(Error { pos: cursor.pos, msg: "Hex character not handled" });
            } else {
                return Err(Error { pos: cursor.pos, msg: "Unrecognised escape sequence" });
            }
        }
        proof {
            if next_char_escaped {
                assert(s@.skip(pos - 1).len() == 1);
            } else {
                assert(s@.skip(pos as int).len() == 0);
            }
            assert(unescaped@ + Seq::<u8>::empty() =~= unescaped@);
        }
        match std::string::String::from_utf8(unescaped) {
            Ok(text) => Ok(Cow::Owned(text)),
            Err(_) => Err(Error { pos: cursor.pos, msg: "String wasn't utf8 encoded" }),
        }
    } else {
        proof {
            lemma_unescape_plain(s@);
        }
        match core::str::from_utf8(s) {
            Ok(text) => {
                proof {
                    encode_utf8_decode_utf8(text@);
                }
                Ok(Cow::Borrowed(text))
            },
            Err(_) => Err(Error { pos: cursor.pos, msg: "String wasn't utf8 encoded" }),
        }
    }
}

/// Reads the number under the cursor: an integer where it is written with
/// digits alone, else a number with a fraction, which is kept as written, as
/// a view into `buf`.
pub fn parse_number<'a>(buf: &'a [u8], cursor: &mut Cursor) -> (r: Result<Value<'a>, Error>)
    ensures
        match number_at(buf@, old(cursor).pos as int) {
            Ok((number, end)) => {
                &&& r matches Ok(v)
                &&& v.model() == number
                &&& v matches Value::Float(literal) ==> (literal matches Cow::Borrowed(_))
                &&& final(cursor).pos == end
            },
            Err(fault) => {
                &&& r matches Err(e)
                &&& e@ == fault
                &&& final(cursor).pos == fault.pos
            },
        },
        old(cursor).pos <= final(cursor).pos,
        old(cursor).pos <= buf.len() ==> final(cursor).pos <= buf.len(),
{
    let (s, float) = match cursor.consume_number(buf) {
        Ok(found) => found,
        Err(e) => {
            return Err(e);
        },
    };
    proof {
        lemma_number_span_ascii(buf@, old(cursor).pos as int);
        lemma_ascii_text(s@);
    }
    // Digits and dots are ASCII, so this conversion does not fail.
    let num_str = match core::str::from_utf8(s) {
        Ok(text) => text,
        Err(_) => {
            return Err(Error { pos: cursor.pos, msg: "Couldn't decode number" });
        },
    };
    proof {
        encode_utf8_decode_utf8(num_str@);
    }
    if float {
        if count(s, DOT) == 1 {
            Ok(Value::Float(Cow::Borrowed(num_str)))
        } else {
            Err(Error { pos: cursor.pos, msg: "Wasn't able to parse number as float" })
        }
    } else {
        assert(is_digits(s@)) by {
            assert forall|k: int| 0 <= k < s@.len() implies is_digit(#[trigger] s@[k]) by {
                assert(s@.contains(s@[k]));
            }
        }
        match integer_of(s) {
            Some(value) => Ok(Value::Int(value)),
            None => Err(Error { pos: cursor.pos, msg: "Wasn't able to parse number as integer" }),
        }
    }
}

/// Reads the keyword `null` under the cursor.
pub fn parse_null(buf: &[u8], cursor: &mut Cursor) -> (r: Result<(), Error>)
    ensures
        match literal_span(buf@, old(cursor).pos as int, null_text()) {
            Ok(end) => r is Ok && final(cursor).pos == end,
            Err(fault) => {
                &&& r matches Err(e)
                &&& e@ == fault
                &&& final(cursor).pos == fault.pos
            },
        },
        old(cursor).pos <= final(cursor).pos,
        old(cursor).pos <= buf.len() ==> final(cursor).pos <= buf.len(),
{
    cursor.consume_null(buf)
}

/// Reads the keyword `true` under the cursor.
pub fn parse_true(buf: &[u8], cursor: &mut Cursor) -> (r: Result<bool, Error>)
    ensures
        match literal_span(buf@, old(cursor).pos as int, true_text()) {
            Ok(end) => r == Ok::<bool, Error>(true) && final(cursor).pos == end,
            Err(fault) => {
                &&& r matches Err(e)
                &&& e@ == fault
                &&& final(cursor).pos == fault.pos
            },
        },
        old(cursor).pos <= final(cursor).pos,
        old(cursor).pos <= buf.len() ==> final(cursor).pos <= buf.len(),
{
    match cursor.consume_true(buf) {
        Ok(_) => Ok(true),
        Err(e) => Err(e),
    }
}

/// Reads the keyword `false` under the cursor.
pub fn parse_false(buf: &[u8], cursor: &mut Cursor) -> (r: Result<bool, Error>)
    ensures
        match literal_span(buf@, old(cursor).pos as int, false_text()) {
            Ok(end) => r == Ok::<bool, Error>(false) && final(cursor).pos == end,
            Err(fault) => {
                &&& r matches Err(e)
                &&& e@ == fault
                &&& final(cursor).pos == fault.pos
            },
        },
        old(cursor).pos <= final(cursor).pos,
        old(cursor).pos <= buf.len() ==> final(cursor).pos <= buf.len(),
{
    match cursor.consume_false(buf) {
        Ok(_) => Ok(false),
        Err(e) => Err(e),
    }
}

/// `first` in front of the items that are still to be read.
pub open spec fn items_after(first: Seq<Json>, rest: Result<(Seq<Json>, int), Fault>) -> Result<
    (Seq<Json>, int),
    Fault,
> {
    match rest {
        Ok((items, end)) => Ok((first + items, end)),
        Err(fault) => Err(fault),
    }
}

/// `first` in front of the members that are still to be read.
pub open spec fn members_after(
    first: Seq<(Seq<char>, Json)>,
    rest: Result<(Seq<(Seq<char>, Json)>, int), Fault>,
) -> Result<(Seq<(Seq<char>, Json)>, int), Fault> {
    match rest {
        Ok((pairs, end)) => Ok((first + pairs, end)),
        Err(fault) => Err(fault),
    }
}

/// Reads the value that starts at the first token at or after the cursor and
/// leaves the cursor just after it. On a fault the cursor stops where the
/// fault was detected.
pub fn parse_value<'a>(buf: &'a [u8], cursor: &mut Cursor) -> (r: Result<Value<'a>, Error>)
    ensures
        match value_at(buf@, old(cursor).pos as int) {
            Ok((value, end)) => {
                &&& r matches Ok(v)
                &&& v.model() == value
                &&& final(cursor).pos == end
            },
            Err(fault) => {
                &&& r matches Err(e)
                &&& e@ == fault
                &&& final(cursor).pos == fault.pos
            },
        },
        r matches Ok(v) ==> reads_back(v.model()) && v.model().well_formed(),
        old(cursor).pos <= final(cursor).pos,
        old(cursor).pos <= buf.len() ==> final(cursor).pos <= buf.len(),
    decreases buf.len() - old(cursor).pos, 1int,
{
    proof {
        lemma_skip_spaces_bounds(buf@, cursor.pos as int);
        lemma_value_bounds(buf@, cursor.pos as int);
        lemma_value_reads_back(buf@, cursor.pos as int);
        if let Ok((value, _)) = value_at(buf@, cursor.pos as int) {
            lemma_reads_back_well_formed(value);
        }
    }
    let token = cursor.next_token(buf);
    if token == QUOTE {
        match parse_str(buf, cursor) {
            Ok(text) => Ok(Value::String(text)),
            Err(e) => Err(e),
        }
    } else if ZERO <= token && token <= NINE {
        parse_number(buf, cursor)
    } else if token == LOWER_N {
        match parse_null(buf, cursor) {
            Ok(unit) => Ok(Value::Null(unit)),
            Err(e) => Err(e),
        }
    } else if token == LOWER_T {
        match parse_true(buf, cursor) {
            Ok(truth) => Ok(Value::Bool(truth)),
            Err(e) => Err(e),
        }
    } else if token == LOWER_F {
        match parse_false(buf, cursor) {
            Ok(truth) => Ok(Value::Bool(truth)),
            Err(e) => Err(e),
        }
    } else if token == OPEN_BRACE {
        match parse_object(buf, cursor) {
            Ok(object) => Ok(Value::Object(object)),
            Err(e) => Err(e),
        }
    } else if token == OPEN_BRACKET {
        match parse_array(buf, cursor) {
            Ok(items) => Ok(Value::Array(items)),
            Err(e) => Err(e),
        }
    } else if token == 0 {
        Err(Error { pos: cursor.pos, msg: "Unexpected message end" })
    } else {
        Err(Error { pos: cursor.pos, msg: "Unexpected token while parsing message" })
    }
}

/// Reads the array whose opening bracket is under the cursor: values
/// separated by commas, up to the closing bracket.
pub fn parse_array<'a>(buf: &'a [u8], cursor: &mut Cursor) -> (r: Result<Vec<Value<'a>>, Error>)
    requires
        byte_at(buf@, old(cursor).pos as int) == Some(OPEN_BRACKET),
    ensures
        match items_at(buf@, old(cursor).pos + 1) {
            Ok((items, end)) => {
                &&& r matches Ok(array)
                &&& models(array@) == items
                &&& final(cursor).pos == end
            },
            Err(fault) => {
                &&& r matches Err(e)
                &&& e@ == fault
                &&& final(cursor).pos == fault.pos
            },
        },
        old(cursor).pos <= final(cursor).pos,
        old(cursor).pos <= buf.len() ==> final(cursor).pos <= buf.len(),
    decreases buf.len() - old(cursor).pos, 0int,
{
    cursor.advance();
    let mut array: Vec<Value<'a>> = Vec::new();
    let ghost start = cursor.pos as int;
    assert(models(array@) =~= Seq::empty());
    assert(items_after(Seq::empty(), items_at(buf@, start)) == items_at(buf@, start)) by {
        if let Ok((items, _)) = items_at(buf@, start) {
            assert(Seq::<Json>::empty() + items =~= items);
        }
    }
    loop
        invariant_except_break
            start == old(cursor).pos + 1,
            start <= cursor.pos <= buf.len(),
            items_at(buf@, start) == items_after(
                models(array@),
                items_at(buf@, cursor.pos as int),
            ),
        ensures
            old(cursor).pos < cursor.pos < buf.len(),
            items_at(buf@, old(cursor).pos + 1) == Ok::<(Seq<Json>, int), Fault>(
                (models(array@), cursor.pos + 1),
            ),
        decreases buf.len() - cursor.pos,
    {
        let ghost before = cursor.pos as int;
        let ghost read = models(array@);
        proof {
            lemma_skip_spaces_bounds(buf@, before);
        }
        if cursor.next_token(buf) == CLOSE_BRACKET {
            assert(read + Seq::<Json>::empty() =~= read);
            break ;
        }
        let ghost p = cursor.pos as int;
        proof {
            lemma_value_bounds(buf@, p);
        }
        let item = match parse_value(buf, cursor) {
            Ok(item) => item,
            Err(e) => {
                return Err(e);
            },
        };
        proof {
            lemma_skip_spaces_bounds(buf@, cursor.pos as int);
        }
        let ghost item_model = item.model();
        array.push(item);
        assert(models(array@) =~= read.push(item_model));
        let token = cursor.next_token(buf);
        if token == COMMA {
            cursor.advance();
            proof {
                if let Ok((rest, _)) = items_at(buf@, cursor.pos as int) {
                    assert(read + (seq![item_model] + rest) =~= read.push(item_model) + rest);
                }
            }
        } else if token == CLOSE_BRACKET {
            assert(read + seq![item_model] =~= read.push(item_model));
            break ;
        } else {
            return Err(Error { pos: cursor.pos, msg: "Unexpected token when parsing array" });
        }
    }
    cursor.advance();
    Ok(array)
}

/// Reads the object whose opening brace is under the cursor: members
/// separated by commas, each a string key, a colon and a value, up to the
/// closing brace. Where a key is written more than once, the last value wins.
pub fn parse_object<'a>(buf: &'a [u8], cursor: &mut Cursor) -> (r: Result<Object<'a>, Error>)
    requires
        byte_at(buf@, old(cursor).pos as int) == Some(OPEN_BRACE),
    ensures
        match members_at(buf@, old(cursor).pos + 1) {
            Ok((pairs, end)) => {
                &&& r matches Ok(object)
                &&& object.model() == collect(pairs)
                &&& final(cursor).pos == end
            },
            Err(fault) => {
                &&& r matches Err(e)
                &&& e@ == fault
                &&& final(cursor).pos == fault.pos
            },
        },
        old(cursor).pos <= final(cursor).pos,
        old(cursor).pos <= buf.len() ==> final(cursor).pos <= buf.len(),
    decreases buf.len() - old(cursor).pos, 0int,
{
    cursor.advance();
    let mut obj = Object::new();
    let ghost start = cursor.pos as int;
    let ghost mut pairs: Seq<(Seq<char>, Json)> = Seq::empty();
    assert(members_after(Seq::empty(), members_at(buf@, start)) == members_at(buf@, start)) by {
        if let Ok((rest, _)) = members_at(buf@, start) {
            assert(Seq::<(Seq<char>, Json)>::empty() + rest =~= rest);
        }
    }
    loop
        invariant_except_break
            start == old(cursor).pos + 1,
            start <= cursor.pos <= buf.len(),
            obj.model() == collect(pairs),
            members_at(buf@, start) == members_after(pairs, members_at(buf@, cursor.pos as int)),
        ensures
            old(cursor).pos < cursor.pos < buf.len(),
            obj.model() == collect(pairs),
            members_at(buf@, old(cursor).pos + 1) == Ok::<(Seq<(Seq<char>, Json)>, int), Fault>(
                (pairs, cursor.pos + 1),
            ),
        decreases buf.len() - cursor.pos,
    {
        let ghost before = cursor.pos as int;
        let ghost read = pairs;
        proof {
            lemma_skip_spaces_bounds(buf@, before);
        }
        if cursor.next_token(buf) == CLOSE_BRACE {
            assert(read + Seq::<(Seq<char>, Json)>::empty() =~= read);
            break ;
        }
        proof {
            lemma_string_bounds(buf@, cursor.pos as int);
        }
        let key = match parse_str(buf, cursor) {
            Ok(key) => key,
            Err(e) => {
                return Err(e);
            },
        };
        proof {
            lemma_skip_spaces_bounds(buf@, cursor.pos as int);
        }
        if cursor.next_token(buf) != COLON {
            return Err(Error { pos: cursor.pos, msg: "Unexpcted object key value separator" });
        }
        cursor.advance();
        proof {
            lemma_value_bounds(buf@, cursor.pos as int);
            lemma_skip_spaces_bounds(buf@, cursor.pos as int);
        }
        let value = match parse_value(buf, cursor) {
            Ok(value) => value,
            Err(e) => {
                return Err(e);
            },
        };
        proof {
            lemma_skip_spaces_bounds(buf@, cursor.pos as int);
        }
        let ghost member = (key@, value.model());
        obj.insert(key, value);
        proof {
            pairs = read.push(member);
            assert(pairs.drop_last() =~= read);
        }
        let token = cursor.next_token(buf);
        if token == COMMA {
            cursor.advance();
            proof {
                if let Ok((rest, _)) = members_at(buf@, cursor.pos as int) {
                    assert(read + (seq![member] + rest) =~= read.push(member) + rest);
                }
            }
        } else if token == CLOSE_BRACE {
            assert(read + seq![member] =~= read.push(member));
            break ;
        } else {
            return Err(Error { pos: cursor.pos, msg: "Unexpected token when parsing object" });
        }
    }
    cursor.advance();
    Ok(obj)
}

/// Parses the value that `buf` starts with, after any whitespace. Bytes that
/// follow the value are not read.
pub fn parse_json(buf: &[u8]) -> (r: Result<Value<'_>, Error>)
    ensures
        match document(buf@) {
            Ok(value) => r matches Ok(v) && v.model() == value,
            Err(fault) => r matches Err(e) && e@ == fault,
        },
        r matches Ok(v) ==> reads_back(v.model()) && v.model().well_formed(),
        r matches Err(e) ==> e.pos <= buf.len(),
{
    let mut cursor = Cursor { pos: 0 };
    proof {
        lemma_value_bounds(buf@, 0);
    }
    parse_value(buf, &mut cursor)
}

} // verus!
