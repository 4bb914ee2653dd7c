//! The steps of the round trip: what the parser makes of each piece of text
//! that the serializer writes, and what can be said of each piece that the
//! parser yields.

use super::ascii::{
    is_digit, BACKSLASH, CLOSE_BRACE, CLOSE_BRACKET, COLON, COMMA, DOT, LOWER_F, LOWER_N, LOWER_T,
    OPEN_BRACE, OPEN_BRACKET, QUOTE, SPACE, ZERO,
};
use super::error::Fault;
use super::grammar::{
    document, items_at, lemma_string_bounds, lemma_value_bounds, members_at, value_at,
};
use super::laws::{is_fraction_literal, reads_back};
use super::model::{
    collect, distinct_keys, lemma_collect_distinct, lemma_collect_members, lemma_key_index, Json,
};
use super::number::{
    digits_of, digits_value, int_text, lemma_ascii_text, lemma_digits_value_push,
    lemma_number_span_ascii, number_at, occurrences,
};
use super::scan::{
    byte_at, closing_quote, lemma_skip_spaces_bounds, literal_span, number_end, number_span,
    skip_spaces, token_at,
};
use super::serialize::{
    escape_byte, escaped, item_texts, joined, key_separator, member_texts, quoted, separator,
};
use super::text::{after, escape_meaning, string_at, unescape};
use vstd::prelude::*;
use vstd::utf8::{encode_utf8, encode_utf8_decode_utf8, encode_utf8_valid_utf8};

verus! {

/// The bytes `t` stand in `s` from position `pos` on.
pub open spec fn stands_at(s: Seq<u8>, pos: int, t: Seq<u8>) -> bool {
    &&& 0 <= pos
    &&& pos + t.len() <= s.len()
    &&& s.subrange(pos, pos + t.len()) =~= t
}

/// No digit and no dot stands at `pos`, so that a number before `pos` ends
/// there.
pub open spec fn number_stops(s: Seq<u8>, pos: int) -> bool {
    byte_at(s, pos) matches Some(b) ==> !is_digit(b) && b != DOT
}

/// Two texts stand one after the other exactly if their concatenation stands.
pub proof fn lemma_stands_at_concat(s: Seq<u8>, pos: int, a: Seq<u8>, b: Seq<u8>)
    ensures
        stands_at(s, pos, a + b) <==> stands_at(s, pos, a) && stands_at(s, pos + a.len(), b),
{
    if stands_at(s, pos, a + b) {
        let whole = s.subrange(pos, pos + (a + b).len());
        assert forall|i: int| 0 <= i < a.len() implies s.subrange(pos, pos + a.len())[i]
            == a[i] by {
            assert(whole[i] == (a + b)[i]);
        }
        assert forall|i: int| 0 <= i < b.len() implies s.subrange(
            pos + a.len(),
            pos + a.len() + b.len(),
        )[i] == b[i] by {
            assert(whole[a.len() + i] == (a + b)[a.len() + i]);
        }
    }
    if stands_at(s, pos, a) && stands_at(s, pos + a.len(), b) {
        let whole = s.subrange(pos, pos + (a + b).len());
        assert forall|i: int| 0 <= i < (a + b).len() implies whole[i] == (a + b)[i] by {
            if i < a.len() {
                assert(s.subrange(pos, pos + a.len())[i] == a[i]);
            } else {
                assert(s.subrange(pos + a.len(), pos + a.len() + b.len())[i - a.len()] == b[i
                    - a.len()]);
            }
        }
    }
}

/// A byte of a text that stands in `s` is the byte of `s` at that place.
pub proof fn lemma_stands_at_index(s: Seq<u8>, pos: int, t: Seq<u8>, i: int)
    requires
        stands_at(s, pos, t),
        0 <= i < t.len(),
    ensures
        s[pos + i] == t[i],
{
    assert(s.subrange(pos, pos + t.len())[i] == t[i]);
}

/// The scanner finds the quote that follows an escaped text: no byte of the
/// escaped text closes the string.
pub proof fn lemma_closing_quote_after_escaped(s: Seq<u8>, pos: int, bytes: Seq<u8>)
    requires
        stands_at(s, pos, escaped(bytes) + seq![QUOTE]),
    ensures
        closing_quote(s, pos, false) == Some(pos + escaped(bytes).len()),
    decreases bytes.len(),
{
    lemma_stands_at_concat(s, pos, escaped(bytes), seq![QUOTE]);
    if bytes.len() == 0 {
        lemma_stands_at_index(s, pos, seq![QUOTE], 0);
    } else {
        let first = escape_byte(bytes.first());
        let rest = escaped(bytes.drop_first());
        lemma_stands_at_concat(s, pos, first, rest);
        assert(first + rest + seq![QUOTE] =~= first + (rest + seq![QUOTE]));
        lemma_stands_at_concat(s, pos, first, rest + seq![QUOTE]);
        lemma_closing_quote_after_escaped(s, pos + first.len(), bytes.drop_first());
        lemma_stands_at_index(s, pos, first, 0);
        if first.len() == 2 {
            lemma_stands_at_index(s, pos, first, 1);
            assert(closing_quote(s, pos, false) == closing_quote(s, pos + 1, true));
            assert(closing_quote(s, pos + 1, true) == closing_quote(s, pos + 2, false));
        }
    }
}

/// Unescaping undoes escaping.
pub proof fn lemma_unescape_escaped(bytes: Seq<u8>)
    ensures
        unescape(escaped(bytes)) == Ok::<Seq<u8>, &'static str>(bytes),
    decreases bytes.len(),
{
    if bytes.len() == 0 {
        assert(bytes =~= Seq::empty());
    } else {
        let b = bytes.first();
        let first = escape_byte(b);
        let rest = escaped(bytes.drop_first());
        let all = escaped(bytes);
        lemma_unescape_escaped(bytes.drop_first());
        assert(seq![b] + bytes.drop_first() =~= bytes);
        if first.len() == 2 {
            assert(all[0] == BACKSLASH);
            assert(all[1] == first[1]);
            assert(all.skip(2) =~= rest);
            assert(escape_meaning(first[1]) == Ok::<u8, &'static str>(b));
        } else {
            assert(all[0] == b);
            assert(all.skip(1) =~= rest);
        }
    }
}

/// A string that was written is read back as it was.
pub proof fn lemma_string_round_trip(s: Seq<u8>, pos: int, text: Seq<char>)
    requires
        stands_at(s, pos, quoted(text)),
    ensures
        string_at(s, pos) == Ok::<(Seq<char>, int), Fault>((text, pos + quoted(text).len())),
{
    let bytes = encode_utf8(text);
    let inner = escaped(bytes);
    assert(quoted(text) =~= seq![QUOTE] + (inner + seq![QUOTE]));
    lemma_stands_at_concat(s, pos, seq![QUOTE], inner + seq![QUOTE]);
    lemma_stands_at_index(s, pos, seq![QUOTE], 0);
    lemma_closing_quote_after_escaped(s, pos + 1, bytes);
    lemma_stands_at_concat(s, pos + 1, inner, seq![QUOTE]);
    let close = pos + 1 + inner.len();
    assert(s.subrange(pos + 1, close) =~= inner);
    lemma_unescape_escaped(bytes);
    encode_utf8_valid_utf8(text);
    encode_utf8_decode_utf8(text);
}

/// The digits of a number are digits, at least one, and denote the number.
pub proof fn lemma_digits_of(n: nat)
    ensures
        digits_of(n).len() >= 1,
        forall|i: int| 0 <= i < digits_of(n).len() ==> is_digit(#[trigger] digits_of(n)[i]),
        digits_value(digits_of(n)) == n,
    decreases n,
{
    if n < 10 {
        let d = digits_of(n);
        assert(d.drop_last() =~= Seq::<u8>::empty());
        assert(digits_value(d.drop_last()) == 0);
    } else {
        lemma_digits_of(n / 10);
        lemma_digits_value_push(digits_of(n / 10), (ZERO + n % 10) as u8);
    }
}

/// A run of digits and dots after which the number stops is what the scanner
/// takes for the number.
pub proof fn lemma_number_end_run(s: Seq<u8>, pos: int, run: Seq<u8>)
    requires
        stands_at(s, pos, run),
        forall|i: int| 0 <= i < run.len() ==> is_digit(#[trigger] run[i]) || run[i] == DOT,
        number_stops(s, pos + run.len()),
    ensures
        number_end(s, pos) == pos + run.len(),
    decreases run.len(),
{
    if run.len() > 0 {
        lemma_stands_at_index(s, pos, run, 0);
        let rest = run.drop_first();
        assert(run =~= seq![run[0]] + rest);
        lemma_stands_at_concat(s, pos, seq![run[0]], rest);
        assert forall|i: int| 0 <= i < rest.len() implies is_digit(#[trigger] rest[i]) || rest[i]
            == DOT by {
            assert(rest[i] == run[i + 1]);
        }
        lemma_number_end_run(s, pos + 1, rest);
    }
}

/// A byte that occurs a positive number of times is contained, and the other
/// way round.
pub proof fn lemma_occurrences_contains(s: Seq<u8>, b: u8)
    ensures
        occurrences(s, b) > 0 <==> s.contains(b),
    decreases s.len(),
{
    if s.len() > 0 {
        lemma_occurrences_contains(s.drop_last(), b);
        if s.contains(b) {
            let i = choose|i: int| 0 <= i < s.len() && s[i] == b;
            if i < s.len() - 1 {
                assert(s.drop_last()[i] == b);
            }
        }
        if s.drop_last().contains(b) {
            let i = choose|i: int| 0 <= i < s.drop_last().len() && s.drop_last()[i] == b;
            assert(s[i] == b);
        }
        if s.last() == b {
            assert(s[s.len() - 1] == b);
        }
    }
}

/// An integer that is not negative is read back as it was written.
pub proof fn lemma_int_round_trip(s: Seq<u8>, pos: int, n: i64)
    requires
        n >= 0,
        stands_at(s, pos, int_text(n as int)),
        number_stops(s, pos + int_text(n as int).len()),
    ensures
        number_at(s, pos) == Ok::<(Json, int), Fault>(
            (Json::Int(n), pos + int_text(n as int).len()),
        ),
{
    let run = digits_of(n as nat);
    lemma_digits_of(n as nat);
    lemma_stands_at_index(s, pos, run, 0);
    lemma_number_end_run(s, pos, run);
    assert(s.subrange(pos, pos + run.len()) =~= run);
    if run.contains(DOT) {
        let i = choose|i: int| 0 <= i < run.len() && run[i] == DOT;
        assert(is_digit(run[i]));
    }
}

/// A number with a fraction is read back as it was written.
pub proof fn lemma_float_round_trip(s: Seq<u8>, pos: int, literal: Seq<char>)
    requires
        is_fraction_literal(encode_utf8(literal)),
        stands_at(s, pos, encode_utf8(literal)),
        number_stops(s, pos + encode_utf8(literal).len()),
    ensures
        number_at(s, pos) == Ok::<(Json, int), Fault>(
            (Json::Float(literal), pos + encode_utf8(literal).len()),
        ),
{
    let run = encode_utf8(literal);
    lemma_stands_at_index(s, pos, run, 0);
    lemma_number_end_run(s, pos, run);
    assert(s.subrange(pos, pos + run.len()) =~= run);
    lemma_occurrences_contains(run, DOT);
    assert forall|i: int| 0 <= i < run.len() implies #[trigger] run[i] < 0x80 by {
        assert(is_digit(run[i]) || run[i] == DOT);
    }
    lemma_ascii_text(run);
    encode_utf8_decode_utf8(literal);
}

/// A keyword that stands at `pos` is found there.
pub proof fn lemma_literal_round_trip(s: Seq<u8>, pos: int, word: Seq<u8>)
    requires
        stands_at(s, pos, word),
    ensures
        literal_span(s, pos, word) == Ok::<int, Fault>(pos + word.len()),
{
}

/// The text of a document starts with the byte that tells its kind.
pub proof fn lemma_text_first(j: Json)
    requires
        reads_back(j),
    ensures
        j.text().len() > 0,
        match j {
            Json::String(_) => j.text()[0] == QUOTE,
            Json::Float(_) => is_digit(j.text()[0]),
            Json::Int(_) => is_digit(j.text()[0]),
            Json::Bool(b) => j.text()[0] == if b {
                LOWER_T
            } else {
                LOWER_F
            },
            Json::Null => j.text()[0] == LOWER_N,
            Json::Array(_) => j.text()[0] == OPEN_BRACKET,
            Json::Object(_) => j.text()[0] == OPEN_BRACE,
        },
{
    match j {
        Json::Int(n) => {
            lemma_digits_of(n as nat);
        },
        _ => {},
    }
}

/// Where no key occurs twice, every member is collected as it is written.
pub proof fn lemma_collect_distinct_keys(pairs: Seq<(Seq<char>, Json)>)
    requires
        distinct_keys(pairs),
    ensures
        collect(pairs) == pairs,
    decreases pairs.len(),
{
    if pairs.len() == 0 {
        assert(pairs =~= Seq::empty());
    } else {
        let front = pairs.drop_last();
        assert(distinct_keys(front)) by {
            assert forall|i: int, j: int| 0 <= i < j < front.len() implies front[i].0
                != front[j].0 by {
                assert(pairs[i].0 != pairs[j].0);
            }
        }
        lemma_collect_distinct_keys(front);
        assert forall|j: int| 0 <= j < front.len() implies (#[trigger] front[j]).0
            != pairs.last().0 by {
            assert(pairs[j].0 != pairs[pairs.len() - 1].0);
        }
        lemma_key_index(front, pairs.last().0, front.len() as int);
        assert(front.push(pairs.last()) =~= pairs);
    }
}

/// The parser starts reading at the first byte after whitespace, so a space
/// before a value changes nothing.
pub proof fn lemma_value_after_space(s: Seq<u8>, pos: int)
    requires
        byte_at(s, pos) == Some(SPACE),
    ensures
        value_at(s, pos) == value_at(s, pos + 1),
        items_at(s, pos) == items_at(s, pos + 1),
        members_at(s, pos) == members_at(s, pos + 1),
{
}

/// A document that is written at `pos`, with no digit and no dot just after
/// it, is read back from there, up to the end of its text.
pub proof fn lemma_value_round_trip(s: Seq<u8>, pos: int, j: Json)
    requires
        reads_back(j),
        stands_at(s, pos, j.text()),
        number_stops(s, pos + j.text().len()),
    ensures
        value_at(s, pos) == Ok::<(Json, int), Fault>((j, pos + j.text().len())),
    decreases j,
{
    lemma_text_first(j);
    lemma_stands_at_index(s, pos, j.text(), 0);
    assert(skip_spaces(s, pos) == pos);
    match j {
        Json::String(text) => {
            lemma_string_round_trip(s, pos, text);
        },
        Json::Float(literal) => {
            lemma_float_round_trip(s, pos, literal);
        },
        Json::Int(n) => {
            lemma_int_round_trip(s, pos, n);
        },
        Json::Bool(b) => {
            lemma_literal_round_trip(s, pos, j.text());
        },
        Json::Null => {
            lemma_literal_round_trip(s, pos, j.text());
        },
        Json::Array(items) => {
            let inner = joined(item_texts(items));
            assert(j.text() =~= seq![OPEN_BRACKET] + (inner + seq![CLOSE_BRACKET]));
            lemma_stands_at_concat(s, pos, seq![OPEN_BRACKET], inner + seq![CLOSE_BRACKET]);
            lemma_items_round_trip(s, pos + 1, items);
        },
        Json::Object(members) => {
            let inner = joined(member_texts(members));
            assert(j.text() =~= seq![OPEN_BRACE] + (inner + seq![CLOSE_BRACE]));
            lemma_stands_at_concat(s, pos, seq![OPEN_BRACE], inner + seq![CLOSE_BRACE]);
            lemma_members_round_trip(s, pos + 1, members);
            lemma_collect_distinct_keys(members);
        },
    }
}

/// The items of an array that are written at `pos`, with the closing bracket
/// after them, are read back from there.
pub proof fn lemma_items_round_trip(s: Seq<u8>, pos: int, items: Seq<Json>)
    requires
        forall|i: int| 0 <= i < items.len() ==> reads_back(#[trigger] items[i]),
        stands_at(s, pos, joined(item_texts(items)) + seq![CLOSE_BRACKET]),
    ensures
        items_at(s, pos) == Ok::<(Seq<Json>, int), Fault>(
            (items, pos + joined(item_texts(items)).len() + 1),
        ),
    decreases items,
{
    let parts = item_texts(items);
    let inner = joined(parts);
    lemma_stands_at_concat(s, pos, inner, seq![CLOSE_BRACKET]);
    lemma_stands_at_index(s, pos + inner.len(), seq![CLOSE_BRACKET], 0);
    if items.len() == 0 {
        assert(items =~= Seq::empty());
    } else {
        let first = items[0];
        let text = first.text();
        assert(parts[0] == text);
        lemma_text_first(first);
        let end = pos + text.len();
        if items.len() == 1 {
            assert(inner == text);
            lemma_stands_at_index(s, pos, text, 0);
            lemma_value_round_trip(s, pos, first);
            assert(skip_spaces(s, end) == end);
            assert(seq![first] =~= items);
        } else {
            let rest = items.drop_first();
            assert(item_texts(rest) =~= parts.drop_first());
            let rest_inner = joined(item_texts(rest));
            assert(inner + seq![CLOSE_BRACKET] =~= text + (separator() + (rest_inner + seq![
                CLOSE_BRACKET,
            ])));
            lemma_stands_at_concat(
                s,
                pos,
                text,
                separator() + (rest_inner + seq![CLOSE_BRACKET]),
            );
            lemma_stands_at_concat(s, end, separator(), rest_inner + seq![CLOSE_BRACKET]);
            lemma_stands_at_index(s, end, separator(), 0);
            lemma_stands_at_index(s, end, separator(), 1);
            lemma_stands_at_index(s, pos, text, 0);
            lemma_value_round_trip(s, pos, first);
            assert(skip_spaces(s, end) == end);
            lemma_value_after_space(s, end + 1);
            assert forall|i: int| 0 <= i < rest.len() implies reads_back(#[trigger] rest[i]) by {
                assert(rest[i] == items[i + 1]);
            }
            lemma_items_round_trip(s, end + 2, rest);
            assert(seq![first] + rest =~= items);
        }
    }
}

/// A key that is written at `pos` with a colon and a space after it is read
/// back, and the parser goes on to the value behind them.
pub proof fn lemma_key_round_trip(s: Seq<u8>, pos: int, key: Seq<char>)
    requires
        stands_at(s, pos, quoted(key) + key_separator()),
    ensures
        skip_spaces(s, pos) == pos,
        token_at(s, pos) != CLOSE_BRACE,
        string_at(s, pos) == Ok::<(Seq<char>, int), Fault>((key, pos + quoted(key).len())),
        skip_spaces(s, pos + quoted(key).len()) == pos + quoted(key).len(),
        token_at(s, pos + quoted(key).len()) == COLON,
        value_at(s, pos + quoted(key).len() + 1) == value_at(s, pos + quoted(key).len() + 2),
{
    let key_text = quoted(key);
    let key_end = pos + key_text.len();
    lemma_stands_at_concat(s, pos, key_text, key_separator());
    lemma_stands_at_index(s, pos, key_text, 0);
    lemma_stands_at_index(s, key_end, key_separator(), 0);
    lemma_stands_at_index(s, key_end, key_separator(), 1);
    lemma_string_round_trip(s, pos, key);
    lemma_value_after_space(s, key_end + 1);
}

/// The members of an object that are written at `pos`, with the closing
/// brace after them, are read back from there, in the order in which they
/// were written.
pub proof fn lemma_members_round_trip(s: Seq<u8>, pos: int, members: Seq<(Seq<char>, Json)>)
    requires
        forall|i: int| 0 <= i < members.len() ==> reads_back((#[trigger] members[i]).1),
        stands_at(s, pos, joined(member_texts(members)) + seq![CLOSE_BRACE]),
    ensures
        members_at(s, pos) == Ok::<(Seq<(Seq<char>, Json)>, int), Fault>(
            (members, pos + joined(member_texts(members)).len() + 1),
        ),
    decreases members,
{
    let parts = member_texts(members);
    let inner = joined(parts);
    lemma_stands_at_concat(s, pos, inner, seq![CLOSE_BRACE]);
    lemma_stands_at_index(s, pos + inner.len(), seq![CLOSE_BRACE], 0);
    if members.len() == 0 {
        assert(members =~= Seq::empty());
    } else {
        let key = members[0].0;
        let value = members[0].1;
        let head = quoted(key) + key_separator();
        let value_text = value.text();
        assert(parts[0] == head + value_text);
        let value_start = pos + head.len();
        let end = value_start + value_text.len();
        let rest = members.drop_first();
        assert(member_texts(rest) =~= parts.drop_first());
        let rest_inner = joined(member_texts(rest));
        let tail = if members.len() == 1 {
            seq![CLOSE_BRACE]
        } else {
            separator() + (rest_inner + seq![CLOSE_BRACE])
        };
        assert(inner + seq![CLOSE_BRACE] =~= head + (value_text + tail));
        lemma_stands_at_concat(s, pos, head, value_text + tail);
        lemma_stands_at_concat(s, value_start, value_text, tail);
        lemma_stands_at_index(s, end, tail, 0);
        lemma_key_round_trip(s, pos, key);
        lemma_value_round_trip(s, value_start, value);
        lemma_member_then_rest(s, pos, key, value, end);
        if members.len() == 1 {
            assert(seq![(key, value)] =~= members);
        } else {
            lemma_stands_at_concat(s, end, separator(), rest_inner + seq![CLOSE_BRACE]);
            lemma_stands_at_index(s, end, separator(), 1);
            lemma_value_after_space(s, end + 1);
            assert forall|i: int| 0 <= i < rest.len() implies reads_back(
                (#[trigger] rest[i]).1,
            ) by {
                assert(rest[i] == members[i + 1]);
            }
            lemma_members_round_trip(s, end + 2, rest);
            assert(seq![(key, value)] + rest =~= members);
        }
    }
}

/// What the parser makes of the members from `pos` on, once the first key and
/// the first value are known to be read: it ends at a closing brace, and goes
/// on with the members after a comma.
pub proof fn lemma_member_then_rest(
    s: Seq<u8>,
    pos: int,
    key: Seq<char>,
    value: Json,
    end: int,
)
    requires
        skip_spaces(s, pos) == pos,
        token_at(s, pos) != CLOSE_BRACE,
        string_at(s, pos) == Ok::<(Seq<char>, int), Fault>((key, pos + quoted(key).len())),
        skip_spaces(s, pos + quoted(key).len()) == pos + quoted(key).len(),
        token_at(s, pos + quoted(key).len()) == COLON,
        value_at(s, pos + quoted(key).len() + 1) == Ok::<(Json, int), Fault>((value, end)),
        pos + quoted(key).len() < end,
        byte_at(s, end) == Some(CLOSE_BRACE) || byte_at(s, end) == Some(COMMA),
    ensures
        members_at(s, pos) == if byte_at(s, end) == Some(CLOSE_BRACE) {
            Ok::<(Seq<(Seq<char>, Json)>, int), Fault>((seq![(key, value)], end + 1))
        } else {
            match members_at(s, end + 1) {
                Ok((rest, after)) => Ok((seq![(key, value)] + rest, after)),
                Err(fault) => Err(fault),
            }
        },
{
    assert(skip_spaces(s, end) == end);
}

/// A number that the parser yields is one that it reads back.
pub proof fn lemma_number_reads_back(s: Seq<u8>, pos: int)
    requires
        0 <= pos,
    ensures
        number_at(s, pos) matches Ok((number, _)) ==> reads_back(number),
{
    if number_span(s, pos) is Ok {
        lemma_number_span_ascii(s, pos);
        let span = s.subrange(pos, number_end(s, pos));
        assert forall|i: int| 0 <= i < span.len() implies #[trigger] span[i] < 0x80 by {
            assert(is_digit(span[i]) || span[i] == DOT);
        }
        lemma_ascii_text(span);
        assert(is_digit(span[0]));
    }
}

/// A value that the parser yields is one that it reads back.
pub proof fn lemma_value_reads_back(s: Seq<u8>, pos: int)
    requires
        0 <= pos,
    ensures
        value_at(s, pos) matches Ok((value, _)) ==> reads_back(value),
    decreases s.len() - pos, 0int,
{
    lemma_skip_spaces_bounds(s, pos);
    let p = skip_spaces(s, pos);
    let token = token_at(s, p);
    if is_digit(token) {
        lemma_number_reads_back(s, p);
    } else if token == OPEN_BRACE {
        lemma_members_read_back(s, p + 1);
        if let Ok((pairs, _)) = members_at(s, p + 1) {
            lemma_collect_distinct(pairs);
            lemma_collect_members(pairs);
            let members = collect(pairs);
            assert forall|i: int| 0 <= i < members.len() implies reads_back(
                (#[trigger] members[i]).1,
            ) by {
                let k = choose|k: int| 0 <= k < pairs.len() && pairs[k] == members[i];
                assert(reads_back(pairs[k].1));
            }
        }
    } else if token == OPEN_BRACKET {
        lemma_items_read_back(s, p + 1);
    }
}

/// The items that the parser yields are ones that it reads back.
pub proof fn lemma_items_read_back(s: Seq<u8>, pos: int)
    requires
        0 <= pos,
    ensures
        items_at(s, pos) matches Ok((items, _)) ==> forall|i: int|
            0 <= i < items.len() ==> reads_back(#[trigger] items[i]),
    decreases s.len() - pos, 1int,
{
    lemma_skip_spaces_bounds(s, pos);
    let p = skip_spaces(s, pos);
    if token_at(s, p) != CLOSE_BRACKET {
        lemma_value_reads_back(s, p);
        lemma_value_bounds(s, p);
        if let Ok((_, end)) = value_at(s, p) {
            lemma_skip_spaces_bounds(s, end);
            let q = skip_spaces(s, end);
            if token_at(s, q) == COMMA {
                lemma_items_read_back(s, q + 1);
            }
        }
    }
}

/// The values of the members that the parser yields are ones that it reads
/// back.
pub proof fn lemma_members_read_back(s: Seq<u8>, pos: int)
    requires
        0 <= pos,
    ensures
        members_at(s, pos) matches Ok((pairs, _)) ==> forall|i: int|
            0 <= i < pairs.len() ==> reads_back((#[trigger] pairs[i]).1),
    decreases s.len() - pos, 1int,
{
    lemma_skip_spaces_bounds(s, pos);
    let p = skip_spaces(s, pos);
    if token_at(s, p) != CLOSE_BRACE {
        lemma_string_bounds(s, p);
        if let Ok((_, key_end)) = string_at(s, p) {
            lemma_skip_spaces_bounds(s, key_end);
            let colon = skip_spaces(s, key_end);
            if token_at(s, colon) == COLON {
                lemma_value_reads_back(s, colon + 1);
                lemma_value_bounds(s, colon + 1);
                lemma_skip_spaces_bounds(s, colon + 1);
                if let Ok((_, end)) = value_at(s, colon + 1) {
                    lemma_skip_spaces_bounds(s, end);
                    let q = skip_spaces(s, end);
                    if token_at(s, q) == COMMA {
                        lemma_members_read_back(s, q + 1);
                    }
                }
            }
        }
    }
}

} // verus!
