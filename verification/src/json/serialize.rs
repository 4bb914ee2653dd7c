//! The serializer: the one text that each value is written as.

use super::ascii::{
    false_text, null_text, true_text, BACKSLASH, BACKSPACE, CLOSE_BRACE, CLOSE_BRACKET, COLON,
    COMMA, FORMFEED, LOWER_B, LOWER_F, LOWER_N, LOWER_R, LOWER_T, MINUS, NEWLINE, OPEN_BRACE,
    OPEN_BRACKET, QUOTE, RETURN, SPACE, TAB, ZERO,
};
use super::model::Json;
use super::number::{digits_of, int_text};
use super::value::{models, text_of, Object, Value};
use std::borrow::Cow;
use vstd::prelude::*;
use vstd::utf8::encode_utf8;

verus! {

/// What one byte of a string is written as: a backslash and a letter for the
/// quote, the backslash and five control characters, and the byte itself for
/// every other one, the slash among them.
pub open spec fn escape_byte(b: u8) -> Seq<u8> {
    if b == QUOTE {
        seq![BACKSLASH, QUOTE]
    } else if b == BACKSLASH {
        seq![BACKSLASH, BACKSLASH]
    } else if b == NEWLINE {
        seq![BACKSLASH, LOWER_N]
    } else if b == RETURN {
        seq![BACKSLASH, LOWER_R]
    } else if b == TAB {
        seq![BACKSLASH, LOWER_T]
    } else if b == BACKSPACE {
        seq![BACKSLASH, LOWER_B]
    } else if b == FORMFEED {
        seq![BACKSLASH, LOWER_F]
    } else {
        seq![b]
    }
}

/// What the bytes of a string are written as, one after the other.
pub open spec fn escaped(bytes: Seq<u8>) -> Seq<u8>
    decreases bytes.len(),
{
    if bytes.len() == 0 {
        Seq::empty()
    } else {
        escape_byte(bytes.first()) + escaped(bytes.drop_first())
    }
}

/// A string as it is written: its UTF-8 bytes, escaped, between two quotes.
pub open spec fn quoted(text: Seq<char>) -> Seq<u8> {
    seq![QUOTE] + escaped(encode_utf8(text)) + seq![QUOTE]
}

/// What stands between two items of an array or two members of an object: a
/// comma and a space.
pub open spec fn separator() -> Seq<u8> {
    seq![COMMA, SPACE]
}

/// What stands between a key and its value: a colon and a space.
pub open spec fn key_separator() -> Seq<u8> {
    seq![COLON, SPACE]
}

/// `parts` one after the other, with a separator between each two.
pub open spec fn joined(parts: Seq<Seq<u8>>) -> Seq<u8>
    decreases parts.len(),
{
    if parts.len() == 0 {
        Seq::empty()
    } else if parts.len() == 1 {
        parts.first()
    } else {
        parts.first() + separator() + joined(parts.drop_first())
    }
}

/// The texts of the items of an array, in order.
pub open spec fn item_texts(items: Seq<Json>) -> Seq<Seq<u8>>
    decreases items,
{
    Seq::new(
        items.len(),
        |i: int|
            if 0 <= i < items.len() {
                items[i].text()
            } else {
                Seq::empty()
            },
    )
}

/// The texts of the members of an object, in order: the key, a colon and a
/// space, the value.
pub open spec fn member_texts(members: Seq<(Seq<char>, Json)>) -> Seq<Seq<u8>>
    decreases members,
{
    Seq::new(
        members.len(),
        |i: int|
            if 0 <= i < members.len() {
                quoted(members[i].0) + key_separator() + members[i].1.text()
            } else {
                Seq::empty()
            },
    )
}

impl Json {
    /// The text that the document is written as. There is one for each
    /// document: no optional whitespace, a comma and a space between items,
    /// a colon and a space after a key.
    pub open spec fn text(self) -> Seq<u8>
        decreases self,
    {
        match self {
            Json::String(text) => quoted(text),
            Json::Float(literal) => encode_utf8(literal),
            Json::Int(n) => int_text(n as int),
            Json::Bool(b) => if b {
                true_text()
            } else {
                false_text()
            },
            Json::Null => null_text(),
            Json::Array(items) => seq![OPEN_BRACKET] + joined(item_texts(items)) + seq![
                CLOSE_BRACKET,
            ],
            Json::Object(members) => seq![OPEN_BRACE] + joined(member_texts(members)) + seq![
                CLOSE_BRACE,
            ],
        }
    }
}

/// Escaping goes byte by byte, so it distributes over concatenation.
pub proof fn lemma_escaped_concat(a: Seq<u8>, b: Seq<u8>)
    ensures
        escaped(a + b) == escaped(a) + escaped(b),
    decreases a.len(),
{
    if a.len() == 0 {
        assert(a + b =~= b);
        assert(escaped(a) + escaped(b) =~= escaped(b));
    } else {
        lemma_escaped_concat(a.drop_first(), b);
        assert((a + b).drop_first() =~= a.drop_first() + b);
        assert(escape_byte(a.first()) + (escaped(a.drop_first()) + escaped(b)) =~= (escape_byte(
            a.first(),
        ) + escaped(a.drop_first())) + escaped(b));
    }
}

/// One part more at the end is written after a separator, unless it is the
/// only one.
pub proof fn lemma_joined_push(parts: Seq<Seq<u8>>, last: Seq<u8>)
    ensures
        joined(parts.push(last)) == if parts.len() == 0 {
            last
        } else {
            joined(parts) + separator() + last
        },
    decreases parts.len(),
{
    let all = parts.push(last);
    if parts.len() == 0 {
    } else if parts.len() == 1 {
        assert(all.drop_first() =~= seq![last]);
        assert(joined(all.drop_first()) == last);
    } else {
        lemma_joined_push(parts.drop_first(), last);
        assert(all.drop_first() =~= parts.drop_first().push(last));
        assert(parts.first() + separator() + (joined(parts.drop_first()) + separator() + last)
            =~= (parts.first() + separator() + joined(parts.drop_first())) + separator() + last);
    }
}

/// Appends `bytes` to `buf`.
fn put(buf: &mut Vec<u8>, bytes: &[u8])
    ensures
        final(buf)@ == old(buf)@ + bytes@,
{
    buf.extend_from_slice(bytes);
    assert(buf@ =~= old(buf)@ + bytes@);
}

/// Appends the decimal digits of `n` to `buf`.
fn write_digits(n: u64, buf: &mut Vec<u8>)
    ensures
        final(buf)@ == old(buf)@ + digits_of(n as nat),
    decreases n,
{
    if n >= 10 {
        write_digits(n / 10, buf);
    }
    let digit: u8 = ZERO + (n % 10) as u8;
    buf.push(digit);
    assert(buf@ =~= old(buf)@ + digits_of(n as nat));
}

/// Appends the decimal text of `n` to `buf`.
pub fn write_int(n: i64, buf: &mut Vec<u8>)
    ensures
        final(buf)@ == old(buf)@ + int_text(n as int),
{
    if n < 0 {
        buf.push(MINUS);
        let magnitude: u64 = (-(n + 1)) as u64 + 1;
        write_digits(magnitude, buf);
        assert(buf@ =~= old(buf)@ + int_text(n as int));
    } else {
        write_digits(n as u64, buf);
    }
}

/// Appends the string `s` to `buf`, quoted and escaped.
pub fn serialize_str(s: &Cow<str>, buf: &mut Vec<u8>)
    ensures
        final(buf)@ == old(buf)@ + quoted(s@),
{
    let bytes = text_of(s).as_bytes();
    buf.push(QUOTE);
    let mut i: usize = 0;
    assert(bytes@.take(0) =~= Seq::<u8>::empty());
    assert(buf@ =~= old(buf)@ + seq![QUOTE] + escaped(bytes@.take(0)));
    while i < bytes.len()
        invariant
            i <= bytes.len(),
            buf@ == old(buf)@ + seq![QUOTE] + escaped(bytes@.take(i as int)),
        decreases bytes.len() - i,
    {
        let c = bytes[i];
        let ghost before = buf@;
        proof {
            lemma_escaped_concat(bytes@.take(i as int), seq![c]);
            assert(bytes@.take(i + 1) =~= bytes@.take(i as int) + seq![c]);
            assert(seq![c].drop_first() =~= Seq::<u8>::empty());
            assert(escaped(seq![c].drop_first()) =~= Seq::<u8>::empty());
            assert(escaped(seq![c]) =~= escape_byte(c));
        }
        if c == QUOTE {
            buf.push(BACKSLASH);
            buf.push(QUOTE);
        } else if c == BACKSLASH {
            buf.push(BACKSLASH);
            buf.push(BACKSLASH);
        } else if c == NEWLINE {
            buf.push(BACKSLASH);
            buf.push(LOWER_N);
        } else if c == RETURN {
            buf.push(BACKSLASH);
            buf.push(LOWER_R);
        } else if c == TAB {
            buf.push(BACKSLASH);
            buf.push(LOWER_T);
        } else if c == BACKSPACE {
            buf.push(BACKSLASH);
            buf.push(LOWER_B);
        } else if c == FORMFEED {
            buf.push(BACKSLASH);
            buf.push(LOWER_F);
        } else {
            buf.push(c);
        }
        assert(buf@ =~= before + escape_byte(c));
        assert(buf@ =~= old(buf)@ + seq![QUOTE] + escaped(bytes@.take(i + 1)));
        i += 1;
    }
    assert(bytes@.take(bytes.len() as int) =~= bytes@);
    buf.push(QUOTE);
}

/// Appends the text of `val` to `buf`.
pub fn serialize_json(val: &Value, buf: &mut Vec<u8>)
    ensures
        final(buf)@ == old(buf)@ + val.model().text(),
    decreases val, 1int,
{
    match val {
        Value::Int(v) => write_int(*v, buf),
        Value::Bool(v) => {
            if *v {
                let word: [u8; 4] = [0x74, 0x72, 0x75, 0x65];
                assert(word@ =~= true_text());
                put(buf, word.as_slice());
            } else {
                let word: [u8; 5] = [0x66, 0x61, 0x6c, 0x73, 0x65];
                assert(word@ =~= false_text());
                put(buf, word.as_slice());
            }
        },
        Value::Float(v) => put(buf, text_of(v).as_bytes()),
        Value::Null(_) => {
            let word: [u8; 4] = [0x6e, 0x75, 0x6c, 0x6c];
            assert(word@ =~= null_text());
            put(buf, word.as_slice());
        },
        Value::String(v) => serialize_str(v, buf),
        Value::Object(v) => serialize_object(v, buf),
        Value::Array(v) => serialize_array(v, buf),
    }
}

/// Appends the text of an object to `buf`: its members in order, between
/// braces.
pub fn serialize_object(o: &Object, buf: &mut Vec<u8>)
    ensures
        final(buf)@ == old(buf)@ + Json::Object(o.model()).text(),
    decreases o, 0int,
{
    buf.push(OPEN_BRACE);
    let ghost parts = member_texts(o.model());
    let mut i: usize = 0;
    assert(parts.take(0) =~= Seq::<Seq<u8>>::empty());
    assert(buf@ =~= old(buf)@ + seq![OPEN_BRACE] + joined(parts.take(0)));
    while i < o.len()
        invariant
            i <= o.model().len(),
            parts == member_texts(o.model()),
            buf@ == old(buf)@ + seq![OPEN_BRACE] + joined(parts.take(i as int)),
        decreases o.model().len() - i,
    {
        let ghost before = buf@;
        if i != 0 {
            buf.push(COMMA);
            buf.push(SPACE);
        }
        let key = o.key(i);
        serialize_str(&Cow::Borrowed(key), buf);
        buf.push(COLON);
        buf.push(SPACE);
        serialize_json(o.value(i), buf);
        proof {
            lemma_joined_push(parts.take(i as int), parts[i as int]);
            assert(parts.take(i + 1) =~= parts.take(i as int).push(parts[i as int]));
            if i != 0 {
                assert(buf@ =~= before + separator() + parts[i as int]);
            } else {
                assert(buf@ =~= before + parts[i as int]);
            }
            assert(buf@ =~= old(buf)@ + seq![OPEN_BRACE] + joined(parts.take(i + 1)));
        }
        i += 1;
    }
    assert(parts.take(i as int) =~= parts);
    buf.push(CLOSE_BRACE);
}

/// Appends the text of an array to `buf`: its items in order, between
/// brackets.
pub fn serialize_array(a: &Vec<Value>, buf: &mut Vec<u8>)
    ensures
        final(buf)@ == old(buf)@ + Json::Array(models(a@)).text(),
    decreases a, 0int,
{
    buf.push(OPEN_BRACKET);
    let ghost parts = item_texts(models(a@));
    let mut i: usize = 0;
    assert(parts.take(0) =~= Seq::<Seq<u8>>::empty());
    assert(buf@ =~= old(buf)@ + seq![OPEN_BRACKET] + joined(parts.take(0)));
    while i < a.len()
        invariant
            i <= a.len(),
            parts == item_texts(models(a@)),
            buf@ == old(buf)@ + seq![OPEN_BRACKET] + joined(parts.take(i as int)),
        decreases a.len() - i,
    {
        let ghost before = buf@;
        if i != 0 {
            buf.push(COMMA);
            buf.push(SPACE);
        }
        serialize_json(&a[i], buf);
        proof {
            lemma_joined_push(parts.take(i as int), parts[i as int]);
            assert(parts.take(i + 1) =~= parts.take(i as int).push(parts[i as int]));
            if i != 0 {
                assert(buf@ =~= before + separator() + parts[i as int]);
            } else {
                assert(buf@ =~= before + parts[i as int]);
            }
            assert(buf@ =~= old(buf)@ + seq![OPEN_BRACKET] + joined(parts.take(i + 1)));
        }
        i += 1;
    }
    assert(parts.take(i as int) =~= parts);
    buf.push(CLOSE_BRACKET);
}

} // verus!
