//! Numbers on the wire: decimal digits for integers, and the literal text of
//! numbers written with a decimal point.

use super::ascii::{is_digit, DOT, MINUS, NINE, ZERO};
use super::error::Fault;
use super::model::Json;
use super::scan::{lemma_number_end_bounds, number_end, number_span};
use vstd::prelude::*;
use vstd::utf8::{
    decode_utf8, encode_utf8, encode_utf8_decode_utf8, encode_utf8_valid_utf8, is_ascii_chars,
    is_ascii_chars_encode_utf8, valid_utf8,
};

verus! {

/// The number that a run of decimal digits denotes, the most significant
/// digit first.
pub open spec fn digits_value(digits: Seq<u8>) -> nat
    decreases digits.len(),
{
    if digits.len() == 0 {
        0
    } else {
        digits_value(digits.drop_last()) * 10 + (digits.last() - ZERO) as nat
    }
}

/// `text` is a run of decimal digits, at least one.
pub open spec fn is_digits(text: Seq<u8>) -> bool {
    text.len() > 0 && forall|i: int| 0 <= i < text.len() ==> is_digit(#[trigger] text[i])
}

/// How many times `b` occurs in `s`.
pub open spec fn occurrences(s: Seq<u8>, b: u8) -> nat
    decreases s.len(),
{
    if s.len() == 0 {
        0
    } else {
        occurrences(s.drop_last(), b) + if s.last() == b {
            1nat
        } else {
            0nat
        }
    }
}

/// The characters of a run of ASCII bytes.
pub open spec fn ascii_text(bytes: Seq<u8>) -> Seq<char> {
    Seq::new(bytes.len(), |i: int| bytes[i] as char)
}

/// The number that starts at `pos` and the position just after it. A run with
/// exactly one dot is a number with a fraction, kept as it is written; a run
/// of digits alone is an integer, which must fit in 64 bits with a sign.
pub open spec fn number_at(s: Seq<u8>, pos: int) -> Result<(Json, int), Fault> {
    match number_span(s, pos) {
        Err(fault) => Err(fault),
        Ok(end) => {
            let span = s.subrange(pos, end);
            if span.contains(DOT) {
                if occurrences(span, DOT) == 1 {
                    Ok((Json::Float(ascii_text(span)), end))
                } else {
                    Err(Fault { msg: "Wasn't able to parse number as float", pos: end })
                }
            } else if digits_value(span) <= i64::MAX {
                Ok((Json::Int(digits_value(span) as i64), end))
            } else {
                Err(Fault { msg: "Wasn't able to parse number as integer", pos: end })
            }
        },
    }
}

/// The decimal digits of `n`, the most significant first, without leading
/// zeros.
pub open spec fn digits_of(n: nat) -> Seq<u8>
    decreases n,
{
    if n < 10 {
        seq![(ZERO + n) as u8]
    } else {
        digits_of(n / 10).push((ZERO + n % 10) as u8)
    }
}

/// The decimal text of an integer: a minus sign for a negative one, then the
/// digits of its magnitude.
pub open spec fn int_text(n: int) -> Seq<u8> {
    if n < 0 {
        seq![MINUS] + digits_of((-n) as nat)
    } else {
        digits_of(n as nat)
    }
}

/// A digit more at the end multiplies by ten and adds the digit.
pub proof fn lemma_digits_value_push(digits: Seq<u8>, last: u8)
    ensures
        digits_value(digits.push(last)) == digits_value(digits) * 10 + (last - ZERO) as nat,
{
    assert(digits.push(last).drop_last() =~= digits);
}

/// A run of digits denotes at least what any of its prefixes denotes.
pub proof fn lemma_digits_value_prefix(digits: Seq<u8>, k: int)
    requires
        0 <= k <= digits.len(),
        forall|i: int| 0 <= i < digits.len() ==> is_digit(#[trigger] digits[i]),
    ensures
        digits_value(digits.take(k)) <= digits_value(digits),
    decreases digits.len() - k,
{
    if k == digits.len() {
        assert(digits.take(k) =~= digits);
    } else {
        lemma_digits_value_prefix(digits, k + 1);
        assert(digits.take(k + 1).drop_last() =~= digits.take(k));
    }
}

/// One byte more at the end adds one occurrence if it is `b`, none otherwise.
pub proof fn lemma_occurrences_push(s: Seq<u8>, last: u8, b: u8)
    ensures
        occurrences(s.push(last), b) == occurrences(s, b) + if last == b {
            1nat
        } else {
            0nat
        },
{
    assert(s.push(last).drop_last() =~= s);
}

/// A run of ASCII bytes is well-formed UTF-8 and encodes its own characters.
pub proof fn lemma_ascii_text(bytes: Seq<u8>)
    requires
        forall|i: int| 0 <= i < bytes.len() ==> #[trigger] bytes[i] < 0x80,
    ensures
        valid_utf8(bytes),
        decode_utf8(bytes) == ascii_text(bytes),
        encode_utf8(ascii_text(bytes)) == bytes,
{
    let chars = ascii_text(bytes);
    assert(is_ascii_chars(chars));
    is_ascii_chars_encode_utf8(chars);
    assert forall|i: int| 0 <= i < bytes.len() implies encode_utf8(chars)[i] == bytes[i] by {
        assert(chars[i] as u8 == encode_utf8(chars)[i]);
        assert(chars[i] == bytes[i] as char);
    }
    assert(encode_utf8(chars) =~= bytes);
    encode_utf8_valid_utf8(chars);
    encode_utf8_decode_utf8(chars);
}

/// Counts how many times `b` occurs in `s`.
pub fn count(s: &[u8], b: u8) -> (n: usize)
    ensures
        n == occurrences(s@, b),
{
    let mut n: usize = 0;
    let mut i: usize = 0;
    assert(s@.take(0) =~= Seq::<u8>::empty());
    while i < s.len()
        invariant
            i <= s.len(),
            n == occurrences(s@.take(i as int), b),
            n <= i,
        decreases s.len() - i,
    {
        proof {
            lemma_occurrences_push(s@.take(i as int), s@[i as int], b);
            assert(s@.take(i + 1) =~= s@.take(i as int).push(s@[i as int]));
        }
        if s[i] == b {
            n += 1;
        }
        i += 1;
    }
    assert(s@.take(s.len() as int) =~= s@);
    n
}

/// The integer that `text` denotes if it is a run of decimal digits, at least
/// one, whose number fits in 64 bits with a sign; `None` for any other text.
/// Leading zeros do not count.
pub fn integer_of(text: &[u8]) -> (r: Option<i64>)
    ensures
        r == if is_digits(text@) && digits_value(text@) <= i64::MAX {
            Some(digits_value(text@) as i64)
        } else {
            None
        },
{
    if text.len() == 0 {
        return None;
    }
    let mut value: i64 = 0;
    let mut i: usize = 0;
    assert(text@.take(0) =~= Seq::<u8>::empty());
    while i < text.len()
        invariant
            i <= text.len(),
            0 <= value,
            value == digits_value(text@.take(i as int)),
            forall|k: int| 0 <= k < i ==> is_digit(#[trigger] text@[k]),
        decreases text.len() - i,
    {
        if !(ZERO <= text[i] && text[i] <= NINE) {
            return None;
        }
        let digit: i64 = (text[i] - ZERO) as i64;
        proof {
            lemma_digits_value_push(text@.take(i as int), text@[i as int]);
            assert(text@.take(i + 1) =~= text@.take(i as int).push(text@[i as int]));
        }
        if value > (i64::MAX - digit) / 10 {
            proof {
                if is_digits(text@) {
                    lemma_digits_value_prefix(text@, i + 1);
                }
            }
            return None;
        }
        value = value * 10 + digit;
        i += 1;
    }
    assert(text@.take(text.len() as int) =~= text@);
    Some(value)
}

/// The bytes of a scanned number are digits and dots, hence ASCII.
pub proof fn lemma_number_span_ascii(s: Seq<u8>, pos: int)
    requires
        number_span(s, pos) is Ok,
    ensures
        pos < number_end(s, pos) <= s.len(),
        forall|i: int|
            0 <= i < number_end(s, pos) - pos ==> {
                let b = #[trigger] s.subrange(pos, number_end(s, pos))[i];
                is_digit(b) || b == DOT
            },
{
    lemma_number_end_bounds(s, pos);
    lemma_number_end_bounds(s, pos + 1);
}

} // verus!
