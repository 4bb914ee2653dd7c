//! What the scanner finds at a position of a buffer: the next token, the
//! extent of a string, of a number and of a keyword.

use super::ascii::{is_digit, is_significant, is_space, BACKSLASH, DOT, QUOTE};
use super::error::Fault;
use vstd::prelude::*;

verus! {

/// The byte at `pos`, if `pos` lies inside `s`.
pub open spec fn byte_at(s: Seq<u8>, pos: int) -> Option<u8> {
    if 0 <= pos < s.len() {
        Some(s[pos])
    } else {
        None
    }
}

/// The first position at or after `pos` that holds no whitespace (the end of
/// `s` if only whitespace follows).
pub open spec fn skip_spaces(s: Seq<u8>, pos: int) -> int
    decreases s.len() - pos,
{
    if 0 <= pos < s.len() && is_space(s[pos]) {
        skip_spaces(s, pos + 1)
    } else {
        pos
    }
}

/// The token that starts at `pos`: the byte there if it can start one, and 0
/// at the end of `s` or on any other byte.
pub open spec fn token_at(s: Seq<u8>, pos: int) -> u8 {
    if 0 <= pos < s.len() && is_significant(s[pos]) {
        s[pos]
    } else {
        0
    }
}

/// The position of the quote that closes a string, scanning from `pos`.
/// `escape` says whether the byte before `pos` was an unescaped backslash; the
/// byte after such a backslash never closes the string.
pub open spec fn closing_quote(s: Seq<u8>, pos: int, escape: bool) -> Option<int>
    decreases s.len() - pos,
{
    if pos < 0 || pos >= s.len() {
        None
    } else if escape {
        closing_quote(s, pos + 1, false)
    } else if s[pos] == BACKSLASH {
        closing_quote(s, pos + 1, true)
    } else if s[pos] == QUOTE {
        Some(pos)
    } else {
        closing_quote(s, pos + 1, false)
    }
}

/// The position of the closing quote of the string whose opening quote is at
/// `pos`, or the fault that the scanner reports.
pub open spec fn quoted_span(s: Seq<u8>, pos: int) -> Result<int, Fault> {
    if byte_at(s, pos) != Some(QUOTE) {
        Err(Fault { msg: "Couldn't parse string. Missed first \"", pos })
    } else {
        match closing_quote(s, pos + 1, false) {
            Some(close) => Ok(close),
            None => Err(
                Fault { msg: "Unexpected data end while parsing string", pos: s.len() as int },
            ),
        }
    }
}

/// The first position at or after `pos` that holds neither a digit nor a dot.
pub open spec fn number_end(s: Seq<u8>, pos: int) -> int
    decreases s.len() - pos,
{
    if 0 <= pos < s.len() && (is_digit(s[pos]) || s[pos] == DOT) {
        number_end(s, pos + 1)
    } else {
        pos
    }
}

/// The end of the number that starts at `pos`, or the fault that the scanner
/// reports when no digit stands there.
pub open spec fn number_span(s: Seq<u8>, pos: int) -> Result<int, Fault> {
    if 0 <= pos < s.len() && is_digit(s[pos]) {
        Ok(number_end(s, pos))
    } else {
        Err(Fault { msg: "Couldn't parse number. Missed first digit", pos })
    }
}

/// The position just after the keyword `lit` if it stands at `pos`, or the
/// fault that the scanner reports.
pub open spec fn literal_span(s: Seq<u8>, pos: int, lit: Seq<u8>) -> Result<int, Fault> {
    if pos < 0 || pos + lit.len() > s.len() {
        Err(Fault { msg: "Unexpected data end while parsing litteral", pos })
    } else if s.subrange(pos, pos + lit.len()) != lit {
        Err(Fault { msg: "Unexpected value for litteral", pos })
    } else {
        Ok(pos + lit.len())
    }
}

/// A sequence extended by `last` contains `b` exactly if it did before or
/// `last` is `b`.
pub proof fn lemma_contains_push(s: Seq<u8>, last: u8, b: u8)
    ensures
        s.push(last).contains(b) == (s.contains(b) || last == b),
{
    let t = s.push(last);
    if s.contains(b) {
        let i = choose|i: int| 0 <= i < s.len() && s[i] == b;
        assert(t[i] == b);
    }
    if last == b {
        assert(t[t.len() - 1] == b);
    }
    if t.contains(b) {
        let i = choose|i: int| 0 <= i < t.len() && t[i] == b;
        if i < s.len() {
            assert(s[i] == b);
        }
    }
}

/// Skipping whitespace never moves back and never leaves the buffer.
pub proof fn lemma_skip_spaces_bounds(s: Seq<u8>, pos: int)
    ensures
        pos <= skip_spaces(s, pos),
        pos <= s.len() ==> skip_spaces(s, pos) <= s.len(),
        byte_at(s, skip_spaces(s, pos)) matches Some(b) ==> !is_space(b),
        skip_spaces(s, skip_spaces(s, pos)) == skip_spaces(s, pos),
    decreases s.len() - pos,
{
    if 0 <= pos < s.len() && is_space(s[pos]) {
        lemma_skip_spaces_bounds(s, pos + 1);
    }
}

/// A closing quote lies inside the buffer, at or after the place the scan
/// started from, and holds a quote.
pub proof fn lemma_closing_quote_bounds(s: Seq<u8>, pos: int, escape: bool)
    ensures
        closing_quote(s, pos, escape) matches Some(close) ==> pos <= close < s.len() && s[close]
            == QUOTE,
    decreases s.len() - pos,
{
    if 0 <= pos < s.len() {
        if escape {
            lemma_closing_quote_bounds(s, pos + 1, false);
        } else if s[pos] == BACKSLASH {
            lemma_closing_quote_bounds(s, pos + 1, true);
        } else if s[pos] != QUOTE {
            lemma_closing_quote_bounds(s, pos + 1, false);
        }
    }
}

/// A number ends inside the buffer, at or after its start, and holds only
/// digits and dots.
pub proof fn lemma_number_end_bounds(s: Seq<u8>, pos: int)
    ensures
        pos <= number_end(s, pos),
        pos <= s.len() ==> number_end(s, pos) <= s.len(),
        forall|i: int|
            0 <= pos <= i < number_end(s, pos) ==> is_digit(#[trigger] s[i]) || s[i] == DOT,
        byte_at(s, number_end(s, pos)) matches Some(b) ==> !is_digit(b) && b != DOT,
    decreases s.len() - pos,
{
    if 0 <= pos < s.len() && (is_digit(s[pos]) || s[pos] == DOT) {
        lemma_number_end_bounds(s, pos + 1);
    }
}

} // verus!
