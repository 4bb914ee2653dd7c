//! The parse position, and the scanner's steps over a buffer.

use super::ascii::{
    false_text, null_text, true_text, BACKSLASH, CLOSE_BRACE, CLOSE_BRACKET, COLON, COMMA, DOT,
    LOWER_F, LOWER_N, LOWER_T, NEWLINE, NINE, OPEN_BRACE, OPEN_BRACKET, QUOTE, RETURN, SPACE, TAB,
    ZERO,
};
use super::error::Error;
use super::scan::{
    byte_at, closing_quote, lemma_closing_quote_bounds, lemma_contains_push,
    lemma_number_end_bounds, lemma_skip_spaces_bounds, literal_span, number_end, number_span,
    quoted_span, skip_spaces, token_at,
};
use vstd::prelude::*;
use vstd::slice::slice_subrange;

verus! {

/// A byte offset into the buffer being parsed. Every step of the scanner
/// leaves it where it was or moves it forward.
#[derive(Debug)]
pub struct Cursor {
    pub pos: usize,
}

impl Cursor {
    /// The byte under the cursor, or `None` at the end of the buffer.
    pub fn current(&self, buf: &[u8]) -> (b: Option<u8>)
        ensures
            b == byte_at(buf@, self.pos as int),
    {
        if self.pos < buf.len() {
            Some(buf[self.pos])
        } else {
            None
        }
    }

    /// Moves one byte forward.
    pub fn advance(&mut self)
        requires
            old(self).pos < usize::MAX,
        ensures
            final(self).pos == old(self).pos + 1,
    {
        self.pos += 1;
    }

    /// Skips whitespace and returns the token under the cursor: the byte
    /// itself if it can start a token, 0 at the end of the buffer or on any
    /// other byte. The token is not consumed.
    pub fn next_token(&mut self, buf: &[u8]) -> (t: u8)
        ensures
            final(self).pos == skip_spaces(buf@, old(self).pos as int),
            t == token_at(buf@, final(self).pos as int),
            old(self).pos <= final(self).pos,
            old(self).pos <= buf.len() ==> final(self).pos <= buf.len(),
    {
        proof {
            lemma_skip_spaces_bounds(buf@, self.pos as int);
        }
        while self.pos < buf.len() && (buf[self.pos] == SPACE || buf[self.pos] == NEWLINE
            || buf[self.pos] == TAB || buf[self.pos] == RETURN)
            invariant
                skip_spaces(buf@, self.pos as int) == skip_spaces(buf@, old(self).pos as int),
            decreases buf.len() - self.pos,
        {
            self.pos += 1;
        }
        if self.pos >= buf.len() {
            return 0;
        }
        let b = buf[self.pos];
        if b == OPEN_BRACE || b == CLOSE_BRACE || b == OPEN_BRACKET || b == CLOSE_BRACKET || b
            == QUOTE || b == COLON || b == COMMA || (ZERO <= b && b <= NINE) || b == LOWER_T || b
            == LOWER_F || b == LOWER_N {
            b
        } else {
            0
        }
    }

    /// Consumes a quoted string. Returns the bytes between the quotes, as
    /// they stand in the buffer, and whether a backslash occurs among them.
    /// On a fault the cursor stops where the fault was detected.
    pub fn consume_str<'a>(&mut self, buf: &'a [u8]) -> (r: Result<(&'a [u8], bool), Error>)
        ensures
            match quoted_span(buf@, old(self).pos as int) {
                Ok(close) => {
                    &&& r matches Ok((span, escaped))
                    &&& span@ == buf@.subrange(old(self).pos + 1, close)
                    &&& escaped == span@.contains(BACKSLASH)
                    &&& final(self).pos == close + 1
                },
                Err(fault) => {
                    &&& r matches Err(e)
                    &&& e@ == fault
                    &&& final(self).pos == fault.pos
                },
            },
            old(self).pos <= final(self).pos,
            old(self).pos <= buf.len() ==> final(self).pos <= buf.len(),
    {
        match self.current(buf) {
            Some(b) => {
                if b != QUOTE {
                    return Err(
                        Error { pos: self.pos, msg: "Couldn't parse string. Missed first \"" },
                    );
                }
            },
            None => {
                return Err(Error { pos: self.pos, msg: "Couldn't parse string. Missed first \"" });
            },
        }
        assert(byte_at(buf@, self.pos as int) is Some);
        assert(self.pos < buf.len());
        self.pos += 1;
        let mut escape = false;
        let mut escaped = false;
        let span_start = self.pos;
        proof {
            lemma_closing_quote_bounds(buf@, span_start as int, false);
        }
        loop
            invariant
                span_start == old(self).pos + 1,
                span_start <= self.pos <= buf.len(),
                byte_at(buf@, old(self).pos as int) == Some(QUOTE),
                escape ==> escaped,
                closing_quote(buf@, self.pos as int, escape) == closing_quote(
                    buf@,
                    span_start as int,
                    false,
                ),
                escaped == buf@.subrange(span_start as int, self.pos as int).contains(BACKSLASH),
            ensures
                span_start <= self.pos < buf.len(),
                closing_quote(buf@, span_start as int, false) == Some(self.pos as int),
                escaped == buf@.subrange(span_start as int, self.pos as int).contains(BACKSLASH),
            decreases buf.len() - self.pos,
        {
            let ghost before = buf@.subrange(span_start as int, self.pos as int);
            match self.current(buf) {
                None => {
                    return Err(
                        Error { pos: self.pos, msg: "Unexpected data end while parsing string" },
                    );
                },
                Some(b) => {
                    let ghost after = buf@.subrange(span_start as int, self.pos + 1);
                    assert(after =~= before.push(b));
                    proof {
                        lemma_contains_push(before, b, BACKSLASH);
                    }
                    if !escape && b == BACKSLASH {
                        escape = true;
                        escaped = true;
                    } else if !escape && b == QUOTE {
                        break;
                    } else {
                        escape = false;
                    }
                },
            }
            self.pos += 1;
        }
        let span_end = self.pos;
        self.pos += 1;
        Ok((slice_subrange(buf, span_start, span_end), escaped))
    }

    /// Consumes a number: a digit, and the digits and dots that follow it.
    /// Returns those bytes and whether a dot occurs among them. The order of
    /// digits and dots is not examined here.
    pub fn consume_number<'a>(&mut self, buf: &'a [u8]) -> (r: Result<(&'a [u8], bool), Error>)
        ensures
            match number_span(buf@, old(self).pos as int) {
                Ok(end) => {
                    &&& r matches Ok((span, float))
                    &&& span@ == buf@.subrange(old(self).pos as int, end)
                    &&& float == span@.contains(DOT)
                    &&& final(self).pos == end
                },
                Err(fault) => {
                    &&& r matches Err(e)
                    &&& e@ == fault
                    &&& final(self).pos == fault.pos
                },
            },
            old(self).pos <= final(self).pos,
            old(self).pos <= buf.len() ==> final(self).pos <= buf.len(),
    {
        let span_start = self.pos;
        let mut float = false;
        let first = match self.current(buf) {
            Some(b) => b,
            None => 0,
        };
        if !(ZERO <= first && first <= NINE) {
            return Err(Error { pos: self.pos, msg: "Couldn't parse number. Missed first digit" });
        }
        proof {
            lemma_number_end_bounds(buf@, span_start as int);
        }
        while self.pos < buf.len() && ((ZERO <= buf[self.pos] && buf[self.pos] <= NINE)
            || buf[self.pos] == DOT)
            invariant
                span_start == old(self).pos,
                span_start <= self.pos <= buf.len(),
                number_end(buf@, self.pos as int) == number_end(buf@, span_start as int),
                float == buf@.subrange(span_start as int, self.pos as int).contains(DOT),
            decreases buf.len() - self.pos,
        {
            let ghost before = buf@.subrange(span_start as int, self.pos as int);
            let ghost after = buf@.subrange(span_start as int, self.pos + 1);
            let b = buf[self.pos];
            assert(after =~= before.push(b));
            proof {
                lemma_contains_push(before, b, DOT);
            }
            if b == DOT {
                float = true;
            }
            self.pos += 1;
        }
        let span_end = self.pos;
        Ok((slice_subrange(buf, span_start, span_end), float))
    }

    /// Consumes the keyword `lit` if it stands under the cursor, byte for
    /// byte. On a fault the cursor does not move.
    pub fn consume_lit(&mut self, buf: &[u8], lit: &[u8]) -> (r: Result<(), Error>)
        ensures
            match literal_span(buf@, old(self).pos as int, lit@) {
                Ok(end) => r is Ok && final(self).pos == end,
                Err(fault) => {
                    &&& r matches Err(e)
                    &&& e@ == fault
                    &&& final(self).pos == fault.pos
                },
            },
            old(self).pos <= final(self).pos,
            old(self).pos <= buf.len() ==> final(self).pos <= buf.len(),
    {
        if lit.len() > buf.len() || self.pos > buf.len() - lit.len() {
            return Err(Error { pos: self.pos, msg: "Unexpected data end while parsing litteral" });
        }
        let ghost found = buf@.subrange(self.pos as int, self.pos + lit.len());
        let mut i: usize = 0;
        while i < lit.len()
            invariant
                self.pos == old(self).pos,
                self.pos + lit.len() <= buf.len(),
                found == buf@.subrange(self.pos as int, self.pos + lit.len()),
                i <= lit.len(),
                forall|j: int| 0 <= j < i ==> found[j] == lit@[j],
            decreases lit.len() - i,
        {
            if buf[self.pos + i] != lit[i] {
                assert(found[i as int] != lit@[i as int]);
                return Err(Error { pos: self.pos, msg: "Unexpected value for litteral" });
            }
            i += 1;
        }
        assert(found =~= lit@);
        self.pos += lit.len();
        Ok(())
    }

    /// Consumes the keyword `null`.
    pub fn consume_null(&mut self, buf: &[u8]) -> (r: Result<(), Error>)
        ensures
            match literal_span(buf@, old(self).pos as int, null_text()) {
                Ok(end) => r is Ok && final(self).pos == end,
                Err(fault) => {
                    &&& r matches Err(e)
                    &&& e@ == fault
                    &&& final(self).pos == fault.pos
                },
            },
            old(self).pos <= final(self).pos,
            old(self).pos <= buf.len() ==> final(self).pos <= buf.len(),
    {
        let null: [u8; 4] = [0x6e, 0x75, 0x6c, 0x6c];
        assert(null@ =~= null_text());
        self.consume_lit(buf, null.as_slice())
    }

    /// Consumes the keyword `true`.
    pub fn consume_true(&mut self, buf: &[u8]) -> (r: Result<(), Error>)
        ensures
            match literal_span(buf@, old(self).pos as int, true_text()) {
                Ok(end) => r is Ok && final(self).pos == end,
                Err(fault) => {
                    &&& r matches Err(e)
                    &&& e@ == fault
                    &&& final(self).pos == fault.pos
                },
            },
            old(self).pos <= final(self).pos,
            old(self).pos <= buf.len() ==> final(self).pos <= buf.len(),
    {
        let _true: [u8; 4] = [0x74, 0x72, 0x75, 0x65];
        assert(_true@ =~= true_text());
        self.consume_lit(buf, _true.as_slice())
    }

    /// Consumes the keyword `false`.
    pub fn consume_false(&mut self, buf: &[u8]) -> (r: Result<(), Error>)
        ensures
            match literal_span(buf@, old(self).pos as int, false_text()) {
                Ok(end) => r is Ok && final(self).pos == end,
                Err(fault) => {
                    &&& r matches Err(e)
                    &&& e@ == fault
                    &&& final(self).pos == fault.pos
                },
            },
            old(self).pos <= final(self).pos,
            old(self).pos <= buf.len() ==> final(self).pos <= buf.len(),
    {
        let _false: [u8; 5] = [0x66, 0x61, 0x6c, 0x73, 0x65];
        assert(_false@ =~= false_text());
        self.consume_lit(buf, _false.as_slice())
    }
}

} // verus!
