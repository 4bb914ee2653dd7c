//! String contents on the wire: UTF-8 text with two-byte backslash escapes.

use super::ascii::{
    BACKSLASH, BACKSPACE, FORMFEED, LOWER_B, LOWER_F, LOWER_N, LOWER_R, LOWER_T, LOWER_U, NEWLINE,
    QUOTE, RETURN, SLASH, TAB,
};
use super::error::Fault;
use super::scan::quoted_span;
use vstd::prelude::*;
use vstd::string::StringSliceAdditionalSpecFns;
use vstd::utf8::{decode_utf8, valid_utf8};

verus! {

/// The byte that a backslash followed by `letter` stands for, or the message
/// for a letter that the format does not take.
pub open spec fn escape_meaning(letter: u8) -> Result<u8, &'static str> {
    if letter == QUOTE || letter == BACKSLASH || letter == SLASH {
        Ok(letter)
    } else if letter == LOWER_B {
        Ok(BACKSPACE)
    } else if letter == LOWER_F {
        Ok(FORMFEED)
    } else if letter == LOWER_N {
        Ok(NEWLINE)
    } else if letter == LOWER_R {
        Ok(RETURN)
    } else if letter == LOWER_T {
        Ok(TAB)
    } else if letter == LOWER_U {
        Err("Hex character not handled")
    } else {
        Err("Unrecognised escape sequence")
    }
}

/// `first` in front of a decoded rest; a failure of the rest stays one.
pub open spec fn after(first: Seq<u8>, rest: Result<Seq<u8>, &'static str>) -> Result<
    Seq<u8>,
    &'static str,
> {
    match rest {
        Ok(bytes) => Ok(first + bytes),
        Err(msg) => Err(msg),
    }
}

/// The bytes that `span` stands for once each escape is replaced by its
/// meaning, or the message for the leftmost escape that has none. A backslash
/// that ends `span` stands for nothing.
pub open spec fn unescape(span: Seq<u8>) -> Result<Seq<u8>, &'static str>
    decreases span.len(),
{
    if span.len() == 0 {
        Ok(Seq::empty())
    } else if span[0] != BACKSLASH {
        after(seq![span[0]], unescape(span.skip(1)))
    } else if span.len() == 1 {
        Ok(Seq::empty())
    } else {
        match escape_meaning(span[1]) {
            Ok(b) => after(seq![b], unescape(span.skip(2))),
            Err(msg) => Err(msg),
        }
    }
}

/// The string whose opening quote is at `pos`: its text and the position just
/// after its closing quote. Faults found after the closing quote was seen are
/// reported at the position after it.
pub open spec fn string_at(s: Seq<u8>, pos: int) -> Result<(Seq<char>, int), Fault> {
    match quoted_span(s, pos) {
        Err(fault) => Err(fault),
        Ok(close) => match unescape(s.subrange(pos + 1, close)) {
            Err(msg) => Err(Fault { msg, pos: close + 1 }),
            Ok(bytes) => if valid_utf8(bytes) {
                Ok((decode_utf8(bytes), close + 1))
            } else {
                Err(Fault { msg: "String wasn't utf8 encoded", pos: close + 1 })
            },
        },
    }
}

/// A span without a backslash stands for itself.
pub proof fn lemma_unescape_plain(span: Seq<u8>)
    requires
        !span.contains(BACKSLASH),
    ensures
        unescape(span) == Ok::<Seq<u8>, &'static str>(span),
    decreases span.len(),
{
    if span.len() > 0 {
        let rest = span.skip(1);
        assert(span[0] != BACKSLASH);
        assert forall|i: int| 0 <= i < rest.len() implies rest[i] != BACKSLASH by {
            assert(span[i + 1] != BACKSLASH);
        }
        lemma_unescape_plain(rest);
        assert(seq![span[0]] + rest =~= span);
    } else {
        assert(span =~= Seq::empty());
    }
}

/// `core::str::Utf8Error`, the error of `core::str::from_utf8`. Nothing is
/// read from it.
#[verifier::external_type_specification]
#[verifier::external_body]
pub struct ExUtf8Error(core::str::Utf8Error);

/// `std::string::FromUtf8Error`, the error of `String::from_utf8`. Nothing is
/// read from it.
#[verifier::external_type_specification]
#[verifier::external_body]
pub struct ExFromUtf8Error(std::string::FromUtf8Error);

/// `core::str::from_utf8` succeeds exactly on well-formed UTF-8, and the
/// string slice it then returns is made of the very bytes it was given.
pub assume_specification[ core::str::from_utf8 ](v: &[u8]) -> (r: Result<
    &str,
    core::str::Utf8Error,
>)
    ensures
        r is Ok <==> valid_utf8(v@),
        r matches Ok(s) ==> s.spec_bytes() == v@,
;

/// `String::from_utf8` succeeds exactly on well-formed UTF-8, and the string
/// it then returns holds the characters that the bytes encode.
pub assume_specification[ std::string::String::from_utf8 ](vec: Vec<u8>) -> (r: Result<
    std::string::String,
    std::string::FromUtf8Error,
>)
    ensures
        r is Ok <==> valid_utf8(vec@),
        r matches Ok(s) ==> s@ == decode_utf8(vec@),
;

} // verus!
