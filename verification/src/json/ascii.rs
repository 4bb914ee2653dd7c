//! The ASCII bytes that the wire format gives a meaning to.

use vstd::prelude::*;

verus! {

/// Backspace.
pub const BACKSPACE: u8 = 0x08;

/// Horizontal tab.
pub const TAB: u8 = 0x09;

/// Line feed.
pub const NEWLINE: u8 = 0x0a;

/// Form feed.
pub const FORMFEED: u8 = 0x0c;

/// Carriage return.
pub const RETURN: u8 = 0x0d;

/// The space character.
pub const SPACE: u8 = 0x20;

/// `"`
pub const QUOTE: u8 = 0x22;

/// `,`
pub const COMMA: u8 = 0x2c;

/// `-`
pub const MINUS: u8 = 0x2d;

/// `.`
pub const DOT: u8 = 0x2e;

/// `/`
pub const SLASH: u8 = 0x2f;

/// `0`
pub const ZERO: u8 = 0x30;

/// `9`
pub const NINE: u8 = 0x39;

/// `:`
pub const COLON: u8 = 0x3a;

/// `[`
pub const OPEN_BRACKET: u8 = 0x5b;

/// `\`
pub const BACKSLASH: u8 = 0x5c;

/// `]`
pub const CLOSE_BRACKET: u8 = 0x5d;

/// `b`
pub const LOWER_B: u8 = 0x62;

/// `f`
pub const LOWER_F: u8 = 0x66;

/// `n`
pub const LOWER_N: u8 = 0x6e;

/// `r`
pub const LOWER_R: u8 = 0x72;

/// `t`
pub const LOWER_T: u8 = 0x74;

/// `u`
pub const LOWER_U: u8 = 0x75;

/// `{`
pub const OPEN_BRACE: u8 = 0x7b;

/// `}`
pub const CLOSE_BRACE: u8 = 0x7d;

/// Whether `b` is one of the four whitespace bytes that may stand between tokens.
pub open spec fn is_space(b: u8) -> bool {
    b == SPACE || b == NEWLINE || b == TAB || b == RETURN
}

/// Whether `b` is a decimal digit.
pub open spec fn is_digit(b: u8) -> bool {
    ZERO <= b <= NINE
}

/// Whether `b` can start a token: punctuation, a quote, a digit, or the first
/// letter of `true`, `false` and `null`.
pub open spec fn is_significant(b: u8) -> bool {
    b == OPEN_BRACE || b == CLOSE_BRACE || b == OPEN_BRACKET || b == CLOSE_BRACKET || b == QUOTE
        || b == COLON || b == COMMA || is_digit(b) || b == LOWER_T || b == LOWER_F || b == LOWER_N
}

/// The bytes of the keyword `null`.
pub open spec fn null_text() -> Seq<u8> {
    seq![0x6eu8, 0x75u8, 0x6cu8, 0x6cu8]
}

/// The bytes of the keyword `true`.
pub open spec fn true_text() -> Seq<u8> {
    seq![0x74u8, 0x72u8, 0x75u8, 0x65u8]
}

/// The bytes of the keyword `false`.
pub open spec fn false_text() -> Seq<u8> {
    seq![0x66u8, 0x61u8, 0x6cu8, 0x73u8, 0x65u8]
}

} // verus!
