//! The grammar: which value, if any, stands at a position of a buffer.

use super::ascii::{
    false_text, is_digit, null_text, true_text, CLOSE_BRACE, CLOSE_BRACKET, COLON, COMMA, LOWER_F,
    LOWER_N, LOWER_T, OPEN_BRACE, OPEN_BRACKET, QUOTE,
};
use super::error::Fault;
use super::model::{collect, Json};
use super::number::number_at;
use super::scan::{
    lemma_closing_quote_bounds, lemma_number_end_bounds, lemma_skip_spaces_bounds, literal_span,
    skip_spaces, token_at,
};
use super::text::string_at;
use vstd::prelude::*;

verus! {

/// The value that starts at the first token at or after `pos`, and the
/// position just after it; or the fault at which reading it stops.
///
/// The leading byte of the token decides: a quote starts a string, a digit a
/// number, `t`, `f` and `n` the three keywords, a brace an object and a
/// bracket an array. There is no token for a minus sign. What follows the
/// value is not looked at.
pub open spec fn value_at(s: Seq<u8>, pos: int) -> Result<(Json, int), Fault>
    decreases s.len() - pos, 0int,
{
    let p = skip_spaces(s, pos);
    let token = token_at(s, p);
    if token == QUOTE {
        match string_at(s, p) {
            Ok((text, end)) => Ok((Json::String(text), end)),
            Err(fault) => Err(fault),
        }
    } else if is_digit(token) {
        number_at(s, p)
    } else if token == LOWER_N {
        match literal_span(s, p, null_text()) {
            Ok(end) => Ok((Json::Null, end)),
            Err(fault) => Err(fault),
        }
    } else if token == LOWER_T {
        match literal_span(s, p, true_text()) {
            Ok(end) => Ok((Json::Bool(true), end)),
            Err(fault) => Err(fault),
        }
    } else if token == LOWER_F {
        match literal_span(s, p, false_text()) {
            Ok(end) => Ok((Json::Bool(false), end)),
            Err(fault) => Err(fault),
        }
    } else if token == OPEN_BRACE {
        proof {
            lemma_skip_spaces_bounds(s, pos);
        }
        match members_at(s, p + 1) {
            Ok((pairs, end)) => Ok((Json::Object(collect(pairs)), end)),
            Err(fault) => Err(fault),
        }
    } else if token == OPEN_BRACKET {
        proof {
            lemma_skip_spaces_bounds(s, pos);
        }
        match items_at(s, p + 1) {
            Ok((items, end)) => Ok((Json::Array(items), end)),
            Err(fault) => Err(fault),
        }
    } else if token == 0 {
        Err(Fault { msg: "Unexpected message end", pos: p })
    } else {
        Err(Fault { msg: "Unexpected token while parsing message", pos: p })
    }
}

/// The items of an array from `pos` on, where `pos` is just after the opening
/// bracket or after a comma, and the position just after the closing bracket.
///
/// A closing bracket may follow a comma. A value spans at least one byte
/// (`lemma_value_advances`), so the test that it ends after its start never
/// fails; it is there to make the definition well-founded.
pub open spec fn items_at(s: Seq<u8>, pos: int) -> Result<(Seq<Json>, int), Fault>
    decreases s.len() - pos, 1int,
{
    let p = skip_spaces(s, pos);
    if token_at(s, p) == CLOSE_BRACKET {
        Ok((Seq::empty(), p + 1))
    } else {
        proof {
            lemma_skip_spaces_bounds(s, pos);
        }
        match value_at(s, p) {
            Err(fault) => Err(fault),
            Ok((item, end)) => {
                let q = skip_spaces(s, end);
                let token = token_at(s, q);
                if token == CLOSE_BRACKET {
                    Ok((seq![item], q + 1))
                } else if token == COMMA && p < end {
                    proof {
                        lemma_skip_spaces_bounds(s, end);
                    }
                    match items_at(s, q + 1) {
                        Ok((rest, after)) => Ok((seq![item] + rest, after)),
                        Err(fault) => Err(fault),
                    }
                } else {
                    Err(Fault { msg: "Unexpected token when parsing array", pos: q })
                }
            },
        }
    }
}

/// The members of an object from `pos` on, as they are written, where `pos`
/// is just after the opening brace or after a comma, and the position just
/// after the closing brace.
///
/// A closing brace may follow a comma. As in `items_at`, the test that a
/// value ends after its start never fails.
pub open spec fn members_at(s: Seq<u8>, pos: int) -> Result<(Seq<(Seq<char>, Json)>, int), Fault>
    decreases s.len() - pos, 1int,
{
    let p = skip_spaces(s, pos);
    if token_at(s, p) == CLOSE_BRACE {
        Ok((Seq::empty(), p + 1))
    } else {
        match string_at(s, p) {
            Err(fault) => Err(fault),
            Ok((key, key_end)) => {
                let colon = skip_spaces(s, key_end);
                if token_at(s, colon) != COLON {
                    Err(Fault { msg: "Unexpcted object key value separator", pos: colon })
                } else {
                    proof {
                        lemma_skip_spaces_bounds(s, pos);
                        lemma_closing_quote_bounds(s, p + 1, false);
                        lemma_skip_spaces_bounds(s, key_end);
                    }
                    match value_at(s, colon + 1) {
                        Err(fault) => Err(fault),
                        Ok((value, end)) => {
                            let q = skip_spaces(s, end);
                            let token = token_at(s, q);
                            if token == CLOSE_BRACE {
                                Ok((seq![(key, value)], q + 1))
                            } else if token == COMMA && colon < end {
                                proof {
                                    lemma_skip_spaces_bounds(s, end);
                                }
                                match members_at(s, q + 1) {
                                    Ok((rest, after)) => Ok((seq![(key, value)] + rest, after)),
                                    Err(fault) => Err(fault),
                                }
                            } else {
                                Err(Fault { msg: "Unexpected token when parsing object", pos: q })
                            }
                        },
                    }
                }
            },
        }
    }
}

/// The value that a whole buffer starts with. Bytes after it are not read.
pub open spec fn document(s: Seq<u8>) -> Result<Json, Fault> {
    match value_at(s, 0) {
        Ok((value, _)) => Ok(value),
        Err(fault) => Err(fault),
    }
}

/// A string that is read ends after its opening quote, inside the buffer; a
/// fault lies between the start and the end of the buffer.
pub proof fn lemma_string_bounds(s: Seq<u8>, pos: int)
    requires
        0 <= pos,
    ensures
        match string_at(s, pos) {
            Ok((_, end)) => pos + 1 < end <= s.len(),
            Err(fault) => pos <= fault.pos && (pos <= s.len() ==> fault.pos <= s.len()),
        },
{
    lemma_closing_quote_bounds(s, pos + 1, false);
}

/// A number that is read ends after its start, inside the buffer; a fault
/// lies between the start and the end of the buffer.
pub proof fn lemma_number_bounds(s: Seq<u8>, pos: int)
    requires
        0 <= pos,
    ensures
        match number_at(s, pos) {
            Ok((_, end)) => pos < end <= s.len(),
            Err(fault) => pos <= fault.pos && (pos <= s.len() ==> fault.pos <= s.len()),
        },
{
    lemma_number_end_bounds(s, pos);
    lemma_number_end_bounds(s, pos + 1);
}

/// A value that is read spans at least one byte and ends inside the buffer;
/// a fault lies between the start and the end of the buffer.
pub proof fn lemma_value_bounds(s: Seq<u8>, pos: int)
    requires
        0 <= pos,
    ensures
        match value_at(s, pos) {
            Ok((_, end)) => skip_spaces(s, pos) < end <= s.len(),
            Err(fault) => pos <= fault.pos && (pos <= s.len() ==> fault.pos <= s.len()),
        },
    decreases s.len() - pos, 0int,
{
    lemma_skip_spaces_bounds(s, pos);
    let p = skip_spaces(s, pos);
    let token = token_at(s, p);
    if token == QUOTE {
        lemma_string_bounds(s, p);
    } else if is_digit(token) {
        lemma_number_bounds(s, p);
    } else if token == LOWER_N {
        assert(null_text().len() == 4);
    } else if token == LOWER_T {
        assert(true_text().len() == 4);
    } else if token == LOWER_F {
        assert(false_text().len() == 5);
    } else if token == OPEN_BRACE {
        lemma_members_bounds(s, p + 1);
    } else if token == OPEN_BRACKET {
        lemma_items_bounds(s, p + 1);
    }
}

/// The items of an array end after `pos`, inside the buffer; a fault lies
/// between `pos` and the end of the buffer.
pub proof fn lemma_items_bounds(s: Seq<u8>, pos: int)
    requires
        0 <= pos,
    ensures
        match items_at(s, pos) {
            Ok((_, end)) => pos < end <= s.len(),
            Err(fault) => pos <= fault.pos && (pos <= s.len() ==> fault.pos <= s.len()),
        },
    decreases s.len() - pos, 1int,
{
    lemma_skip_spaces_bounds(s, pos);
    let p = skip_spaces(s, pos);
    if token_at(s, p) != CLOSE_BRACKET {
        lemma_value_bounds(s, p);
        if let Ok((_, end)) = value_at(s, p) {
            lemma_skip_spaces_bounds(s, end);
            let q = skip_spaces(s, end);
            if token_at(s, q) == COMMA {
                lemma_items_bounds(s, q + 1);
            }
        }
    }
}

/// The members of an object end after `pos`, inside the buffer; a fault lies
/// between `pos` and the end of the buffer.
pub proof fn lemma_members_bounds(s: Seq<u8>, pos: int)
    requires
        0 <= pos,
    ensures
        match members_at(s, pos) {
            Ok((_, end)) => pos < end <= s.len(),
            Err(fault) => pos <= fault.pos && (pos <= s.len() ==> fault.pos <= s.len()),
        },
    decreases s.len() - pos, 1int,
{
    lemma_skip_spaces_bounds(s, pos);
    let p = skip_spaces(s, pos);
    if token_at(s, p) != CLOSE_BRACE {
        lemma_string_bounds(s, p);
        if let Ok((_, key_end)) = string_at(s, p) {
            lemma_skip_spaces_bounds(s, key_end);
            let colon = skip_spaces(s, key_end);
            if token_at(s, colon) == COLON {
                lemma_value_bounds(s, colon + 1);
                lemma_skip_spaces_bounds(s, colon + 1);
                if let Ok((_, end)) = value_at(s, colon + 1) {
                    lemma_skip_spaces_bounds(s, end);
                    let q = skip_spaces(s, end);
                    if token_at(s, q) == COMMA {
                        lemma_members_bounds(s, q + 1);
                    }
                }
            }
        }
    }
}

} // verus!
