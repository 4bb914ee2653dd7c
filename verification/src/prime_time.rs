//! The request/response rule of a line-delimited primality service.
//!
//! Each request is one line that holds a JSON object with the members
//! `"method": "isPrime"` and `"prime": <integer>`. The reply to such a line
//! says whether the integer is prime, and the connection stays open. Any
//! other line gets the malformed-request reply, after which the connection
//! is to be closed.

use crate::json::ascii::NEWLINE;
use crate::json::grammar::document;
use crate::json::model::{lemma_key_index, lookup, with_member, Json};
use crate::json::parse::parse_json;
use crate::json::serialize::serialize_json;
use crate::json::value::{same_text, text_of, Object, Value};
use std::borrow::Cow;
use vstd::arithmetic::div_mod::{lemma_fundamental_div_mod, lemma_mod_multiples_basic};
use vstd::prelude::*;

verus! {

/// `n` is at least 2 and no integer from 2 up to `n - 1` divides it.
pub open spec fn prime(n: int) -> bool {
    n >= 2 && forall|d: int| 2 <= d < n ==> #[trigger] (n % d) != 0
}

/// A number with a proper divisor has one whose square does not exceed it.
pub proof fn lemma_small_divisor(n: int, d: int) -> (q: int)
    requires
        2 <= d < n,
        n % d == 0,
    ensures
        2 <= q < n,
        n % q == 0,
        q * q <= n,
{
    lemma_fundamental_div_mod(n, d);
    let c = n / d;
    assert(n == d * c);
    assert(2 <= c < n) by (nonlinear_arith)
        requires
            n == d * c,
            2 <= d < n,
    ;
    assert(n % c == 0) by {
        lemma_mod_multiples_basic(d, c);
    }
    if d <= c {
        assert(d * d <= n) by (nonlinear_arith)
            requires
                n == d * c,
                2 <= d <= c,
        ;
        d
    } else {
        assert(c * c <= n) by (nonlinear_arith)
            requires
                n == d * c,
                2 <= c < d,
        ;
        c
    }
}

/// Whether `n` is prime, by trial division up to its integer square root.
/// Numbers below 2 are not prime.
pub fn is_prime(n: i64) -> (r: bool)
    ensures
        r == prime(n as int),
{
    if n < 2 {
        return false;
    }
    let m: u64 = n as u64;
    let mut i: u64 = 2;
    while i <= m / i
        invariant
            m == n,
            2 <= i <= m,
            forall|d: int| 2 <= d < i ==> #[trigger] (m as int % d) != 0,
        decreases m - i,
    {
        proof {
            lemma_fundamental_div_mod(m as int, i as int);
            assert(i * 2 <= m) by (nonlinear_arith)
                requires
                    m == i * (m / i) + m % i,
                    m % i >= 0,
                    2 <= i <= m / i,
            ;
        }
        if m % i == 0 {
            assert(n as int % i as int == 0);
            return false;
        }
        i += 1;
    }
    proof {
        lemma_fundamental_div_mod(m as int, i as int);
        assert(m < i * i) by (nonlinear_arith)
            requires
                m == i * (m / i) + m % i,
                0 <= m % i < i,
                0 <= m / i < i,
        ;
        assert forall|d: int| 2 <= d < m implies #[trigger] (m as int % d) != 0 by {
            if m as int % d == 0 {
                let q = lemma_small_divisor(m as int, d);
                assert(q < i) by (nonlinear_arith)
                    requires
                        q * q <= m,
                        m < i * i,
                        0 <= q,
                        0 <= i,
                ;
            }
        }
    }
    true
}

/// The number that a request asks about: the request starts with an object
/// whose member `method` is the string `isPrime` and whose member `prime` is
/// an integer. Any other request asks about none.
pub open spec fn requested_number(request: Seq<u8>) -> Option<i64> {
    match document(request) {
        Ok(Json::Object(members)) => match (lookup(members, "method"@), lookup(members, "prime"@)) {
            (Some(Json::String(method)), Some(Json::Int(n))) => if method == "isPrime"@ {
                Some(n)
            } else {
                None
            },
            _ => None,
        },
        _ => None,
    }
}

/// The document that answers a request about `n`.
pub open spec fn answer(n: i64) -> Json {
    Json::Object(
        seq![("method"@, Json::String("isPrime"@)), ("prime"@, Json::Bool(prime(n as int)))],
    )
}

/// The document that answers any other request.
pub open spec fn malformed() -> Json {
    Json::Object(seq![("error"@, Json::String("malformed request"@))])
}

/// The bytes sent back for a request: the answer and a newline, or the
/// malformed-request reply, which has no newline.
pub open spec fn reply(request: Seq<u8>) -> Seq<u8> {
    match requested_number(request) {
        Some(n) => answer(n).text() + seq![NEWLINE],
        None => malformed().text(),
    }
}

/// Appends the malformed-request reply to `out`.
pub fn write_error(out: &mut Vec<u8>)
    ensures
        final(out)@ == old(out)@ + malformed().text(),
{
    let mut members = Object::new();
    members.insert(Cow::Borrowed("error"), Value::String(Cow::Borrowed("malformed request")));
    let response = Value::Object(members);
    assert(response.model() == malformed()) by {
        let ghost empty = Seq::<(Seq<char>, Json)>::empty();
        assert(with_member(empty, "error"@, Json::String("malformed request"@)) =~= seq![
            ("error"@, Json::String("malformed request"@)),
        ]);
    }
    serialize_json(&response, out);
}

/// The number that a parsed request asks about, if it has the shape of a
/// request.
fn number_of(request: &Value) -> (r: Option<i64>)
    ensures
        r == match request.model() {
            Json::Object(members) => match (lookup(members, "method"@), lookup(members, "prime"@)) {
                (Some(Json::String(method)), Some(Json::Int(n))) => if method == "isPrime"@ {
                    Some(n)
                } else {
                    None
                },
                _ => None,
            },
            _ => None,
        },
{
    let members = match request.object() {
        Some(members) => members,
        None => {
            return None;
        },
    };
    let method = match members.get("method") {
        Some(found) => match found.string() {
            Some(text) => text,
            None => {
                return None;
            },
        },
        None => {
            return None;
        },
    };
    let number = match members.get("prime") {
        Some(found) => match found.integer() {
            Some(n) => *n,
            None => {
                return None;
            },
        },
        None => {
            return None;
        },
    };
    if same_text(text_of(method), "isPrime") {
        Some(number)
    } else {
        None
    }
}

/// Appends the reply to one request line to `out` and says whether the
/// connection stays open: it does after an answer, and does not after the
/// malformed-request reply. The empty request, which is what is read once
/// the peer has closed the stream, is malformed like any other.
pub fn respond(request: &[u8], out: &mut Vec<u8>) -> (keep_open: bool)
    ensures
        final(out)@ == old(out)@ + reply(request@),
        keep_open == requested_number(request@) is Some,
{
    let parsed = match parse_json(request) {
        Ok(value) => value,
        Err(_) => {
            write_error(out);
            return false;
        },
    };
    let number = match number_of(&parsed) {
        Some(n) => n,
        None => {
            write_error(out);
            return false;
        },
    };
    let mut members = Object::new();
    members.insert(Cow::Borrowed("method"), Value::String(Cow::Borrowed("isPrime")));
    members.insert(Cow::Borrowed("prime"), Value::Bool(is_prime(number)));
    let response = Value::Object(members);
    assert(response.model() == answer(number)) by {
        reveal_strlit("method");
        reveal_strlit("prime");
        let ghost empty = Seq::<(Seq<char>, Json)>::empty();
        let ghost first = seq![("method"@, Json::String("isPrime"@))];
        assert(with_member(empty, "method"@, Json::String("isPrime"@)) =~= first);
        assert("method"@.len() != "prime"@.len());
        lemma_key_index(first, "prime"@, 1);
        assert(with_member(first, "prime"@, Json::Bool(prime(number as int))) =~= seq![
            ("method"@, Json::String("isPrime"@)),
            ("prime"@, Json::Bool(prime(number as int))),
        ]);
    }
    let ghost before = out@;
    serialize_json(&response, out);
    out.push(NEWLINE);
    assert(out@ =~= before + (answer(number).text() + seq![NEWLINE]));
    true
}

} // verus!
