//! What holds of the parser and the serializer together: which documents
//! survive being written out and parsed again.

use super::ascii::{is_digit, DOT};
use super::error::Fault;
use super::grammar::document;
use super::model::{distinct_keys, lemma_same_reflexive, Json};
use super::number::occurrences;
use super::round_trip::{lemma_value_reads_back, lemma_value_round_trip};
use super::value::Value;
use vstd::prelude::*;
use vstd::utf8::encode_utf8;

verus! {

/// The literal of a number with a fraction, as the parser takes it: digits
/// and exactly one dot, a digit first.
pub open spec fn is_fraction_literal(bytes: Seq<u8>) -> bool {
    &&& bytes.len() > 0
    &&& is_digit(bytes[0])
    &&& forall|i: int| 0 <= i < bytes.len() ==> is_digit(#[trigger] bytes[i]) || bytes[i] == DOT
    &&& occurrences(bytes, DOT) == 1
}

/// Whether the parser reads the document back from its text: no integer in
/// it is negative, every number with a fraction is a literal of digits and
/// one dot, and no object has a key twice.
pub open spec fn reads_back(j: Json) -> bool
    decreases j,
{
    match j {
        Json::Int(n) => n >= 0,
        Json::Float(literal) => is_fraction_literal(encode_utf8(literal)),
        Json::Array(items) => forall|i: int|
            0 <= i < items.len() ==> reads_back(#[trigger] items[i]),
        Json::Object(members) => {
            &&& distinct_keys(members)
            &&& forall|i: int| 0 <= i < members.len() ==> reads_back((#[trigger] members[i]).1)
        },
        _ => true,
    }
}

/// The round trip: a document that `reads_back` allows, written out and
/// parsed again, is the document itself, and so compares equal to it.
pub proof fn lemma_round_trip(j: Json)
    requires
        reads_back(j),
    ensures
        document(j.text()) == Ok::<Json, Fault>(j),
        j.same(j),
{
    let s = j.text();
    assert(s.subrange(0, s.len() as int) =~= s);
    lemma_value_round_trip(s, 0, j);
    lemma_reads_back_well_formed(j);
    lemma_same_reflexive(j);
}

/// The round trip of a value: where `reads_back` allows its document, the
/// text that the serializer writes for the value is one from which the parser
/// yields that document again.
pub proof fn lemma_round_trip_of_value(v: Value<'_>)
    requires
        reads_back(v.model()),
    ensures
        document(v.model().text()) == Ok::<Json, Fault>(v.model()),
        v.model().same(v.model()),
{
    lemma_round_trip(v.model());
}

/// Whatever the parser yields, it reads back from the text that the
/// serializer writes for it.
pub proof fn lemma_parsed_reads_back(s: Seq<u8>)
    ensures
        document(s) matches Ok(j) ==> reads_back(j) && j.well_formed(),
{
    lemma_value_reads_back(s, 0);
    if let Ok(j) = document(s) {
        lemma_reads_back_well_formed(j);
    }
}

/// `reads_back` allows exactly the documents that come back from their text.
pub proof fn lemma_reads_back_exactly(j: Json)
    ensures
        reads_back(j) <==> document(j.text()) == Ok::<Json, Fault>(j),
{
    if reads_back(j) {
        lemma_round_trip(j);
    }
    lemma_parsed_reads_back(j.text());
}

/// A document that `reads_back` allows has no key twice in any object.
pub proof fn lemma_reads_back_well_formed(j: Json)
    requires
        reads_back(j),
    ensures
        j.well_formed(),
    decreases j,
{
    match j {
        Json::Array(items) => {
            assert forall|i: int| 0 <= i < items.len() implies (#[trigger] items[i])
                .well_formed() by {
                lemma_reads_back_well_formed(items[i]);
            }
        },
        Json::Object(members) => {
            assert forall|i: int| 0 <= i < members.len() implies (#[trigger] members[i])
                .1.well_formed() by {
                lemma_reads_back_well_formed(members[i].1);
            }
        },
        _ => {},
    }
}

} // verus!
