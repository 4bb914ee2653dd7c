//! What a JSON document is: the mathematical model that the contracts of the
//! parser and the serializer speak of.

use vstd::prelude::*;

verus! {

/// The mathematical content of a JSON document.
///
/// A number written with a decimal point is kept as the text of its literal.
/// The members of an object are kept in order; in a well-formed document
/// each key occurs once.
pub ghost enum Json {
    String(Seq<char>),
    Float(Seq<char>),
    Int(i64),
    Bool(bool),
    Null,
    Array(Seq<Json>),
    Object(Seq<(Seq<char>, Json)>),
}

/// The index of the first member with the key `key`, or the number of members
/// if there is none.
pub open spec fn key_index(members: Seq<(Seq<char>, Json)>, key: Seq<char>) -> int
    decreases members.len(),
{
    if members.len() == 0 || members.first().0 == key {
        0
    } else {
        1 + key_index(members.drop_first(), key)
    }
}

/// The value that `members` gives to `key`, if any.
pub open spec fn lookup(members: Seq<(Seq<char>, Json)>, key: Seq<char>) -> Option<Json> {
    let i = key_index(members, key);
    if i < members.len() {
        Some(members[i].1)
    } else {
        None
    }
}

/// `members` after `key` is given the value `value`: a member with that key
/// keeps its place and takes the new value, and a new key goes to the end.
pub open spec fn with_member(members: Seq<(Seq<char>, Json)>, key: Seq<char>, value: Json) -> Seq<
    (Seq<char>, Json),
> {
    let i = key_index(members, key);
    if i < members.len() {
        members.update(i, (key, value))
    } else {
        members.push((key, value))
    }
}

/// The members of the object that is written as `pairs`, in this order: where
/// a key is written more than once, the last value wins.
pub open spec fn collect(pairs: Seq<(Seq<char>, Json)>) -> Seq<(Seq<char>, Json)>
    decreases pairs.len(),
{
    if pairs.len() == 0 {
        Seq::empty()
    } else {
        with_member(collect(pairs.drop_last()), pairs.last().0, pairs.last().1)
    }
}

/// No key occurs twice among `members`.
pub open spec fn distinct_keys(members: Seq<(Seq<char>, Json)>) -> bool {
    forall|i: int, j: int| 0 <= i < j < members.len() ==> members[i].0 != members[j].0
}

impl Json {
    /// The two documents are the same but for the order in which the members
    /// of their objects stand.
    pub open spec fn same(self, other: Json) -> bool
        decreases self,
    {
        match (self, other) {
            (Json::Array(items), Json::Array(others)) => {
                &&& items.len() == others.len()
                &&& forall|i: int|
                    0 <= i < items.len() ==> (#[trigger] items[i]).same(others[i])
            },
            (Json::Array(_), _) => false,
            (Json::Object(members), Json::Object(others)) => {
                &&& members.len() == others.len()
                &&& forall|i: int|
                    0 <= i < members.len() ==> match lookup(others, (#[trigger] members[i]).0) {
                        Some(value) => members[i].1.same(value),
                        None => false,
                    }
            },
            (Json::Object(_), _) => false,
            _ => self == other,
        }
    }

    /// In every object of the document, no key occurs twice.
    pub open spec fn well_formed(self) -> bool
        decreases self,
    {
        match self {
            Json::Array(items) => forall|i: int|
                0 <= i < items.len() ==> (#[trigger] items[i]).well_formed(),
            Json::Object(members) => {
                &&& distinct_keys(members)
                &&& forall|i: int|
                    0 <= i < members.len() ==> (#[trigger] members[i]).1.well_formed()
            },
            _ => true,
        }
    }
}

/// The index that `key_index` gives is the one place before which the key
/// does not occur and at which it does, or the end.
pub proof fn lemma_key_index(members: Seq<(Seq<char>, Json)>, key: Seq<char>, k: int)
    requires
        0 <= k <= members.len(),
        forall|j: int| 0 <= j < k ==> (#[trigger] members[j]).0 != key,
        k < members.len() ==> members[k].0 == key,
    ensures
        key_index(members, key) == k,
    decreases members.len(),
{
    if k > 0 {
        let rest = members.drop_first();
        assert(members[0].0 != key);
        assert forall|j: int| 0 <= j < k - 1 implies (#[trigger] rest[j]).0 != key by {
            assert(members[j + 1].0 != key);
        }
        lemma_key_index(rest, key, k - 1);
    }
}

/// Where `key_index` points, and that the key does not occur before it.
pub proof fn lemma_key_index_bounds(members: Seq<(Seq<char>, Json)>, key: Seq<char>)
    ensures
        0 <= key_index(members, key) <= members.len(),
        forall|j: int| 0 <= j < key_index(members, key) ==> (#[trigger] members[j]).0 != key,
        key_index(members, key) < members.len() ==> members[key_index(members, key)].0 == key,
    decreases members.len(),
{
    if members.len() != 0 && members.first().0 != key {
        let rest = members.drop_first();
        lemma_key_index_bounds(rest, key);
        assert forall|j: int| 0 <= j < key_index(members, key) implies (#[trigger] members[j]).0
            != key by {
            if j > 0 {
                assert(rest[j - 1].0 != key);
            }
        }
    }
}

/// Giving a key a value keeps the keys distinct.
pub proof fn lemma_with_member_distinct(
    members: Seq<(Seq<char>, Json)>,
    key: Seq<char>,
    value: Json,
)
    requires
        distinct_keys(members),
    ensures
        distinct_keys(with_member(members, key, value)),
{
    lemma_key_index_bounds(members, key);
    let after = with_member(members, key, value);
    let k = key_index(members, key);
    assert forall|i: int, j: int| 0 <= i < j < after.len() implies after[i].0 != after[j].0 by {
        if k < members.len() {
            assert(after[i].0 == members[i].0);
            assert(after[j].0 == members[j].0);
        } else if j == members.len() {
            assert(members[i].0 != key);
        }
    }
}

/// The members collected from what was written have distinct keys.
pub proof fn lemma_collect_distinct(pairs: Seq<(Seq<char>, Json)>)
    ensures
        distinct_keys(collect(pairs)),
    decreases pairs.len(),
{
    if pairs.len() > 0 {
        lemma_collect_distinct(pairs.drop_last());
        lemma_with_member_distinct(collect(pairs.drop_last()), pairs.last().0, pairs.last().1);
    }
}

/// A document in which no object has a key twice is the same as itself:
/// looking up the key of a member finds that member.
pub proof fn lemma_same_reflexive(j: Json)
    requires
        j.well_formed(),
    ensures
        j.same(j),
    decreases j,
{
    match j {
        Json::Array(items) => {
            assert forall|i: int| 0 <= i < items.len() implies (#[trigger] items[i]).same(
                items[i],
            ) by {
                lemma_same_reflexive(items[i]);
            }
        },
        Json::Object(members) => {
            assert forall|i: int| 0 <= i < members.len() implies match lookup(
                members,
                (#[trigger] members[i]).0,
            ) {
                Some(value) => members[i].1.same(value),
                None => false,
            } by {
                assert forall|k: int| 0 <= k < i implies (#[trigger] members[k]).0
                    != members[i].0 by {}
                lemma_key_index(members, members[i].0, i);
                lemma_same_reflexive(members[i].1);
            }
        },
        _ => {},
    }
}

/// Every member that is collected was written.
pub proof fn lemma_collect_members(pairs: Seq<(Seq<char>, Json)>)
    ensures
        forall|i: int|
            0 <= i < collect(pairs).len() ==> pairs.contains(#[trigger] collect(pairs)[i]),
    decreases pairs.len(),
{
    if pairs.len() > 0 {
        let front = pairs.drop_last();
        let last = pairs.last();
        lemma_collect_members(front);
        lemma_key_index_bounds(collect(front), last.0);
        assert forall|i: int| 0 <= i < collect(pairs).len() implies pairs.contains(
            #[trigger] collect(pairs)[i],
        ) by {
            let member = collect(pairs)[i];
            if member == last {
                assert(pairs[pairs.len() - 1] == member);
            } else {
                assert(collect(front)[i] == member);
                let k = choose|k: int| 0 <= k < front.len() && front[k] == member;
                assert(pairs[k] == member);
            }
        }
    }
}

} // verus!
