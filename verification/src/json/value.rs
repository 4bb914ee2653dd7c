//! The values that hold a JSON document: parsed from a buffer, or built to
//! be written out.

use super::model::{
    distinct_keys, key_index, lemma_key_index, lemma_with_member_distinct, lookup, with_member,
    Json,
};
use std::borrow::Cow;
use vstd::prelude::*;
use vstd::std_specs::cmp::PartialEqSpecImpl;
use vstd::string::StringSliceAdditionalSpecFns;
use vstd::utf8::encode_utf8_decode_utf8;

verus! {

/// A mapping from text keys to values, each key once. Members are kept in
/// the order in which their keys were first inserted; that order is the one
/// in which the object is written out.
#[derive(Debug)]
pub struct Object<'a> {
    entries: Vec<(Cow<'a, str>, Value<'a>)>,
}

/// One parsed or constructed JSON value.
///
/// `Float` holds the text of a number written with a decimal point, as it
/// stands on the wire; turning it into a binary floating-point number is left
/// to the caller.
#[derive(Debug)]
pub enum Value<'a> {
    String(Cow<'a, str>),
    Float(Cow<'a, str>),
    Int(i64),
    Bool(bool),
    Null(()),
    Array(Vec<Value<'a>>),
    Object(Object<'a>),
}

/// The documents that a sequence of values holds, in the same order.
pub open spec fn models(items: Seq<Value<'_>>) -> Seq<Json>
    decreases items,
{
    Seq::new(
        items.len(),
        |i: int|
            if 0 <= i < items.len() {
                items[i].model()
            } else {
                Json::Null
            },
    )
}

impl<'a> Value<'a> {
    /// The document that this value holds.
    pub open spec fn model(self) -> Json
        decreases self,
    {
        match self {
            Value::String(s) => Json::String(s@),
            Value::Float(s) => Json::Float(s@),
            Value::Int(n) => Json::Int(n),
            Value::Bool(b) => Json::Bool(b),
            Value::Null(_) => Json::Null,
            Value::Array(items) => Json::Array(models(items@)),
            Value::Object(o) => Json::Object(o.model()),
        }
    }

    /// Whether the two values hold the same document, but for the order in
    /// which the members of their objects stand.
    pub fn same_as(&self, other: &Value<'_>) -> (same: bool)
        ensures
            same == self.model().same(other.model()),
        decreases self, 1int,
    {
        match self {
            Value::String(text) => match other {
                Value::String(other_text) => same_text(text_of(text), text_of(other_text)),
                _ => false,
            },
            Value::Float(text) => match other {
                Value::Float(other_text) => same_text(text_of(text), text_of(other_text)),
                _ => false,
            },
            Value::Int(n) => match other {
                Value::Int(m) => *n == *m,
                _ => false,
            },
            Value::Bool(b) => match other {
                Value::Bool(c) => *b == *c,
                _ => false,
            },
            Value::Null(_) => match other {
                Value::Null(_) => true,
                _ => false,
            },
            Value::Array(items) => match other {
                Value::Array(others) => same_items(items, others),
                _ => false,
            },
            Value::Object(members) => match other {
                Value::Object(others) => members.same_as(others),
                _ => false,
            },
        }
    }

    /// The text, if this is a string.
    pub fn string(&self) -> (r: Option<&Cow<'a, str>>)
        ensures
            match *self {
                Value::String(s) => r == Some(&s),
                _ => r is None,
            },
    {
        match self {
            Value::String(v) => Some(v),
            _ => None,
        }
    }

    /// The integer, if this is one.
    pub fn integer(&self) -> (r: Option<&i64>)
        ensures
            match *self {
                Value::Int(n) => r == Some(&n),
                _ => r is None,
            },
    {
        match self {
            Value::Int(v) => Some(v),
            _ => None,
        }
    }

    /// The literal text, if this is a number written with a decimal point.
    pub fn float(&self) -> (r: Option<&Cow<'a, str>>)
        ensures
            match *self {
                Value::Float(s) => r == Some(&s),
                _ => r is None,
            },
    {
        match self {
            Value::Float(v) => Some(v),
            _ => None,
        }
    }

    /// The truth value, if this is one.
    pub fn bool(&self) -> (r: Option<&bool>)
        ensures
            match *self {
                Value::Bool(b) => r == Some(&b),
                _ => r is None,
            },
    {
        match self {
            Value::Bool(v) => Some(v),
            _ => None,
        }
    }

    /// The unit, if this is null.
    pub fn null(&self) -> (r: Option<&()>)
        ensures
            r is Some <==> *self is Null,
    {
        match self {
            Value::Null(v) => Some(v),
            _ => None,
        }
    }

    /// The items, if this is an array.
    pub fn array(&self) -> (r: Option<&Vec<Value<'a>>>)
        ensures
            match *self {
                Value::Array(items) => r == Some(&items),
                _ => r is None,
            },
    {
        match self {
            Value::Array(v) => Some(v),
            _ => None,
        }
    }

    /// The members, if this is an object.
    pub fn object(&self) -> (r: Option<&Object<'a>>)
        ensures
            match *self {
                Value::Object(o) => r == Some(&o),
                _ => r is None,
            },
    {
        match self {
            Value::Object(v) => Some(v),
            _ => None,
        }
    }
}

/// Whether two sequences of values hold the same documents, one by one.
pub fn same_items(items: &Vec<Value<'_>>, others: &Vec<Value<'_>>) -> (same: bool)
    ensures
        same == Json::Array(models(items@)).same(Json::Array(models(others@))),
    decreases items, 0int,
{
    if items.len() != others.len() {
        return false;
    }
    let mut i: usize = 0;
    while i < items.len()
        invariant
            i <= items.len(),
            items.len() == others.len(),
            forall|k: int| 0 <= k < i ==> (#[trigger] models(items@)[k]).same(models(others@)[k]),
        decreases items.len() - i,
    {
        if !items[i].same_as(&others[i]) {
            assert(!models(items@)[i as int].same(models(others@)[i as int]));
            return false;
        }
        i += 1;
    }
    true
}

impl<'a> PartialEq for Value<'a> {
    fn eq(&self, other: &Self) -> (same: bool) {
        self.same_as(other)
    }
}

impl<'a> PartialEqSpecImpl for Value<'a> {
    open spec fn obeys_eq_spec() -> bool {
        true
    }

    open spec fn eq_spec(&self, other: &Self) -> bool {
        self.model().same(other.model())
    }
}

impl<'a> PartialEq for Object<'a> {
    fn eq(&self, other: &Self) -> (same: bool) {
        self.same_as(other)
    }
}

impl<'a> PartialEqSpecImpl for Object<'a> {
    open spec fn obeys_eq_spec() -> bool {
        true
    }

    open spec fn eq_spec(&self, other: &Self) -> bool {
        Json::Object(self.model()).same(Json::Object(other.model()))
    }
}

/// The string slice that a borrowed-or-owned text holds.
pub fn text_of<'b>(text: &'b Cow<'_, str>) -> (s: &'b str)
    ensures
        s@ == text@,
{
    match text {
        Cow::Borrowed(s) => s,
        Cow::Owned(s) => s.as_str(),
    }
}

/// Whether two string slices hold the same text.
pub fn same_text(a: &str, b: &str) -> (same: bool)
    ensures
        same == (a@ == b@),
{
    let x = a.as_bytes();
    let y = b.as_bytes();
    proof {
        encode_utf8_decode_utf8(a@);
        encode_utf8_decode_utf8(b@);
    }
    if x.len() != y.len() {
        return false;
    }
    let mut i: usize = 0;
    while i < x.len()
        invariant
            i <= x.len(),
            x.len() == y.len(),
            x@ == a.spec_bytes(),
            y@ == b.spec_bytes(),
            forall|j: int| 0 <= j < i ==> x@[j] == y@[j],
        decreases x.len() - i,
    {
        if x[i] != y[i] {
            return false;
        }
        i += 1;
    }
    assert(x@ =~= y@);
    true
}

impl<'a> Object<'a> {
    /// No key occurs twice.
    #[verifier::type_invariant]
    spec fn keys_are_distinct(self) -> bool {
        distinct_keys(self.model())
    }

    /// The members, in order.
    pub closed spec fn model(self) -> Seq<(Seq<char>, Json)>
        decreases self,
    {
        Seq::new(
            self.entries@.len(),
            |i: int|
                if 0 <= i < self.entries@.len() {
                    (self.entries@[i].0@, self.entries@[i].1.model())
                } else {
                    (Seq::empty(), Json::Null)
                },
        )
    }

    /// An object without members.
    pub fn new() -> (o: Self)
        ensures
            o.model() == Seq::<(Seq<char>, Json)>::empty(),
            distinct_keys(o.model()),
    {
        let o = Object { entries: Vec::new() };
        assert(o.model() =~= Seq::empty());
        o
    }

    /// The number of members. No two of them have the same key.
    pub fn len(&self) -> (n: usize)
        ensures
            n == self.model().len(),
            distinct_keys(self.model()),
    {
        proof {
            use_type_invariant(self);
        }
        self.entries.len()
    }

    /// Whether the object has no member.
    pub fn is_empty(&self) -> (empty: bool)
        ensures
            empty == (self.model().len() == 0),
    {
        self.entries.len() == 0
    }

    /// The key of the member at index `i`.
    pub fn key(&self, i: usize) -> (k: &str)
        requires
            i < self.model().len(),
        ensures
            k@ == self.model()[i as int].0,
    {
        text_of(&self.entries[i].0)
    }

    /// The value of the member at index `i`.
    pub fn value(&self, i: usize) -> (v: &Value<'a>)
        requires
            i < self.model().len(),
        ensures
            v.model() == self.model()[i as int].1,
            decreases_to!(*self => *v),
    {
        &self.entries[i].1
    }

    /// The index of the member with the key `key`, or the number of members
    /// if there is none.
    fn find(&self, key: &str) -> (k: usize)
        ensures
            k == key_index(self.model(), key@),
            k <= self.model().len(),
    {
        let mut i: usize = 0;
        while i < self.entries.len()
            invariant
                i <= self.entries.len(),
                forall|j: int| 0 <= j < i ==> (#[trigger] self.model()[j]).0 != key@,
            decreases self.entries.len() - i,
        {
            if same_text(text_of(&self.entries[i].0), key) {
                proof {
                    lemma_key_index(self.model(), key@, i as int);
                }
                return i;
            }
            i += 1;
        }
        proof {
            lemma_key_index(self.model(), key@, i as int);
        }
        i
    }

    /// Whether the two objects have the same keys and give each the same
    /// value, in whatever order their members stand.
    pub fn same_as(&self, other: &Object<'_>) -> (same: bool)
        ensures
            same == Json::Object(self.model()).same(Json::Object(other.model())),
        decreases self, 0int,
    {
        if self.entries.len() != other.entries.len() {
            return false;
        }
        let mut i: usize = 0;
        while i < self.entries.len()
            invariant
                i <= self.entries.len(),
                self.model().len() == other.model().len(),
                forall|k: int|
                    0 <= k < i ==> match lookup(other.model(), (#[trigger] self.model()[k]).0) {
                        Some(value) => self.model()[k].1.same(value),
                        None => false,
                    },
            decreases self.entries.len() - i,
        {
            let ghost member = self.model()[i as int];
            match other.get(text_of(&self.entries[i].0)) {
                Some(value) => {
                    if !self.entries[i].1.same_as(value) {
                        assert(!member.1.same(lookup(other.model(), member.0)->Some_0));
                        return false;
                    }
                },
                None => {
                    assert(lookup(other.model(), member.0) is None);
                    return false;
                },
            }
            i += 1;
        }
        true
    }

    /// The value that the object gives to `key`, if any.
    pub fn get(&self, key: &str) -> (r: Option<&Value<'a>>)
        ensures
            match lookup(self.model(), key@) {
                Some(found) => r matches Some(v) && v.model() == found,
                None => r is None,
            },
    {
        let i = self.find(key);
        if i < self.entries.len() {
            Some(&self.entries[i].1)
        } else {
            None
        }
    }

    /// Gives `key` the value `value`. A member that already has this key
    /// keeps its place and takes the new value, and its old value is
    /// returned; a new key is added at the end.
    pub fn insert(&mut self, key: Cow<'a, str>, value: Value<'a>) -> (previous: Option<Value<'a>>)
        ensures
            final(self).model() == with_member(old(self).model(), key@, value.model()),
            distinct_keys(final(self).model()),
            match lookup(old(self).model(), key@) {
                Some(found) => previous matches Some(v) && v.model() == found,
                None => previous is None,
            },
    {
        proof {
            use_type_invariant(&*self);
            lemma_with_member_distinct(self.model(), key@, value.model());
        }
        let i = self.find(text_of(&key));
        let mut entries: Vec<(Cow<'a, str>, Value<'a>)> = Vec::new();
        assert(Object { entries }.model() =~= Seq::empty());
        core::mem::swap(&mut self.entries, &mut entries);
        let previous = if i < entries.len() {
            let replaced = entries.remove(i);
            entries.insert(i, (key, value));
            Some(replaced.1)
        } else {
            entries.push((key, value));
            None
        };
        assert(Object { entries }.model() =~= with_member(
            old(self).model(),
            key@,
            value.model(),
        ));
        core::mem::swap(&mut self.entries, &mut entries);
        previous
    }
}

} // verus!
