use utils::json::value::{same_text, text_of};
use utils::json::{Object, Value};

#[test]
fn a_new_object_is_empty() {
    let members = Object::new();
    assert!(members.is_empty());
    assert_eq!(members.len(), 0);
    assert_eq!(members.get("a"), None);
}

#[test]
fn insert_adds_a_new_key_at_the_end() {
    let mut members = Object::new();
    assert_eq!(members.insert("a".into(), Value::Int(1)), None);
    assert_eq!(members.insert("b".into(), Value::Int(2)), None);
    assert!(!members.is_empty());
    assert_eq!(members.len(), 2);
    assert_eq!(members.key(0), "a");
    assert_eq!(members.value(0), &Value::Int(1));
    assert_eq!(members.key(1), "b");
    assert_eq!(members.value(1), &Value::Int(2));
}

#[test]
fn insert_replaces_the_value_of_a_known_key() {
    let mut members = Object::new();
    members.insert("a".into(), Value::Int(1));
    members.insert("b".into(), Value::Int(2));
    let previous = members.insert(String::from("a").into(), Value::Bool(true));
    assert_eq!(previous, Some(Value::Int(1)));
    assert_eq!(members.len(), 2);
    assert_eq!(members.key(0), "a");
    assert_eq!(members.get("a"), Some(&Value::Bool(true)));
    assert_eq!(members.get("b"), Some(&Value::Int(2)));
    assert_eq!(members.get("c"), None);
    assert_eq!(members.get(""), None);
}

#[test]
fn accessors_tell_the_variants_apart() {
    let s = Value::String("s".into());
    let f = Value::Float("1.5".into());
    let i = Value::Int(3);
    let b = Value::Bool(true);
    let n = Value::Null(());
    let a = Value::Array(vec![Value::Int(1)]);
    let o = Value::Object(Object::new());
    assert_eq!(s.string().map(|t| t.as_ref()), Some("s"));
    assert_eq!(f.float().map(|t| t.as_ref()), Some("1.5"));
    assert_eq!(i.integer(), Some(&3));
    assert_eq!(b.bool(), Some(&true));
    assert_eq!(n.null(), Some(&()));
    assert_eq!(a.array().map(|v| v.len()), Some(1));
    assert!(o.object().unwrap().is_empty());
    assert!(f.string().is_none());
    assert!(s.float().is_none());
    assert!(s.integer().is_none());
    assert!(s.bool().is_none());
    assert!(s.null().is_none());
    assert!(s.array().is_none());
    assert!(s.object().is_none());
}

#[test]
fn texts_are_compared_by_content() {
    assert!(same_text("", ""));
    assert!(same_text("isPrime", "isPrime"));
    assert!(!same_text("isPrime", "isprime"));
    assert!(!same_text("a", "ab"));
    assert!(same_text(text_of(&String::from("h\u{e9}").into()), "h\u{e9}"));
}

#[test]
fn objects_are_equal_whatever_the_order_of_their_members() {
    let mut one = Object::new();
    one.insert("a".into(), Value::Int(1));
    one.insert("b".into(), Value::Array(vec![Value::Null(())]));
    let mut other = Object::new();
    other.insert("b".into(), Value::Array(vec![Value::Null(())]));
    other.insert("a".into(), Value::Int(1));
    assert_eq!(one, other);
    assert!(one.same_as(&other));
    assert_eq!(Value::Object(one), Value::Object(other));
}

#[test]
fn objects_with_other_members_are_not_equal() {
    let mut one = Object::new();
    one.insert("a".into(), Value::Int(1));
    let mut other = Object::new();
    other.insert("a".into(), Value::Int(2));
    assert_ne!(one, other);
    let mut third = Object::new();
    third.insert("b".into(), Value::Int(1));
    assert_ne!(one, third);
    third.insert("a".into(), Value::Int(1));
    assert_ne!(one, third);
    assert_ne!(third, one);
    assert_ne!(one, Object::new());
}

#[test]
fn values_are_compared_by_what_they_hold() {
    assert_eq!(Value::String("a".into()), Value::String(String::from("a").into()));
    assert_ne!(Value::String("1.5".into()), Value::Float("1.5".into()));
    assert_ne!(Value::Int(1), Value::Float("1".into()));
    assert_ne!(Value::Int(0), Value::Bool(false));
    assert_ne!(Value::Null(()), Value::Bool(false));
    assert_eq!(Value::Null(()), Value::Null(()));
    assert_eq!(
        Value::Array(vec![Value::Int(1), Value::Int(2)]),
        Value::Array(vec![Value::Int(1), Value::Int(2)])
    );
    assert_ne!(
        Value::Array(vec![Value::Int(1), Value::Int(2)]),
        Value::Array(vec![Value::Int(2), Value::Int(1)])
    );
    assert_ne!(
        Value::Array(vec![Value::Int(1)]),
        Value::Array(vec![Value::Int(1), Value::Int(1)])
    );
    assert_ne!(Value::Array(Vec::new()), Value::Object(Object::new()));
    assert!(Value::Bool(true).same_as(&Value::Bool(true)));
}
