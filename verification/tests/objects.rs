use gron::order::comes_before;
use gron::value::{Object, Value};

fn keys_of(object: &Object) -> Vec<String> {
    (0..object.len()).map(|i| object.entry(i).0.to_string()).collect()
}

fn integer_at(object: &Object, i: usize) -> i128 {
    match object.entry(i).1 {
        Value::Integer(n) => *n,
        other => panic!("not an integer: {:?}", other),
    }
}

#[test]
fn order_of_keys() {
    assert!(comes_before(b"a", b"b"));
    assert!(!comes_before(b"b", b"a"));
    assert!(comes_before(b"a", b"ab"));
    assert!(!comes_before(b"ab", b"a"));
    assert!(comes_before(b"", b"a"));
    assert!(!comes_before(b"a", b""));
    assert!(comes_before(b"Z", b"a"));
    assert!(comes_before(b"a1", b"a2"));
    assert!(comes_before(b"10", b"9"));
    assert!(comes_before(b"abc\x7f", b"abc\x80"));
}

#[test]
fn no_key_comes_before_itself() {
    assert!(!comes_before(b"", b""));
    assert!(!comes_before(b"a", b"a"));
    assert!(!comes_before(b"same key", b"same key"));
}

#[test]
fn order_of_keys_agrees_with_the_order_of_strings() {
    let keys = ["", "a", "b", "ab", "ba", "A", "\u{e9}", "\u{4e16}", "z", "a\u{0}", "\u{10ffff}"];
    for a in keys.iter() {
        for b in keys.iter() {
            assert_eq!(comes_before(a.as_bytes(), b.as_bytes()), a < b);
        }
    }
}

#[test]
fn a_new_object_is_empty() {
    let object = Object::new();
    assert_eq!(object.len(), 0);
}

#[test]
fn entries_are_kept_in_ascending_order_of_keys() {
    let mut object = Object::new();
    for (i, key) in ["m", "z", "a", "mm", "b", ""].iter().enumerate() {
        assert!(object.insert(key.to_string(), Value::Integer(i as i128)).is_none());
    }
    assert_eq!(keys_of(&object), vec!["", "a", "b", "m", "mm", "z"]);
    assert_eq!(integer_at(&object, 0), 5);
    assert_eq!(integer_at(&object, 1), 2);
    assert_eq!(integer_at(&object, 2), 4);
    assert_eq!(integer_at(&object, 3), 0);
    assert_eq!(integer_at(&object, 4), 3);
    assert_eq!(integer_at(&object, 5), 1);
}

#[test]
fn a_key_given_again_takes_the_new_value() {
    let mut object = Object::new();
    assert!(object.insert("k".to_string(), Value::Integer(1)).is_none());
    assert!(object.insert("j".to_string(), Value::Integer(2)).is_none());
    let previous = object.insert("k".to_string(), Value::Integer(3));
    assert!(matches!(previous, Some(Value::Integer(1))));
    assert_eq!(object.len(), 2);
    assert_eq!(keys_of(&object), vec!["j", "k"]);
    assert_eq!(integer_at(&object, 0), 2);
    assert_eq!(integer_at(&object, 1), 3);
    let previous = object.insert("j".to_string(), Value::Null);
    assert!(matches!(previous, Some(Value::Integer(2))));
    assert_eq!(object.len(), 2);
    assert!(matches!(object.entry(0).1, Value::Null));
}

#[test]
fn keys_in_ascending_and_in_descending_order() {
    let mut up = Object::new();
    let mut down = Object::new();
    for i in 0..50 {
        up.insert(format!("k{:02}", i), Value::Integer(i));
        down.insert(format!("k{:02}", 49 - i), Value::Integer(49 - i));
    }
    assert_eq!(keys_of(&up), keys_of(&down));
    for i in 0..50 {
        assert_eq!(keys_of(&up)[i], format!("k{:02}", i));
        assert_eq!(integer_at(&up, i), i as i128);
        assert_eq!(integer_at(&down, i), i as i128);
    }
}
