use depmine::collect::IndState;
use depmine::doc::Doc;
use depmine::intern::Interner;

fn scalar(s: &str) -> Doc {
    Doc::Scalar(s.to_string())
}

fn obj(entries: Vec<(&str, Doc)>) -> Doc {
    Doc::Object(entries.into_iter().map(|(k, v)| (k.to_string(), v)).collect())
}

#[test]
fn it_collects_object_values() {
    let o = obj(vec![("a", scalar("3"))]);
    let mut values = IndState::new();
    values.collect_values(&String::new(), &o);
    let k = values.find_path(&"a".to_string()).unwrap();
    assert!(values.bitmap_at(k).contains(0));
    assert!(values.has_value(&"3".to_string()));
}

#[test]
fn it_collects_nested_object_values() {
    let o = obj(vec![("a", obj(vec![("b", scalar("3"))]))]);
    let mut values = IndState::new();
    values.collect_values(&String::new(), &o);
    let k = values.find_path(&"a.b".to_string()).unwrap();
    assert!(values.bitmap_at(k).contains(0));
    assert!(values.has_value(&"3".to_string()));
}

#[test]
fn it_collects_array_values() {
    let o = Doc::Array(vec![scalar("3"), scalar("4")]);
    let mut values = IndState::new();
    values.collect_values(&String::new(), &o);
    let k = values.find_path(&"[*]".to_string()).unwrap();
    assert!(values.bitmap_at(k).contains(0));
    assert!(values.bitmap_at(k).contains(1));
    assert!(values.has_value(&"3".to_string()));
    assert!(values.has_value(&"4".to_string()));
}

#[test]
fn it_ignores_null_and_empty_scalars() {
    let o = obj(vec![("a", Doc::Null), ("b", scalar("")), ("c", scalar("1"))]);
    let mut values = IndState::new();
    values.collect_values(&String::new(), &o);
    assert!(values.find_path(&"a".to_string()).is_none());
    assert!(values.find_path(&"b".to_string()).is_none());
    assert!(values.find_path(&"c".to_string()).is_some());
    assert_eq!(values.path_count(), 1);
}

#[test]
fn interning_round_trip() {
    let mut interner = Interner::new();
    let s = "hello".to_string();
    let i1 = interner.intern(&s);
    let i2 = interner.intern(&"hello".to_string());
    assert_eq!(i1, i2);
    assert_eq!(interner.lookup(i1), &s);
    let t = "world".to_string();
    let j = interner.intern(&t);
    assert_ne!(i1, j);
    assert_eq!(interner.lookup(j), &t);
    assert_eq!(interner.len(), 2);
}

#[test]
fn interning_assigns_dense_indices_in_order() {
    let mut interner = Interner::new();
    assert_eq!(interner.intern(&"x".to_string()), 0);
    assert_eq!(interner.intern(&"y".to_string()), 1);
    assert_eq!(interner.intern(&"x".to_string()), 0);
    assert_eq!(interner.intern(&"z".to_string()), 2);
}
