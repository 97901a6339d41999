use depmine::doc::Doc;
use depmine::fd::discover;
use depmine::fdcollect::FdState;
use depmine::pairs::{index, reverse_index};

fn scalar(s: &str) -> Doc {
    Doc::Scalar(s.to_string())
}

fn obj(entries: Vec<(&str, Doc)>) -> Doc {
    Doc::Object(entries.into_iter().map(|(k, v)| (k.to_string(), v)).collect())
}

fn collect_fd(docs: &Vec<Doc>) -> FdState {
    let mut st = FdState::new();
    for (i, d) in docs.iter().enumerate() {
        st.collect_values(i as u32, &String::new(), d);
    }
    st
}

#[test]
fn fd_trivial_bijection() {
    let docs = vec![
        obj(vec![("a", scalar("1")), ("b", scalar("1"))]),
        obj(vec![("a", scalar("2")), ("b", scalar("2"))]),
        obj(vec![("a", scalar("3")), ("b", scalar("3"))]),
    ];
    let st = collect_fd(&docs);
    let deps = discover(&st, 3);
    assert!(deps.contains(&(vec!["a".to_string()], "b".to_string())));
    assert!(deps.contains(&(vec!["b".to_string()], "a".to_string())));
}

#[test]
fn fd_one_violation_rejected_at_one_percent() {
    let mut docs = Vec::new();
    for _ in 0..100 {
        docs.push(obj(vec![("a", scalar("1")), ("b", scalar("1"))]));
    }
    docs.push(obj(vec![("a", scalar("1")), ("b", scalar("2"))]));
    let st = collect_fd(&docs);
    let deps = discover(&st, 101);
    assert!(!deps.contains(&(vec!["a".to_string()], "b".to_string())));
}

#[test]
fn fd_constant_paths_are_eliminated() {
    let docs = vec![
        obj(vec![("x", scalar("7")), ("y", scalar("1"))]),
        obj(vec![("x", scalar("7")), ("y", scalar("2"))]),
    ];
    let st = collect_fd(&docs);
    let deps = discover(&st, 2);
    assert!(deps.is_empty());
}

#[test]
fn fd_single_document_emits_nothing() {
    let docs = vec![obj(vec![("a", scalar("1")), ("b", scalar("1"))])];
    let st = collect_fd(&docs);
    let deps = discover(&st, 1);
    assert!(deps.is_empty());
}

#[test]
fn fd_array_marker_collapses_elements() {
    let docs = vec![obj(vec![("a", Doc::Array(vec![scalar("1"), scalar("2")]))])];
    let st = collect_fd(&docs);
    let k = st.find_rec(&"a[]".to_string()).unwrap();
    assert_eq!(st.group_count(k), 2);
    assert!(!st.constant_at(k));
}

#[test]
fn pair_index_round_trip() {
    assert_eq!(index(0, 1), 0);
    assert_eq!(index(1, 0), 0);
    assert_eq!(index(1, 2), 2);
    assert_eq!(index(0, 4), 6);
    assert_eq!(reverse_index(0), (0, 1));
    assert_eq!(reverse_index(5), (2, 3));
    for t in 0..50u32 {
        let (i, j) = reverse_index(t);
        assert!(i < j);
        assert_eq!(index(i, j), t);
    }
}

#[test]
fn fd_composite_left_hand_side() {
    let docs = vec![
        obj(vec![("a", scalar("1")), ("b", scalar("1")), ("c", scalar("1"))]),
        obj(vec![("a", scalar("1")), ("b", scalar("2")), ("c", scalar("2"))]),
        obj(vec![("a", scalar("2")), ("b", scalar("1")), ("c", scalar("3"))]),
        obj(vec![("a", scalar("2")), ("b", scalar("2")), ("c", scalar("4"))]),
    ];
    let st = collect_fd(&docs);
    let deps = discover(&st, 4);
    // c is a key: it determines both other paths.
    assert!(deps.contains(&(vec!["c".to_string()], "a".to_string())));
    assert!(deps.contains(&(vec!["c".to_string()], "b".to_string())));
    // a and b only jointly determine c.
    assert!(deps.contains(&(vec!["a".to_string(), "b".to_string()], "c".to_string())));
    assert!(!deps.contains(&(vec!["a".to_string()], "c".to_string())));
    assert!(!deps.contains(&(vec!["b".to_string()], "c".to_string())));
    assert!(!deps.contains(&(vec!["a".to_string()], "b".to_string())));
}
