use depmine::collect::IndState;
use depmine::doc::Doc;
use depmine::ind::{collect_document, discover, INDArgs};

fn scalar(s: &str) -> Doc {
    Doc::Scalar(s.to_string())
}

fn obj(entries: Vec<(&str, Doc)>) -> Doc {
    Doc::Object(entries.into_iter().map(|(k, v)| (k.to_string(), v)).collect())
}

fn exact_args() -> INDArgs {
    INDArgs { approximate: false, dynamic: true, threshold_num: 9, threshold_den: 10 }
}

fn subset_docs() -> Vec<Doc> {
    vec![
        obj(vec![("p", scalar("1")), ("q", scalar("1"))]),
        obj(vec![("p", scalar("2")), ("q", scalar("2"))]),
        obj(vec![("p", scalar("3")), ("q", scalar("3"))]),
        obj(vec![("q", scalar("4"))]),
    ]
}

fn collect_all(docs: &Vec<Doc>, dynamic: bool) -> IndState {
    let mut st = IndState::new();
    for d in docs {
        assert!(collect_document(&mut st, d, dynamic));
    }
    st
}

#[test]
fn ind_exact_subset_one_direction() {
    let st = collect_all(&subset_docs(), true);
    let pairs = discover(&st, &exact_args());
    let pq = ("p".to_string(), "q".to_string());
    let qp = ("q".to_string(), "p".to_string());
    assert!(pairs.contains(&pq));
    assert!(!pairs.contains(&qp));
}

#[test]
fn ind_approximate_both_directions() {
    let st = collect_all(&subset_docs(), true);
    let args = INDArgs { approximate: true, dynamic: true, threshold_num: 3, threshold_den: 4 };
    let pairs = discover(&st, &args);
    assert!(pairs.contains(&("p".to_string(), "q".to_string())));
    assert!(pairs.contains(&("q".to_string(), "p".to_string())));
}

#[test]
fn ind_equal_value_sets_emit_both_orders() {
    let docs = vec![
        obj(vec![("p", scalar("1")), ("q", scalar("1"))]),
        obj(vec![("p", scalar("2")), ("q", scalar("2"))]),
    ];
    let st = collect_all(&docs, true);
    let pairs = discover(&st, &exact_args());
    assert!(pairs.contains(&("p".to_string(), "q".to_string())));
    assert!(pairs.contains(&("q".to_string(), "p".to_string())));
    assert_eq!(pairs.len(), 2);
}

#[test]
fn ind_no_pairs_for_single_path() {
    let docs = vec![obj(vec![("p", scalar("1"))])];
    let st = collect_all(&docs, true);
    let pairs = discover(&st, &exact_args());
    assert!(pairs.is_empty());
}

#[test]
fn ind_static_mode_flattens_first() {
    let docs = vec![obj(vec![("a", Doc::Array(vec![scalar("1"), scalar("2")]))])];
    let st = collect_all(&docs, false);
    let k = st.find_path(&"a[*]".to_string()).unwrap();
    assert!(st.bitmap_at(k).contains(0));
    assert!(st.bitmap_at(k).contains(1));
}

#[test]
fn ind_approximate_threshold_is_exact_fraction() {
    // values(p) = {1, 2}; values(q) = {1}; overlap fraction from p is 1/2.
    let docs = vec![
        obj(vec![("p", scalar("1")), ("q", scalar("1"))]),
        obj(vec![("p", scalar("2"))]),
    ];
    let st = collect_all(&docs, true);
    let half = INDArgs { approximate: true, dynamic: true, threshold_num: 1, threshold_den: 2 };
    let pairs = discover(&st, &half);
    assert!(pairs.contains(&("p".to_string(), "q".to_string())));
    let above = INDArgs { approximate: true, dynamic: true, threshold_num: 51, threshold_den: 100 };
    let pairs2 = discover(&st, &above);
    assert!(!pairs2.contains(&("p".to_string(), "q".to_string())));
    // q's single value is contained in p's, so (q, p) stays at any threshold.
    assert!(pairs2.contains(&("q".to_string(), "p".to_string())));
}
