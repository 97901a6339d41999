use depmine::doc::Doc;
use depmine::flatten::flatten_json;

fn scalar(s: &str) -> Doc {
    Doc::Scalar(s.to_string())
}

fn obj(entries: Vec<(&str, Doc)>) -> Doc {
    Doc::Object(entries.into_iter().map(|(k, v)| (k.to_string(), v)).collect())
}

fn rec_pairs(d: &Doc) -> Vec<(String, String)> {
    match d {
        Doc::Object(entries) => entries
            .iter()
            .map(|(k, v)| {
                let text = match v {
                    Doc::Scalar(s) => s.clone(),
                    Doc::Null => "null".to_string(),
                    _ => panic!("flat record holds a non-leaf value"),
                };
                (k.clone(), text)
            })
            .collect(),
        _ => panic!("flat record is not an object"),
    }
}

#[test]
fn flatten_cartesian_product_of_two_arrays() {
    let d = obj(vec![
        ("a", Doc::Array(vec![scalar("1"), scalar("2")])),
        ("b", Doc::Array(vec![scalar("3"), scalar("4")])),
    ]);
    let recs = flatten_json(&d);
    assert_eq!(recs.len(), 4);
    let expected = vec![
        vec![("a[*]".to_string(), "1".to_string()), ("b[*]".to_string(), "3".to_string())],
        vec![("a[*]".to_string(), "1".to_string()), ("b[*]".to_string(), "4".to_string())],
        vec![("a[*]".to_string(), "2".to_string()), ("b[*]".to_string(), "3".to_string())],
        vec![("a[*]".to_string(), "2".to_string()), ("b[*]".to_string(), "4".to_string())],
    ];
    let got: Vec<Vec<(String, String)>> = recs.iter().map(rec_pairs).collect();
    assert_eq!(got, expected);
}

#[test]
fn flatten_scalar_gives_one_record() {
    let recs = flatten_json(&scalar("5"));
    assert_eq!(recs.len(), 1);
    assert_eq!(rec_pairs(&recs[0]), vec![("".to_string(), "5".to_string())]);
}

#[test]
fn flatten_null_gives_one_null_record() {
    let recs = flatten_json(&Doc::Null);
    assert_eq!(recs.len(), 1);
    assert_eq!(rec_pairs(&recs[0]), vec![("".to_string(), "null".to_string())]);
}

#[test]
fn flatten_empty_object_and_array_give_sentinel() {
    let recs = flatten_json(&obj(vec![("a", Doc::Object(vec![]))]));
    assert_eq!(recs.len(), 1);
    assert_eq!(rec_pairs(&recs[0]), vec![("a".to_string(), "".to_string())]);
    let recs2 = flatten_json(&obj(vec![("a", Doc::Array(vec![]))]));
    assert_eq!(recs2.len(), 1);
    assert_eq!(rec_pairs(&recs2[0]), vec![("a".to_string(), "".to_string())]);
}

#[test]
fn flatten_array_elements_multiply_records() {
    let d = obj(vec![
        ("a", Doc::Array(vec![scalar("1"), scalar("2"), scalar("3")])),
        ("b", scalar("9")),
    ]);
    let recs = flatten_json(&d);
    assert_eq!(recs.len(), 3);
    for (i, r) in recs.iter().enumerate() {
        let pairs = rec_pairs(r);
        assert_eq!(pairs[0], ("a[*]".to_string(), (i + 1).to_string()));
        assert_eq!(pairs[1], ("b".to_string(), "9".to_string()));
    }
}

#[test]
fn flatten_merge_overrides_duplicate_paths() {
    // Two sibling arrays that emit the same path: later keys override.
    let d = obj(vec![
        ("a", Doc::Array(vec![obj(vec![("k", scalar("1"))])])),
        ("a", Doc::Array(vec![obj(vec![("k", scalar("2"))])])),
    ]);
    let recs = flatten_json(&d);
    assert_eq!(recs.len(), 1);
    assert_eq!(rec_pairs(&recs[0]), vec![("a[*].k".to_string(), "2".to_string())]);
}
