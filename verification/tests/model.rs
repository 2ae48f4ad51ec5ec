use docvalue::{DocValue, ToDocValue};

#[test]
fn constructors_make_the_named_variant() {
    assert_eq!(DocValue::str("a"), DocValue::String("a".to_string()));
    assert_eq!(DocValue::string("b".to_string()), DocValue::String("b".to_string()));
    assert_eq!(DocValue::num(3), DocValue::Num(3));
    assert_eq!(DocValue::float(7), DocValue::Float(7));
    assert_eq!(DocValue::object(), DocValue::Object(vec![]));
    assert_eq!(DocValue::vec(), DocValue::Vec(vec![]));
    assert_eq!(DocValue::binary(), DocValue::Binary(vec![]));
    assert_eq!(DocValue::bool(true), DocValue::Bool(true));
}

#[test]
fn conversions_pick_the_variant_by_type() {
    assert_eq!(true.toDocValue(), DocValue::Bool(true));
    assert_eq!("s".toDocValue(), DocValue::str("s"));
    assert_eq!("s".to_string().toDocValue(), DocValue::str("s"));
    assert_eq!(5i64.toDocValue(), DocValue::Num(5));
    assert_eq!(vec![1u8, 2].toDocValue(), DocValue::Binary(vec![1, 2]));
    assert_eq!(().toDocValue(), DocValue::Null);
    assert_eq!(vec![DocValue::Null].toDocValue(), DocValue::Vec(vec![DocValue::Null]));
    assert_eq!(DocValue::num(1).toDocValue(), DocValue::num(1));
    let pairs = vec![
        ("a".to_string(), DocValue::num(1)),
        ("b".to_string(), DocValue::num(2)),
        ("a".to_string(), DocValue::num(3)),
    ];
    assert_eq!(
        pairs.toDocValue(),
        DocValue::Object(vec![
            ("a".to_string(), DocValue::num(3)),
            ("b".to_string(), DocValue::num(2)),
        ])
    );
}

#[test]
fn clone_copies_the_whole_tree() {
    let mut inner = DocValue::vec();
    inner.push("x");
    let mut doc = DocValue::object();
    doc.insert("list", inner);
    doc.insert("bin", vec![1u8]);
    let copy = doc.clone();
    assert_eq!(copy, doc);
    doc.insert("more", ());
    assert_ne!(copy, doc);
}

#[test]
fn push_appends_to_arrays_only() {
    let mut list = DocValue::vec();
    list.push(1i64);
    list.push("two");
    assert_eq!(list, DocValue::Vec(vec![DocValue::num(1), DocValue::str("two")]));
    let mut number = DocValue::num(1);
    number.push(2i64);
    assert_eq!(number, DocValue::num(1));
}

#[test]
fn vec_remove_closes_the_gap() {
    let mut list = DocValue::vec();
    list.push(1i64);
    list.push(2i64);
    list.push(3i64);
    list.vec_remove(1);
    assert_eq!(list, DocValue::Vec(vec![DocValue::num(1), DocValue::num(3)]));
    let mut text = DocValue::str("t");
    text.vec_remove(0);
    assert_eq!(text, DocValue::str("t"));
}

#[test]
fn insert_replaces_an_existing_key_in_place() {
    let mut doc = DocValue::object();
    assert_eq!(doc.insert("a", 1i64), None);
    assert_eq!(doc.insert("b", 2i64), None);
    assert_eq!(doc.insert("a", 3i64), Some(DocValue::num(1)));
    assert_eq!(
        doc.as_object(),
        Some(vec![
            ("a".to_string(), DocValue::num(3)),
            ("b".to_string(), DocValue::num(2)),
        ])
    );
    let mut list = DocValue::vec();
    assert_eq!(list.insert("a", 1i64), None);
    assert_eq!(list, DocValue::vec());
}

#[test]
fn contains_key_answers_for_objects_only() {
    let mut doc = DocValue::object();
    doc.insert("a", ());
    assert_eq!(doc.contains_key("a"), Some(true));
    assert_eq!(doc.contains_key("b"), Some(false));
    assert_eq!(DocValue::Null.contains_key("a"), None);
}

#[test]
fn object_remove_hands_back_the_value() {
    let mut doc = DocValue::object();
    doc.insert("a", 1i64);
    doc.insert("b", 2i64);
    doc.insert("c", 3i64);
    assert_eq!(doc.object_remove("b"), Some(DocValue::num(2)));
    assert_eq!(doc.object_remove("b"), None);
    assert_eq!(
        doc.as_object(),
        Some(vec![
            ("a".to_string(), DocValue::num(1)),
            ("c".to_string(), DocValue::num(3)),
        ])
    );
    assert_eq!(DocValue::num(1).object_remove("a"), None);
}

#[test]
fn object_iter_walks_the_entries_in_order() {
    let mut doc = DocValue::object();
    doc.insert("a", 1i64);
    doc.insert("b", 2i64);
    let mut keys = vec![];
    for entry in doc.object_iter().unwrap() {
        keys.push(entry.0.clone());
    }
    assert_eq!(keys, vec!["a".to_string(), "b".to_string()]);
    assert!(DocValue::vec().object_iter().is_none());
}

#[test]
fn object_iter_mut_changes_values_in_place() {
    let mut doc = DocValue::object();
    doc.insert("a", 1i64);
    doc.insert("b", 2i64);
    for entry in doc.object_iter_mut().unwrap().iter_mut() {
        entry.1 = DocValue::Null;
    }
    assert!(doc.key_is_null("a"));
    assert!(doc.key_is_null("b"));
    assert!(DocValue::Null.object_iter_mut().is_none());
}

#[test]
fn update_path_sets_a_key_one_level_down() {
    let mut doc = DocValue::object();
    doc.insert("x", DocValue::object());
    doc.insert("y", DocValue::object());
    doc.insert("n", 1i64);
    assert_eq!(doc.update_path(vec!["x"], "k", DocValue::num(1)), Ok(()));
    assert_eq!(doc.update_path(vec!["x", "y"], "k", DocValue::num(2)), Ok(()));
    let mut x = DocValue::object();
    x.insert("k", 1i64);
    let mut y = DocValue::object();
    y.insert("k", 2i64);
    let mut expected = DocValue::object();
    expected.insert("x", x);
    expected.insert("y", y);
    expected.insert("n", 1i64);
    assert_eq!(doc, expected);
}

#[test]
fn update_path_fails_without_changing_anything() {
    let mut doc = DocValue::object();
    doc.insert("x", DocValue::object());
    doc.insert("n", 1i64);
    let before = doc.clone();
    assert_eq!(doc.update_path(vec![], "k", DocValue::Null), Err(()));
    assert_eq!(doc.update_path(vec!["missing"], "k", DocValue::Null), Err(()));
    assert_eq!(doc.update_path(vec!["n"], "k", DocValue::Null), Err(()));
    assert_eq!(doc.update_path(vec!["x", "n"], "k", DocValue::Null), Err(()));
    assert_eq!(doc.update_path(vec!["n", "x"], "k", DocValue::Null), Err(()));
    assert_eq!(doc, before);
    let mut list = DocValue::vec();
    assert_eq!(list.update_path(vec!["x"], "k", DocValue::Null), Err(()));
}

#[test]
fn updates_change_the_matching_variant_only() {
    let mut text = DocValue::str("a");
    text.update_string("b".to_string());
    text.update_num(1);
    text.update_bool(true);
    assert_eq!(text, DocValue::str("b"));
    let mut number = DocValue::num(1);
    number.update_num(2);
    number.update_string("x".to_string());
    number.update_float(9);
    assert_eq!(number, DocValue::num(2));
    let mut float = DocValue::float(1);
    float.update_float(2.5f64.to_bits());
    assert_eq!(float.as_float().map(f64::from_bits), Some(2.5));
    let mut flag = DocValue::bool(false);
    flag.update_bool(true);
    flag.update_binary(vec![1]);
    assert_eq!(flag, DocValue::bool(true));
    let mut bytes = DocValue::binary();
    bytes.update_binary(vec![7]);
    bytes.update_vec(vec![]);
    assert_eq!(bytes, DocValue::Binary(vec![7]));
    let mut list = DocValue::vec();
    list.update_vec(vec![DocValue::Null]);
    list.update_object("k", DocValue::Null);
    assert_eq!(list, DocValue::Vec(vec![DocValue::Null]));
    let mut object = DocValue::object();
    object.update_object("k", DocValue::num(1));
    object.update_object("k", DocValue::num(2));
    object.update_vec(vec![]);
    assert_eq!(object, DocValue::Object(vec![("k".to_string(), DocValue::num(2))]));
}

#[test]
fn extractors_answer_for_the_matching_variant_only() {
    let doc = DocValue::num(4);
    assert_eq!(doc.as_num(), Some(4));
    assert_eq!(doc.as_float(), None);
    assert_eq!(doc.as_string(), None);
    assert_eq!(doc.as_bool(), None);
    assert_eq!(doc.as_binary(), None);
    assert_eq!(doc.as_vec(), None);
    assert_eq!(doc.as_object(), None);
    assert_eq!(DocValue::str("s").as_string(), Some("s".to_string()));
    assert_eq!(DocValue::bool(true).as_bool(), Some(true));
    assert_eq!(DocValue::Binary(vec![1]).as_binary(), Some(vec![1]));
    assert_eq!(DocValue::float(5).as_float(), Some(5));
    assert_eq!(DocValue::vec().as_vec(), Some(vec![]));
    assert_eq!(DocValue::object().as_object(), Some(vec![]));
}

#[test]
fn self_is_names_the_variant() {
    let all = vec![
        DocValue::object(),
        DocValue::vec(),
        DocValue::binary(),
        DocValue::str(""),
        DocValue::num(0),
        DocValue::float(0),
        DocValue::bool(false),
        DocValue::Null,
    ];
    for (i, doc) in all.iter().enumerate() {
        let answers = vec![
            doc.self_is_object(),
            doc.self_is_vec(),
            doc.self_is_binary(),
            doc.self_is_string(),
            doc.self_is_num(),
            doc.self_is_float(),
            doc.self_is_bool(),
            doc.self_is_null(),
        ];
        for (j, answer) in answers.iter().enumerate() {
            assert_eq!(*answer, i == j);
        }
    }
}

#[test]
fn key_checks_look_one_level_down() {
    let mut doc = DocValue::object();
    doc.insert("o", DocValue::object());
    doc.insert("v", DocValue::vec());
    doc.insert("b", vec![1u8]);
    doc.insert("s", "text");
    doc.insert("n", 1i64);
    doc.insert("f", DocValue::float(1));
    doc.insert("t", true);
    doc.insert("z", ());
    assert!(doc.key_is_object("o") && !doc.key_is_object("v"));
    assert!(doc.key_is_vec("v") && !doc.key_is_vec("o"));
    assert!(doc.key_is_binary("b") && !doc.key_is_binary("s"));
    assert!(doc.key_is_string("s") && !doc.key_is_string("b"));
    assert!(doc.key_is_num("n") && !doc.key_is_num("f"));
    assert!(doc.key_is_float("f") && !doc.key_is_float("n"));
    assert!(doc.key_is_bool("t") && !doc.key_is_bool("z"));
    assert!(doc.key_is_null("z") && !doc.key_is_null("t"));
    assert!(!doc.key_is_null("missing"));
    assert!(!DocValue::Null.key_is_null("z"));
}
