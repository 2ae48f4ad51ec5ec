use docvalue::writer::{
    data_line, process_binary, process_bool, process_float, process_null, process_num,
    process_object, process_string, process_vec,
};
use docvalue::DocValue;

#[test]
fn data_line_prefixes_tag_and_length() {
    assert_eq!(data_line(2, vec![]), vec![2, 0, 0, 0, 0, 0, 0, 0, 0]);
    assert_eq!(data_line(9, vec![5, 6, 7]), vec![9, 0, 0, 0, 0, 0, 0, 0, 3, 5, 6, 7]);
    let long = vec![1u8; 300];
    let line = data_line(2, long.clone());
    assert_eq!(&line[..9], &[2, 0, 0, 0, 0, 0, 0, 1, 44]);
    assert_eq!(&line[9..], &long[..]);
}

#[test]
fn each_kind_is_framed_under_its_tag() {
    assert_eq!(process_binary(&DocValue::Binary(vec![1]))[0], 2);
    assert_eq!(process_string(&DocValue::str("a"))[0], 3);
    assert_eq!(process_num(&DocValue::num(1))[0], 4);
    assert_eq!(process_float(&DocValue::float(1))[0], 5);
    assert_eq!(process_bool(&DocValue::bool(true))[0], 6);
    assert_eq!(process_null(&DocValue::Null)[0], 7);
    assert_eq!(process_object(&DocValue::object())[0], 0);
    assert_eq!(process_vec(&DocValue::vec())[0], 1);
}

#[test]
fn process_null_ignores_its_argument() {
    assert_eq!(process_null(&DocValue::num(5)), vec![7, 0, 0, 0, 0, 0, 0, 0, 1, 0]);
}

#[test]
fn write_agrees_with_the_method() {
    let mut doc = DocValue::object();
    doc.insert("k", "v");
    assert_eq!(docvalue::writer::write(&doc), doc.write());
}

#[test]
fn object_entries_are_written_in_insertion_order() {
    let mut doc = DocValue::object();
    doc.insert("b", ());
    doc.insert("a", ());
    let bytes = process_object(&doc);
    // first key at offset 9 + 8, second one entry of 8 + 1 + 10 + 1 bytes later
    assert_eq!(bytes[17], b'b');
    assert_eq!(bytes[17 + 20], b'a');
    assert_eq!(bytes[17 + 1 + 10], 1);
    assert_eq!(bytes[bytes.len() - 1], 0);
}
