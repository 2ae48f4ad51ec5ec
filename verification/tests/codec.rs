use docvalue::{DecodeError, DocValue};

fn int_line(n: u8) -> Vec<u8> {
    vec![4, 0, 0, 0, 0, 0, 0, 0, 8, 0, 0, 0, 0, 0, 0, 0, n]
}

fn sample_tree() -> DocValue {
    let mut scores = DocValue::vec();
    scores.push(15i64);
    scores.push(());
    scores.push(false);
    scores.push(DocValue::float(12.5f64.to_bits()));
    let mut game = DocValue::object();
    game.insert("scores", scores);
    game.insert("game", "cricket");
    let mut person = DocValue::object();
    person.insert("name", "akku");
    person.insert("bin", vec![1u8, 2, 3]);
    person.insert("king", true);
    person.insert("network", ());
    person.insert("sports", game);
    person
}

#[test]
fn object_with_one_integer_round_trips() {
    let mut doc = DocValue::object();
    doc.insert("a", 1i64);
    let bytes = doc.write();
    assert_eq!(DocValue::read(&bytes), Ok(doc));
}

#[test]
fn object_with_one_integer_has_exact_bytes() {
    let mut doc = DocValue::object();
    doc.insert("a", 1i64);
    let mut expected = vec![0, 0, 0, 0, 0, 0, 0, 0, 27];
    expected.extend_from_slice(&[0, 0, 0, 0, 0, 0, 0, 1, 97]);
    expected.extend_from_slice(&int_line(1));
    expected.push(0);
    assert_eq!(doc.write(), expected);
}

#[test]
fn array_keeps_order_and_types() {
    let mut doc = DocValue::vec();
    doc.push(1i64);
    doc.push(true);
    doc.push(());
    let bytes = doc.write();
    let back = DocValue::read(&bytes).unwrap();
    assert_eq!(
        back.as_vec(),
        Some(vec![DocValue::Num(1), DocValue::Bool(true), DocValue::Null])
    );
    assert_eq!(back, doc);
}

#[test]
fn array_has_exact_bytes() {
    let mut doc = DocValue::vec();
    doc.push(1i64);
    doc.push(true);
    let mut expected = vec![1, 0, 0, 0, 0, 0, 0, 0, 29];
    expected.extend_from_slice(&int_line(1));
    expected.push(1);
    expected.extend_from_slice(&[6, 0, 0, 0, 0, 0, 0, 0, 1, 1]);
    expected.push(0);
    assert_eq!(doc.write(), expected);
}

#[test]
fn three_levels_round_trip() {
    let mut inner = DocValue::vec();
    inner.push("z");
    let mut middle = DocValue::object();
    middle.insert("y", inner);
    let mut outer = DocValue::object();
    outer.insert("x", middle);
    let bytes = outer.write();
    let back = DocValue::read(&bytes).unwrap();
    assert_eq!(back, outer);
    assert!(back.key_is_object("x"));
    let middle_back = back.as_object().unwrap().remove(0).1;
    assert!(middle_back.key_is_vec("y"));
    let inner_back = middle_back.as_object().unwrap().remove(0).1;
    assert_eq!(inner_back.as_vec(), Some(vec![DocValue::str("z")]));
}

#[test]
fn truncating_the_final_byte_fails() {
    let mut bytes = sample_tree().write();
    bytes.pop();
    assert_eq!(DocValue::read(&bytes), Err(DecodeError::Truncated));
}

#[test]
fn every_proper_prefix_is_truncated() {
    let bytes = sample_tree().write();
    for n in 0..bytes.len() {
        let cut = bytes[..n].to_vec();
        assert_eq!(DocValue::read(&cut), Err(DecodeError::Truncated));
    }
}

#[test]
fn multi_byte_text_round_trips() {
    let doc = DocValue::str("café");
    let bytes = doc.write();
    assert_eq!(bytes.len(), 9 + 5);
    assert_eq!(&bytes[9..], "café".as_bytes());
    let back = DocValue::read(&bytes).unwrap();
    assert_eq!(back.as_string(), Some("café".to_string()));
}

#[test]
fn sample_tree_round_trips() {
    let doc = sample_tree();
    assert_eq!(DocValue::read(&doc.write()), Ok(doc));
}

#[test]
fn outer_length_is_buffer_length_minus_nine() {
    let docs = vec![
        sample_tree(),
        DocValue::Null,
        DocValue::str(""),
        DocValue::object(),
        DocValue::num(-7),
    ];
    for doc in docs {
        let bytes = doc.write();
        let mut field = [0u8; 8];
        field.copy_from_slice(&bytes[1..9]);
        assert_eq!(u64::from_be_bytes(field), bytes.len() as u64 - 9);
    }
}

#[test]
fn scalars_have_exact_payloads() {
    assert_eq!(DocValue::Null.write(), vec![7, 0, 0, 0, 0, 0, 0, 0, 1, 0]);
    assert_eq!(DocValue::bool(true).write(), vec![6, 0, 0, 0, 0, 0, 0, 0, 1, 1]);
    assert_eq!(DocValue::bool(false).write(), vec![6, 0, 0, 0, 0, 0, 0, 0, 1, 0]);
    assert_eq!(
        DocValue::num(-2).write(),
        vec![4, 0, 0, 0, 0, 0, 0, 0, 8, 255, 255, 255, 255, 255, 255, 255, 254]
    );
    assert_eq!(
        DocValue::Binary(vec![9, 8]).write(),
        vec![2, 0, 0, 0, 0, 0, 0, 0, 2, 9, 8]
    );
    assert_eq!(DocValue::str("hi").write(), vec![3, 0, 0, 0, 0, 0, 0, 0, 2, 104, 105]);
}

#[test]
fn float_payload_is_the_bits_of_the_double() {
    let pi = std::f64::consts::PI;
    let bytes = DocValue::float(pi.to_bits()).write();
    assert_eq!(
        bytes,
        vec![5, 0, 0, 0, 0, 0, 0, 0, 8, 0x40, 0x09, 0x21, 0xfb, 0x54, 0x44, 0x2d, 0x18]
    );
    let back = DocValue::read(&bytes).unwrap();
    assert_eq!(f64::from_bits(back.as_float().unwrap()), pi);
}

#[test]
fn nan_round_trips_bit_for_bit() {
    let bits = 0x7ff8_0000_0000_1234u64;
    let doc = DocValue::float(bits);
    let back = DocValue::read(&doc.write()).unwrap();
    assert_eq!(back.as_float(), Some(bits));
    assert!(f64::from_bits(back.as_float().unwrap()).is_nan());
}

#[test]
fn empty_text_and_empty_binary_round_trip() {
    assert_eq!(DocValue::read(&DocValue::str("").write()), Ok(DocValue::str("")));
    assert_eq!(DocValue::read(&DocValue::binary().write()), Ok(DocValue::binary()));
}

#[test]
fn empty_containers_do_not_decode() {
    let object = DocValue::object().write();
    assert_eq!(object, vec![0, 0, 0, 0, 0, 0, 0, 0, 0]);
    assert_eq!(DocValue::read(&object), Err(DecodeError::Truncated));
    let array = DocValue::vec().write();
    assert_eq!(array, vec![1, 0, 0, 0, 0, 0, 0, 0, 0]);
    assert_eq!(DocValue::read(&array), Err(DecodeError::Truncated));
    let mut outer = DocValue::vec();
    outer.push(DocValue::object());
    outer.push(1i64);
    assert_eq!(DocValue::read(&outer.write()), Err(DecodeError::Truncated));
}

#[test]
fn empty_buffer_is_truncated() {
    assert_eq!(DocValue::read(&vec![]), Err(DecodeError::Truncated));
}

#[test]
fn changed_continuation_byte_fails() {
    let mut doc = DocValue::vec();
    doc.push(1i64);
    doc.push(2i64);
    let bytes = doc.write();
    // entries of 17 + 1 bytes each, after the nine bytes of the header
    let first = 9 + 17;
    let second = first + 1 + 17;
    assert_eq!(bytes[first], 1);
    assert_eq!(bytes[second], 0);
    assert_eq!(second + 1, bytes.len());
    for position in [first, second] {
        for value in [2u8, 3, 7, 128, 255] {
            let mut changed = bytes.clone();
            changed[position] = value;
            assert_eq!(DocValue::read(&changed), Err(DecodeError::InvalidContinuation));
        }
    }
}

#[test]
fn changed_continuation_byte_in_nested_object_fails() {
    let mut inner = DocValue::object();
    inner.insert("k", ());
    let mut outer = DocValue::vec();
    outer.push(inner);
    let bytes = outer.write();
    // the byte after the entry of the inner object is the last but one
    let position = bytes.len() - 2;
    assert_eq!(bytes[position], 0);
    let mut changed = bytes.clone();
    changed[position] = 9;
    assert_eq!(DocValue::read(&changed), Err(DecodeError::InvalidContinuation));
}

#[test]
fn boolean_payload_is_exactly_zero_or_one() {
    assert_eq!(
        DocValue::read(&vec![6, 0, 0, 0, 0, 0, 0, 0, 1, 0]),
        Ok(DocValue::Bool(false))
    );
    assert_eq!(
        DocValue::read(&vec![6, 0, 0, 0, 0, 0, 0, 0, 1, 1]),
        Ok(DocValue::Bool(true))
    );
    assert_eq!(
        DocValue::read(&vec![6, 0, 0, 0, 0, 0, 0, 0, 1, 2]),
        Err(DecodeError::InvalidBool)
    );
    assert_eq!(
        DocValue::read(&vec![6, 0, 0, 0, 0, 0, 0, 0, 0]),
        Err(DecodeError::InvalidBool)
    );
    assert_eq!(
        DocValue::read(&vec![6, 0, 0, 0, 0, 0, 0, 0, 2, 1, 0]),
        Err(DecodeError::InvalidBool)
    );
}

#[test]
fn null_payload_is_exactly_zero() {
    assert_eq!(DocValue::read(&vec![7, 0, 0, 0, 0, 0, 0, 0, 1, 0]), Ok(DocValue::Null));
    assert_eq!(
        DocValue::read(&vec![7, 0, 0, 0, 0, 0, 0, 0, 1, 1]),
        Err(DecodeError::InvalidNull)
    );
    assert_eq!(
        DocValue::read(&vec![7, 0, 0, 0, 0, 0, 0, 0, 0]),
        Err(DecodeError::InvalidNull)
    );
    assert_eq!(
        DocValue::read(&vec![7, 0, 0, 0, 0, 0, 0, 0, 2, 0, 0]),
        Err(DecodeError::InvalidNull)
    );
}

#[test]
fn unknown_tag_is_refused() {
    assert_eq!(
        DocValue::read(&vec![8, 0, 0, 0, 0, 0, 0, 0, 1, 0]),
        Err(DecodeError::UnknownTag)
    );
    assert_eq!(
        DocValue::read(&vec![255, 0, 0, 0, 0, 0, 0, 0, 0]),
        Err(DecodeError::UnknownTag)
    );
}

#[test]
fn invalid_utf8_is_refused() {
    assert_eq!(
        DocValue::read(&vec![3, 0, 0, 0, 0, 0, 0, 0, 2, 0xc3, 0x28]),
        Err(DecodeError::InvalidUtf8)
    );
    // an object whose key is not UTF-8
    let mut bytes = vec![0, 0, 0, 0, 0, 0, 0, 0, 20];
    bytes.extend_from_slice(&[0, 0, 0, 0, 0, 0, 0, 1, 0xff]);
    bytes.extend_from_slice(&[7, 0, 0, 0, 0, 0, 0, 0, 1, 0]);
    bytes.push(0);
    assert_eq!(DocValue::read(&bytes), Err(DecodeError::InvalidUtf8));
}

#[test]
fn short_integer_payload_is_truncated() {
    assert_eq!(
        DocValue::read(&vec![4, 0, 0, 0, 0, 0, 0, 0, 3, 1, 2, 3]),
        Err(DecodeError::Truncated)
    );
    assert_eq!(
        DocValue::read(&vec![5, 0, 0, 0, 0, 0, 0, 0, 0]),
        Err(DecodeError::Truncated)
    );
}

#[test]
fn long_integer_payload_is_read_from_its_first_eight_bytes() {
    let bytes = vec![4, 0, 0, 0, 0, 0, 0, 0, 9, 0, 0, 0, 0, 0, 0, 0, 5, 77];
    assert_eq!(DocValue::read(&bytes), Ok(DocValue::Num(5)));
}

#[test]
fn bytes_after_the_data_line_are_ignored() {
    let mut bytes = DocValue::num(3).write();
    bytes.extend_from_slice(&[1, 2, 3]);
    assert_eq!(DocValue::read(&bytes), Ok(DocValue::Num(3)));
}

#[test]
fn length_beyond_the_buffer_is_truncated() {
    assert_eq!(
        DocValue::read(&vec![2, 0, 0, 0, 0, 0, 0, 0, 5, 1, 2]),
        Err(DecodeError::Truncated)
    );
    assert_eq!(
        DocValue::read(&vec![2, 255, 255, 255, 255, 255, 255, 255, 255, 1, 2]),
        Err(DecodeError::Truncated)
    );
}

#[test]
fn entries_are_read_past_the_length_of_their_payload() {
    // an array whose payload is said to be 5 bytes long, and whose only
    // entry takes 11
    let bytes = vec![1, 0, 0, 0, 0, 0, 0, 0, 5, 7, 0, 0, 0, 0, 0, 0, 0, 1, 0, 0];
    assert_eq!(DocValue::read(&bytes), Ok(DocValue::Vec(vec![DocValue::Null])));
    // the same with no payload at all by its length
    let bytes = vec![1, 0, 0, 0, 0, 0, 0, 0, 0, 7, 0, 0, 0, 0, 0, 0, 0, 1, 0, 0];
    assert_eq!(DocValue::read(&bytes), Ok(DocValue::Vec(vec![DocValue::Null])));
}

#[test]
fn array_of_one_null_has_exact_bytes() {
    let mut doc = DocValue::vec();
    doc.push(());
    assert_eq!(
        doc.write(),
        vec![1, 0, 0, 0, 0, 0, 0, 0, 11, 7, 0, 0, 0, 0, 0, 0, 0, 1, 0, 0]
    );
}

#[test]
fn object_of_one_null_has_exact_bytes() {
    let mut doc = DocValue::object();
    doc.insert("k", ());
    assert_eq!(
        doc.write(),
        vec![
            0, 0, 0, 0, 0, 0, 0, 0, 20, 0, 0, 0, 0, 0, 0, 0, 1, 107, 7, 0, 0, 0, 0, 0, 0, 0, 1,
            0, 0
        ]
    );
}

#[test]
fn later_value_wins_for_a_repeated_key() {
    let mut bytes = vec![0, 0, 0, 0, 0, 0, 0, 0, 54];
    for (n, last) in [(1u8, 1u8), (2, 0)] {
        bytes.extend_from_slice(&[0, 0, 0, 0, 0, 0, 0, 1, 97]);
        bytes.extend_from_slice(&int_line(n));
        bytes.push(last);
    }
    let mut expected = DocValue::object();
    expected.insert("a", 2i64);
    assert_eq!(DocValue::read(&bytes), Ok(expected));
}

#[test]
fn missing_continuation_byte_is_truncated() {
    let mut bytes = vec![1, 0, 0, 0, 0, 0, 0, 0, 17];
    bytes.extend_from_slice(&int_line(1));
    assert_eq!(DocValue::read(&bytes), Err(DecodeError::Truncated));
}

#[test]
fn decoded_document_round_trips_even_where_the_buffer_does_not() {
    // a repeated key, a long integer payload and bytes after the data line
    let mut bytes = vec![0, 0, 0, 0, 0, 0, 0, 0, 55];
    bytes.extend_from_slice(&[0, 0, 0, 0, 0, 0, 0, 1, 97]);
    bytes.extend_from_slice(&int_line(1));
    bytes.push(1);
    bytes.extend_from_slice(&[0, 0, 0, 0, 0, 0, 0, 1, 97]);
    bytes.extend_from_slice(&[4, 0, 0, 0, 0, 0, 0, 0, 9, 0, 0, 0, 0, 0, 0, 0, 2, 99]);
    bytes.push(0);
    bytes.extend_from_slice(&[5, 5, 5]);
    let doc = DocValue::read(&bytes).unwrap();
    let again = doc.write();
    assert!(again.len() < bytes.len());
    assert_eq!(DocValue::read(&again), Ok(doc));
}

#[test]
fn this_tree_with_an_empty_container_inside_does_not_decode() {
    let mut inner = DocValue::object();
    inner.insert("list", DocValue::vec());
    let mut outer = DocValue::vec();
    outer.push(1i64);
    outer.push(inner);
    outer.push(2i64);
    assert!(DocValue::read(&outer.write()).is_err());
}
