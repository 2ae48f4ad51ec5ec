use docvalue::reader::{
    bytes_to_string, process_bool, process_data, process_null, read_data_line, Reader, SubReader,
};
use docvalue::{DecodeError, DocValue};

#[test]
fn read_hands_out_bytes_in_order() {
    let data = vec![10, 11, 12, 13, 14];
    let mut global = Reader::new(&data);
    let mut cursor = SubReader::whole(&global);
    assert_eq!(cursor.read(&mut global, 2), Ok(vec![10, 11]));
    assert_eq!(cursor.read(&mut global, 0), Ok(vec![]));
    assert_eq!(cursor.read(&mut global, 3), Ok(vec![12, 13, 14]));
    assert_eq!(cursor.read(&mut global, 1), Err(DecodeError::Truncated));
}

#[test]
fn failed_read_leaves_the_cursor_in_place() {
    let data = vec![1, 2, 3];
    let mut global = Reader::new(&data);
    let mut cursor = SubReader::whole(&global);
    assert_eq!(cursor.read(&mut global, 4), Err(DecodeError::Truncated));
    assert_eq!(cursor.read(&mut global, 3), Ok(vec![1, 2, 3]));
}

#[test]
fn reads_go_on_past_the_window_while_the_buffer_goes_on() {
    let data = vec![1, 2, 3, 4, 5, 6];
    let mut global = Reader::new(&data);
    let mut cursor = SubReader::whole(&global);
    assert_eq!(cursor.read(&mut global, 1), Ok(vec![1]));
    let mut window = cursor.sub(&mut global, 3).unwrap();
    assert_eq!(window.read(&mut global, 2), Ok(vec![2, 3]));
    assert_eq!(window.read(&mut global, 2), Ok(vec![4, 5]));
    assert_eq!(window.read(&mut global, 2), Err(DecodeError::Truncated));
    assert_eq!(window.read(&mut global, 1), Ok(vec![6]));
    assert_eq!(cursor.read(&mut global, 2), Ok(vec![5, 6]));
}

#[test]
fn carved_window_reads_up_to_the_end_of_the_buffer() {
    let data: Vec<u8> = (0..20).collect();
    let mut global = Reader::new(&data);
    let mut cursor = SubReader::whole(&global);
    let mut window = cursor.sub(&mut global, 5).unwrap();
    assert_eq!(window.read(&mut global, 8), Ok(vec![0, 1, 2, 3, 4, 5, 6, 7]));
    let mut inner = window.sub(&mut global, 12).unwrap();
    assert_eq!(inner.read_full(&mut global), Ok((8..20).collect::<Vec<u8>>()));
    assert!(matches!(window.sub(&mut global, 1), Err(DecodeError::Truncated)));
    assert_eq!(window.read_full(&mut global), Ok(vec![]));
}

#[test]
fn sub_fails_past_the_end() {
    let data = vec![1, 2, 3];
    let mut global = Reader::new(&data);
    let mut cursor = SubReader::whole(&global);
    assert!(matches!(cursor.sub(&mut global, 4), Err(DecodeError::Truncated)));
    assert!(matches!(cursor.sub(&mut global, usize::MAX), Err(DecodeError::Truncated)));
    let mut all = cursor.sub(&mut global, 3).unwrap();
    assert_eq!(all.read_full(&mut global), Ok(vec![1, 2, 3]));
    assert!(matches!(cursor.sub(&mut global, 0), Ok(_)));
    assert!(matches!(cursor.sub(&mut global, 1), Err(DecodeError::Truncated)));
}

#[test]
fn read_full_reads_from_the_offset_to_the_end_of_the_window() {
    let data = vec![1, 2, 3, 4, 5];
    let mut global = Reader::new(&data);
    let mut cursor = SubReader::whole(&global);
    let mut window = cursor.sub(&mut global, 4).unwrap();
    assert_eq!(window.read(&mut global, 1), Ok(vec![1]));
    assert_eq!(window.read_full(&mut global), Ok(vec![2, 3, 4]));
    assert_eq!(window.read_full(&mut global), Ok(vec![]));
    assert_eq!(window.read(&mut global, 1), Ok(vec![5]));
    assert_eq!(window.read(&mut global, 1), Err(DecodeError::Truncated));
}

#[test]
fn read_full_of_an_empty_window_is_empty() {
    let data = vec![1, 2];
    let mut global = Reader::new(&data);
    let mut cursor = SubReader::whole(&global);
    let mut window = cursor.sub(&mut global, 0).unwrap();
    assert_eq!(window.read_full(&mut global), Ok(vec![]));
}

#[test]
fn window_of_a_longer_buffer_does_not_fit_a_shorter_one() {
    let long = vec![1, 2, 3, 4];
    let short = vec![1, 2];
    let long_reader = Reader::new(&long);
    let mut short_reader = Reader::new(&short);
    let mut cursor = SubReader::whole(&long_reader);
    assert_eq!(cursor.read_full(&mut short_reader), Err(DecodeError::Truncated));
    assert_eq!(cursor.read(&mut short_reader, 3), Err(DecodeError::Truncated));
    assert_eq!(cursor.read(&mut short_reader, 2), Ok(vec![1, 2]));
}

#[test]
fn build_decodes_the_whole_buffer() {
    let data = vec![4, 0, 0, 0, 0, 0, 0, 0, 8, 0, 0, 0, 0, 0, 0, 1, 0];
    let mut reader = Reader::new(&data);
    assert_eq!(reader.build(), Ok(DocValue::Num(256)));
}

#[test]
fn read_data_line_moves_past_the_line() {
    let data = vec![7, 0, 0, 0, 0, 0, 0, 0, 1, 0, 42];
    let mut global = Reader::new(&data);
    let mut cursor = SubReader::whole(&global);
    assert_eq!(read_data_line(&mut global, &mut cursor), Ok(DocValue::Null));
    assert_eq!(cursor.read_full(&mut global), Ok(vec![42]));
}

#[test]
fn process_data_dispatches_on_the_tag() {
    let data = vec![1];
    let mut global = Reader::new(&data);
    let mut cursor = SubReader::whole(&global);
    assert_eq!(process_data(6, &mut global, &mut cursor), Ok(DocValue::Bool(true)));
    let mut cursor = SubReader::whole(&global);
    assert_eq!(process_data(2, &mut global, &mut cursor), Ok(DocValue::Binary(vec![1])));
    let mut cursor = SubReader::whole(&global);
    assert_eq!(process_data(7, &mut global, &mut cursor), Err(DecodeError::InvalidNull));
    let mut cursor = SubReader::whole(&global);
    assert_eq!(process_data(9, &mut global, &mut cursor), Err(DecodeError::UnknownTag));
    let mut cursor = SubReader::whole(&global);
    assert_eq!(process_data(4, &mut global, &mut cursor), Err(DecodeError::Truncated));
}

#[test]
fn process_bool_and_null_are_strict() {
    for (payload, as_bool, as_null) in [
        (vec![0u8], Ok(DocValue::Bool(false)), Ok(DocValue::Null)),
        (vec![1], Ok(DocValue::Bool(true)), Err(DecodeError::InvalidNull)),
        (vec![2], Err(DecodeError::InvalidBool), Err(DecodeError::InvalidNull)),
        (vec![], Err(DecodeError::InvalidBool), Err(DecodeError::InvalidNull)),
        (vec![0, 0], Err(DecodeError::InvalidBool), Err(DecodeError::InvalidNull)),
    ] {
        let mut global = Reader::new(&payload);
        let mut cursor = SubReader::whole(&global);
        assert_eq!(process_bool(&mut global, &mut cursor), as_bool);
        let mut cursor = SubReader::whole(&global);
        assert_eq!(process_null(&mut global, &mut cursor), as_null);
    }
}

#[test]
fn bytes_to_string_checks_utf8() {
    assert_eq!(bytes_to_string(vec![99, 97, 102, 0xc3, 0xa9]), Ok("café".to_string()));
    assert_eq!(bytes_to_string(vec![]), Ok(String::new()));
    assert_eq!(bytes_to_string(vec![0xc3]), Err(DecodeError::InvalidUtf8));
    assert_eq!(bytes_to_string(vec![0xed, 0xa0, 0x80]), Err(DecodeError::InvalidUtf8));
}
