use docvalue::reader::{bytes_to_f64, bytes_to_i64, bytes_to_u64};
use docvalue::writer::{data_len_rep, num_to_data};
use docvalue::DecodeError;

#[test]
fn length_field_is_big_endian() {
    assert_eq!(data_len_rep(1), vec![0, 0, 0, 0, 0, 0, 0, 1]);
    assert_eq!(data_len_rep(0x0102030405060708), vec![1, 2, 3, 4, 5, 6, 7, 8]);
    assert_eq!(bytes_to_u64(vec![1, 2, 3, 4, 5, 6, 7, 8]), Ok(0x0102030405060708));
}

#[test]
fn signed_payload_is_twos_complement() {
    assert_eq!(num_to_data(-1), vec![255; 8]);
    assert_eq!(num_to_data(i64::MIN), vec![0x80, 0, 0, 0, 0, 0, 0, 0]);
    assert_eq!(bytes_to_i64(vec![255, 255, 255, 255, 255, 255, 255, 254]), Ok(-2));
}

#[test]
fn short_number_is_truncated() {
    assert_eq!(bytes_to_u64(vec![1, 2, 3]), Err(DecodeError::Truncated));
    assert_eq!(bytes_to_i64(vec![]), Err(DecodeError::Truncated));
    assert_eq!(bytes_to_f64(vec![0; 7]), Err(DecodeError::Truncated));
}

#[test]
fn float_bits_are_read_big_endian() {
    assert_eq!(
        bytes_to_f64(vec![0x40, 0x09, 0x21, 0xfb, 0x54, 0x44, 0x2d, 0x18]).map(f64::from_bits),
        Ok(std::f64::consts::PI)
    );
}
