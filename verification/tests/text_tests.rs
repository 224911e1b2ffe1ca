use redis_stm::parse::ParseError;
use redis_stm::text::{bytes_of, decimal_string, push_bytes, push_decimal, text_is};

#[test]
fn decimal_numerals() {
    assert_eq!(decimal_string(0), "0");
    assert_eq!(decimal_string(1234567890), "1234567890");
    let mut out = b"x".to_vec();
    push_decimal(&mut out, 305);
    assert_eq!(out, b"x305".to_vec());
}

#[test]
fn byte_helpers() {
    let mut out = vec![1u8];
    push_bytes(&mut out, &[2, 3]);
    assert_eq!(out, vec![1, 2, 3]);
    assert_eq!(bytes_of("é"), vec![0xc3, 0xa9]);
}

#[test]
fn text_equality() {
    assert!(text_is("get", "get"));
    assert!(!text_is("get", "GET"));
    assert!(!text_is("ge", "get"));
}

#[test]
fn parse_error_from_string() {
    match ParseError::from("boom".to_string()) {
        ParseError::Other(m) => assert_eq!(m, "boom"),
        other => panic!("unexpected {:?}", other),
    }
}
