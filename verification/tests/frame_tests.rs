use redis_stm::cursor::{get_decimal, get_line, get_u8, peek_u8, skip, Cursor};
use redis_stm::frame::{Error, Frame, ScanError};

fn bulk(s: &str) -> Frame {
    Frame::Bulk(s.as_bytes().to_vec())
}

#[test]
fn encode_simple() {
    assert_eq!(Frame::Simple("OK".to_string()).encode(), b"+OK\r\n".to_vec());
}

#[test]
fn encode_error() {
    assert_eq!(Frame::Error("ERR bad".to_string()).encode(), b"-ERR bad\r\n".to_vec());
}

#[test]
fn encode_integer() {
    assert_eq!(Frame::Integer(42).encode(), b":42\r\n".to_vec());
    assert_eq!(Frame::Integer(0).encode(), b":0\r\n".to_vec());
    assert_eq!(
        Frame::Integer(u64::MAX).encode(),
        b":18446744073709551615\r\n".to_vec()
    );
}

#[test]
fn encode_bulk() {
    assert_eq!(bulk("hello").encode(), b"$5\r\nhello\r\n".to_vec());
    assert_eq!(bulk("").encode(), b"$0\r\n\r\n".to_vec());
}

#[test]
fn encode_null() {
    assert_eq!(Frame::Null.encode(), b"$-1\r\n".to_vec());
}

#[test]
fn encode_array() {
    let f = Frame::Array(vec![bulk("get"), bulk("k")]);
    assert_eq!(f.encode(), b"*2\r\n$3\r\nget\r\n$1\r\nk\r\n".to_vec());
    assert_eq!(Frame::Array(vec![]).encode(), b"*0\r\n".to_vec());
}

#[test]
fn encode_utf8_text() {
    assert_eq!(
        Frame::Simple("héllo".to_string()).encode(),
        "+héllo\r\n".as_bytes().to_vec()
    );
}

#[test]
fn roundtrip_every_kind() {
    let f = Frame::Array(vec![
        Frame::Simple("OK".to_string()),
        Frame::Error("ERR x".to_string()),
        Frame::Integer(7),
        Frame::Bulk(vec![0, 13, 10, 255]),
        Frame::Null,
        Frame::Array(vec![Frame::Integer(1), Frame::Array(vec![])]),
        Frame::Simple("ünïcode".to_string()),
    ]);
    let bytes = f.encode();
    let back = Frame::parse_frame(&bytes).unwrap();
    assert_eq!(back, f);
}

#[test]
fn roundtrip_with_trailing_bytes() {
    let f = Frame::Integer(99);
    let mut bytes = f.encode();
    let n = bytes.len();
    bytes.extend_from_slice(b"+next\r\n");
    let mut c = Cursor::new(&bytes);
    Frame::check(&mut c).unwrap();
    assert_eq!(c.position(), n);
    assert_eq!(Frame::parse_frame(&bytes).unwrap(), f);
}

#[test]
fn parse_simple_and_integer() {
    assert_eq!(
        Frame::parse_frame(b"+OK\r\n").unwrap(),
        Frame::Simple("OK".to_string())
    );
    assert_eq!(Frame::parse_frame(b":42\r\n").unwrap(), Frame::Integer(42));
}

#[test]
fn parse_incomplete() {
    assert!(matches!(Frame::parse_frame(b"+OK"), Err(Error::Incomplete)));
    assert!(matches!(Frame::parse_frame(b"$5\r\nhel"), Err(Error::Incomplete)));
    assert!(matches!(Frame::parse_frame(b""), Err(Error::Incomplete)));
    assert!(matches!(Frame::parse_frame(b"*2\r\n:1\r\n"), Err(Error::Incomplete)));
    assert!(matches!(Frame::parse_frame(b"$"), Err(Error::Incomplete)));
}

#[test]
fn parse_invalid() {
    assert!(matches!(Frame::parse_frame(b":abc\r\n"), Err(Error::Other(_))));
    assert!(matches!(Frame::parse_frame(b"$-2\r\n"), Err(Error::Other(_))));
    assert!(matches!(Frame::parse_frame(b"+\xff\r\n"), Err(Error::Other(_))));
}

#[test]
fn parse_number_forms() {
    // an optional sign, then digits; what follows the digits is ignored
    assert_eq!(Frame::parse_frame(b":+5\r\n").unwrap(), Frame::Integer(5));
    assert_eq!(Frame::parse_frame(b":-0\r\n").unwrap(), Frame::Integer(0));
    assert_eq!(Frame::parse_frame(b":12abc\r\n").unwrap(), Frame::Integer(12));
    assert_eq!(Frame::parse_frame(b":007\r\n").unwrap(), Frame::Integer(7));
    assert!(matches!(Frame::parse_frame(b":-1\r\n"), Err(Error::Other(_))));
    assert!(matches!(
        Frame::parse_frame(b":18446744073709551616\r\n"),
        Err(Error::Other(_))
    ));
    assert!(matches!(Frame::parse_frame(b":\r\n"), Err(Error::Other(_))));
}

#[test]
fn parse_bulk_skips_two_trailing_bytes() {
    assert_eq!(
        Frame::parse_frame(b"$2\r\nhiXY").unwrap(),
        Frame::Bulk(b"hi".to_vec())
    );
}

#[test]
fn scan_reports_unknown_type() {
    let mut c = Cursor::new(b"?x\r\n");
    assert!(matches!(Frame::scan(&mut c), Err(ScanError::UnknownType)));
    let mut c = Cursor::new(b"*1\r\n?x\r\n");
    assert!(matches!(Frame::scan(&mut c), Err(ScanError::UnknownType)));
}

#[test]
fn check_positions() {
    let data = b"+OK\r\n:1\r\n";
    let mut c = Cursor::new(data);
    Frame::check(&mut c).unwrap();
    assert_eq!(c.position(), 5);
    Frame::check(&mut c).unwrap();
    assert_eq!(c.position(), 9);
    assert!(matches!(Frame::check(&mut c), Err(Error::Incomplete)));
}

#[test]
fn parse_after_check() {
    let data = b"*2\r\n$3\r\nget\r\n$3\r\nkey\r\n";
    let mut c = Cursor::new(data);
    Frame::check(&mut c).unwrap();
    let end = c.position();
    c.set_position(0);
    let f = Frame::parse(&mut c).unwrap();
    assert_eq!(c.position(), end);
    assert_eq!(f, Frame::Array(vec![bulk("get"), bulk("key")]));
}

#[test]
fn cursor_helpers() {
    let data = b"ab\r\n12\r\nz";
    let mut c = Cursor::new(data);
    assert_eq!(peek_u8(&mut c).unwrap(), b'a');
    assert_eq!(c.position(), 0);
    assert_eq!(get_u8(&mut c).unwrap(), b'a');
    assert_eq!(c.position(), 1);
    assert_eq!(get_line(&mut c).unwrap(), b"b");
    assert_eq!(c.position(), 4);
    assert_eq!(get_decimal(&mut c).unwrap(), 12);
    assert_eq!(c.position(), 8);
    assert!(matches!(get_line(&mut c), Err(Error::Incomplete)));
    assert_eq!(c.position(), 8);
    assert!(matches!(skip(&mut c, 2), Err(Error::Incomplete)));
    skip(&mut c, 1).unwrap();
    assert_eq!(c.remaining(), 0);
    assert!(matches!(get_u8(&mut c), Err(Error::Incomplete)));
    assert!(matches!(peek_u8(&mut c), Err(Error::Incomplete)));
}

#[test]
fn get_decimal_rejects_text() {
    let mut c = Cursor::new(b"abc\r\n");
    assert!(matches!(get_decimal(&mut c), Err(Error::Other(_))));
    assert_eq!(c.position(), 5);
}

#[test]
fn every_strict_prefix_is_incomplete() {
    let f = Frame::Array(vec![
        Frame::Simple("OK".to_string()),
        Frame::Integer(12),
        Frame::Bulk(b"a\r\nb".to_vec()),
        Frame::Null,
        Frame::Array(vec![Frame::Error("E".to_string())]),
    ]);
    let bytes = f.encode();
    for k in 0..bytes.len() {
        let mut c = Cursor::new(&bytes[..k]);
        assert!(matches!(Frame::check(&mut c), Err(Error::Incomplete)), "prefix {}", k);
    }
    let mut c = Cursor::new(&bytes);
    Frame::check(&mut c).unwrap();
    assert_eq!(c.position(), bytes.len());
}

#[test]
fn sign_only_numbers_read_as_zero() {
    assert_eq!(Frame::parse_frame(b":+\r\n").unwrap(), Frame::Integer(0));
    assert_eq!(Frame::parse_frame(b":-\r\n").unwrap(), Frame::Integer(0));
}

#[test]
fn error_texts_of_frames() {
    match Frame::parse_frame(b"+\xff\r\n") {
        Err(Error::Other(m)) => assert_eq!(m, "invalid utf8"),
        other => panic!("unexpected {:?}", other),
    }
    match Frame::parse_frame(b":x\r\n") {
        Err(Error::Other(m)) => assert_eq!(m, "protocol error; invalid frame format"),
        other => panic!("unexpected {:?}", other),
    }
    match Frame::parse_frame(b"$-2\r\n") {
        Err(Error::Other(m)) => assert_eq!(m, "unsupported frame type: [45, 50]"),
        other => panic!("unexpected {:?}", other),
    }
}

#[test]
fn checked_message_fails_only_on_its_bad_line() {
    let data = b"*2\r\n+ok\r\n-\xc3\x28\r\n";
    let mut c = Cursor::new(data);
    Frame::check(&mut c).unwrap();
    c.set_position(0);
    match Frame::parse(&mut c) {
        Err(Error::Other(m)) => assert_eq!(m, "invalid utf8"),
        other => panic!("unexpected {:?}", other),
    }
    assert_eq!(c.position(), data.len());
}

#[test]
fn unknown_type_is_an_error() {
    let mut c = Cursor::new(b"PING\r\n");
    match Frame::check(&mut c) {
        Err(Error::Other(m)) => assert_eq!(m, "protocol error; unknown frame type"),
        other => panic!("unexpected {:?}", other),
    }
    assert_eq!(c.position(), 1);
    let mut c = Cursor::new(b"PING\r\n");
    match Frame::parse(&mut c) {
        Err(Error::Other(m)) => assert_eq!(m, "protocol error; unknown frame type"),
        other => panic!("unexpected {:?}", other),
    }
    match Frame::parse_frame(b"*1\r\n?x\r\n") {
        Err(Error::Other(m)) => assert_eq!(m, "protocol error; unknown frame type"),
        other => panic!("unexpected {:?}", other),
    }
}

#[test]
fn parse_without_check_reports_incomplete() {
    let mut c = Cursor::new(b"$5\r\nhel");
    assert!(matches!(Frame::parse(&mut c), Err(Error::Incomplete)));
    let mut c = Cursor::new(b"$18446744073709551615\r\nab");
    assert!(matches!(Frame::parse(&mut c), Err(Error::Incomplete)));
    let mut c = Cursor::new(b"*2\r\n:1\r\n");
    assert!(matches!(Frame::parse(&mut c), Err(Error::Incomplete)));
}

#[test]
fn empty_buffer_is_incomplete() {
    let mut c = Cursor::new(b"");
    assert!(matches!(get_line(&mut c), Err(Error::Incomplete)));
    assert_eq!(c.position(), 0);
    assert!(matches!(get_decimal(&mut c), Err(Error::Incomplete)));
    assert_eq!(c.position(), 0);
}

#[test]
fn clone_keeps_the_frame() {
    let f = Frame::Array(vec![
        Frame::Simple("OK".to_string()),
        Frame::Bulk(vec![1, 2]),
        Frame::Array(vec![Frame::Null, Frame::Integer(3)]),
    ]);
    let g = f.clone();
    assert_eq!(f, g);
    assert_eq!(f.encode(), g.encode());
}
