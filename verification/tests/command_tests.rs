use redis_stm::cmd::command::Command;
use redis_stm::cmd::get::Get;
use redis_stm::cmd::publish::Publish;
use redis_stm::cmd::set::SetCmd;
use redis_stm::cmd::subscribe::Subscribe;
use redis_stm::db::{Db, Expire};
use redis_stm::frame::Frame;
use redis_stm::handler::{handle_frame, message_frame, subscribe_confirmation, Step};
use redis_stm::parse::{Parse, ParseError};

fn bulk(s: &str) -> Frame {
    Frame::Bulk(s.as_bytes().to_vec())
}

fn command(words: &[&str]) -> Frame {
    Frame::Array(words.iter().map(|w| bulk(w)).collect())
}

fn parse_of(frames: Vec<Frame>) -> Parse {
    Parse::new(Frame::Array(frames)).unwrap()
}

#[test]
fn parse_new_needs_array() {
    assert!(matches!(Parse::new(Frame::Integer(1)), Err(ParseError::Other(_))));
}

#[test]
fn next_string_forms() {
    let mut p = parse_of(vec![
        Frame::Simple("a".to_string()),
        bulk("b"),
        Frame::Bulk(vec![0xff]),
        Frame::Integer(3),
    ]);
    assert_eq!(p.next_string().unwrap(), "a");
    assert_eq!(p.next_string().unwrap(), "b");
    assert!(matches!(p.next_string(), Err(ParseError::Other(_))));
    assert!(matches!(p.next_string(), Err(ParseError::Other(_))));
    assert!(matches!(p.next_string(), Err(ParseError::EndOfStream)));
}

#[test]
fn next_bytes_forms() {
    let mut p = parse_of(vec![Frame::Simple("hi".to_string()), Frame::Bulk(vec![1, 2]), Frame::Null]);
    assert_eq!(p.next_bytes().unwrap(), b"hi".to_vec());
    assert_eq!(p.next_bytes().unwrap(), vec![1, 2]);
    assert!(matches!(p.next_bytes(), Err(ParseError::Other(_))));
    assert!(matches!(p.next_bytes(), Err(ParseError::EndOfStream)));
}

#[test]
fn parse_to_string_joins_entries() {
    let mut p = parse_of(vec![
        Frame::Simple("a".to_string()),
        Frame::Integer(12),
        Frame::Null,
        bulk("b"),
        Frame::Error("e".to_string()),
        Frame::Array(vec![
            Frame::Simple("x".to_string()),
            Frame::Array(vec![Frame::Integer(5)]),
            Frame::Integer(3),
        ]),
        Frame::Bulk(vec![b'z', 0xff]),
    ]);
    assert_eq!(p.to_string(), "a12nullbex3z\u{fffd}");
    assert!(matches!(p.next_string(), Err(ParseError::EndOfStream)));
}

#[test]
fn get_new_and_key() {
    let g = Get::new("foo");
    assert_eq!(g.key(), "foo");
}

#[test]
fn get_parse_frames() {
    let mut p = parse_of(vec![bulk("k")]);
    assert_eq!(Get::parse_frames(&mut p).unwrap().key(), "k");
    let mut p = parse_of(vec![]);
    assert!(matches!(Get::parse_frames(&mut p), Err(ParseError::EndOfStream)));
}

#[test]
fn set_parse_plain() {
    let mut p = parse_of(vec![bulk("k"), bulk("v")]);
    let s = SetCmd::parse_frames(&mut p).unwrap();
    assert_eq!(s.key(), "k");
    assert_eq!(s.value(), b"v");
    assert_eq!(s.expire(), None);
}

#[test]
fn set_parse_expirations() {
    let mut p = parse_of(vec![bulk("k"), bulk("v"), bulk("EX"), bulk("10")]);
    assert_eq!(SetCmd::parse_frames(&mut p).unwrap().expire(), Some(Expire::from_secs(10)));
    let mut p = parse_of(vec![bulk("k"), bulk("v"), bulk("px"), bulk("250")]);
    let s = SetCmd::parse_frames(&mut p).unwrap();
    assert_eq!(s.expire().unwrap().as_millis(), 250);
    let mut p = parse_of(vec![bulk("k"), bulk("v"), bulk("Ex"), bulk("+3")]);
    assert_eq!(SetCmd::parse_frames(&mut p).unwrap().expire().unwrap().as_millis(), 3000);
}

#[test]
fn set_parse_other_option_means_no_expiration() {
    let mut p = parse_of(vec![bulk("k"), bulk("v"), bulk("NX"), bulk("10")]);
    let s = SetCmd::parse_frames(&mut p).unwrap();
    assert_eq!(s.expire(), None);
    // the token after the option is left unread
    assert_eq!(p.next_string().unwrap(), "10");
}

#[test]
fn set_parse_errors() {
    let mut p = parse_of(vec![bulk("k"), bulk("v"), bulk("EX")]);
    assert!(matches!(SetCmd::parse_frames(&mut p), Err(ParseError::EndOfStream)));
    let mut p = parse_of(vec![bulk("k"), bulk("v"), bulk("EX"), bulk("ten")]);
    assert!(matches!(SetCmd::parse_frames(&mut p), Err(ParseError::Other(_))));
    let mut p = parse_of(vec![bulk("k"), bulk("v"), bulk("PX"), bulk("-1")]);
    assert!(matches!(SetCmd::parse_frames(&mut p), Err(ParseError::Other(_))));
    let mut p = parse_of(vec![bulk("k")]);
    assert!(matches!(SetCmd::parse_frames(&mut p), Err(ParseError::EndOfStream)));
    let mut p = parse_of(vec![bulk("k"), Frame::Null]);
    assert!(matches!(SetCmd::parse_frames(&mut p), Err(ParseError::Other(_))));
    let mut p = parse_of(vec![bulk("k"), bulk("v"), Frame::Integer(1)]);
    assert!(matches!(SetCmd::parse_frames(&mut p), Err(ParseError::Other(_))));
}

#[test]
fn set_new_and_accessors() {
    let s = SetCmd::new("a", b"b".to_vec(), Some(Expire::from_millis(5)));
    assert_eq!(s.key(), "a");
    assert_eq!(s.value(), b"b");
    assert_eq!(s.expire().unwrap().as_millis(), 5);
}

#[test]
fn publish_parse_and_apply() {
    let mut p = parse_of(vec![bulk("news"), bulk("hello")]);
    let cmd = Publish::parse_frames(&mut p).unwrap();
    assert_eq!(cmd.channel(), "news");
    assert_eq!(cmd.message(), b"hello");
    assert_eq!(cmd.apply(3), Frame::Integer(3));
    let mut p = parse_of(vec![bulk("news")]);
    assert!(matches!(Publish::parse_frames(&mut p), Err(ParseError::EndOfStream)));
    let p2 = Publish::new("c", vec![1]);
    assert_eq!(p2.channel(), "c");
}

#[test]
fn subscribe_parse() {
    let mut p = parse_of(vec![bulk("a"), bulk("b")]);
    let s = Subscribe::parse_frames(&mut p).unwrap();
    assert_eq!(s.channels(), &["a".to_string(), "b".to_string()]);
    let mut p = parse_of(vec![]);
    assert!(matches!(Subscribe::parse_frames(&mut p), Err(ParseError::Other(_))));
    let mut p = parse_of(vec![bulk("a"), Frame::Integer(1), bulk("c")]);
    assert!(matches!(Subscribe::parse_frames(&mut p), Err(ParseError::Other(_))));
    assert_eq!(p.next_string().unwrap(), "c");
    let s = Subscribe::new(vec!["x".to_string()]);
    assert_eq!(s.channels().len(), 1);
}

#[test]
fn command_from_frame() {
    match Command::from_frame(command(&["GET", "k"])).unwrap() {
        Command::Get(g) => assert_eq!(g.key(), "k"),
        other => panic!("unexpected {:?}", other),
    }
    match Command::from_frame(command(&["set", "k", "v"])).unwrap() {
        Command::SetCmd(s) => assert_eq!(s.value(), b"v"),
        other => panic!("unexpected {:?}", other),
    }
    assert!(matches!(
        Command::from_frame(command(&["Publish", "c", "m"])).unwrap(),
        Command::Publish(_)
    ));
    assert!(matches!(
        Command::from_frame(command(&["subscribe", "c"])).unwrap(),
        Command::Subscribe(_)
    ));
    assert!(matches!(Command::from_frame(command(&["ping"])), Err(ParseError::Other(_))));
    assert!(matches!(Command::from_frame(command(&[])), Err(ParseError::EndOfStream)));
    assert!(matches!(Command::from_frame(Frame::Null), Err(ParseError::Other(_))));
}

#[test]
fn db_read_your_write() {
    let mut db = Db::new();
    db.set("a".to_string(), b"1".to_vec(), None, 0);
    assert_eq!(db.get(&"a".to_string(), 1000), Some(b"1".to_vec()));
    assert_eq!(db.get(&"b".to_string(), 1000), None);
    db.set("a".to_string(), b"2".to_vec(), None, 5);
    assert_eq!(db.get(&"a".to_string(), 6), Some(b"2".to_vec()));
}

#[test]
fn db_expiration() {
    let mut db = Db::new();
    db.set("a".to_string(), b"1".to_vec(), Some(Expire::from_millis(10)), 100);
    assert_eq!(db.get(&"a".to_string(), 109), Some(b"1".to_vec()));
    assert_eq!(db.get(&"a".to_string(), 110), None);
    db.set("b".to_string(), b"2".to_vec(), Some(Expire::from_secs(1)), 0);
    assert_eq!(db.get(&"b".to_string(), 999), Some(b"2".to_vec()));
    assert_eq!(db.get(&"b".to_string(), 1000), None);
}

#[test]
fn get_apply_after_set_apply() {
    let mut db = Db::new();
    let set = SetCmd::new("k", b"v".to_vec(), None);
    assert_eq!(set.apply(&mut db, 0), Frame::Simple("OK".to_string()));
    assert_eq!(Get::new("k").apply(&db, 1), Frame::Bulk(b"v".to_vec()));
    assert_eq!(Get::new("other").apply(&db, 1), Frame::Null);
}

#[test]
fn handler_steps() {
    let mut db = Db::new();
    match handle_frame(&mut db, command(&["SET", "k", "v", "PX", "5"]), 10) {
        Step::Reply(f) => assert_eq!(f, Frame::Simple("OK".to_string())),
        other => panic!("unexpected {:?}", other),
    }
    match handle_frame(&mut db, command(&["GET", "k"]), 14) {
        Step::Reply(f) => assert_eq!(f, Frame::Bulk(b"v".to_vec())),
        other => panic!("unexpected {:?}", other),
    }
    match handle_frame(&mut db, command(&["GET", "k"]), 15) {
        Step::Reply(f) => assert_eq!(f, Frame::Null),
        other => panic!("unexpected {:?}", other),
    }
    assert!(matches!(handle_frame(&mut db, command(&["PUBLISH", "c", "m"]), 0), Step::Publish(_)));
    assert!(matches!(handle_frame(&mut db, command(&["SUBSCRIBE", "c"]), 0), Step::Subscribe(_)));
    match handle_frame(&mut db, command(&["NOPE"]), 0) {
        Step::Reply(f) => assert_eq!(
            f,
            Frame::Error("ERR Other(\"protocol error; unknown command \\\"nope\\\"\")".to_string())
        ),
        other => panic!("unexpected {:?}", other),
    }
}

#[test]
fn subscription_frames() {
    assert_eq!(
        subscribe_confirmation("news", 1).encode(),
        b"*3\r\n$9\r\nsubscribe\r\n$4\r\nnews\r\n:1\r\n".to_vec()
    );
    assert_eq!(
        message_frame("news", b"hi".to_vec()).encode(),
        b"*3\r\n$7\r\nmessage\r\n$4\r\nnews\r\n$2\r\nhi\r\n".to_vec()
    );
}

#[test]
fn error_texts_of_commands() {
    let mut p = parse_of(vec![bulk("k"), bulk("v"), bulk("EX"), bulk("ten")]);
    match SetCmd::parse_frames(&mut p) {
        Err(ParseError::Other(m)) => assert_eq!(m, "EX value must be an integer"),
        other => panic!("unexpected {:?}", other),
    }
    let mut p = parse_of(vec![bulk("k"), bulk("v"), bulk("px"), bulk("x")]);
    match SetCmd::parse_frames(&mut p) {
        Err(ParseError::Other(m)) => assert_eq!(m, "PX value must be an integer"),
        other => panic!("unexpected {:?}", other),
    }
    let mut p = parse_of(vec![]);
    match Subscribe::parse_frames(&mut p) {
        Err(ParseError::Other(m)) => assert_eq!(m, "SUBSCRIBE requires at least one channel"),
        other => panic!("unexpected {:?}", other),
    }
    let mut p = parse_of(vec![Frame::Bulk(vec![0xff])]);
    match p.next_string() {
        Err(ParseError::Other(m)) => assert_eq!(m, "protocol error; invalid string"),
        other => panic!("unexpected {:?}", other),
    }
    let mut p = parse_of(vec![Frame::Integer(5)]);
    match p.next_string() {
        Err(ParseError::Other(m)) => {
            assert_eq!(m, "protocol error; expected simple frame or bulk frame, got Integer(5)")
        }
        other => panic!("unexpected {:?}", other),
    }
    match Parse::new(Frame::Null) {
        Err(ParseError::Other(m)) => assert_eq!(m, "protocol error; expected array, got Null"),
        _ => panic!("expected an error"),
    }
    match Command::from_frame(command(&["ping"])) {
        Err(ParseError::Other(m)) => assert_eq!(m, "protocol error; unknown command \"ping\""),
        other => panic!("unexpected {:?}", other),
    }
}

#[test]
fn bad_command_reply_then_next_command() {
    let mut db = Db::new();
    match handle_frame(&mut db, command(&[]), 0) {
        Step::Reply(f) => assert_eq!(f, Frame::Error("ERR EndOfStream".to_string())),
        other => panic!("unexpected {:?}", other),
    }
    match handle_frame(&mut db, command(&["SET", "k", "v"]), 0) {
        Step::Reply(f) => assert_eq!(f, Frame::Simple("OK".to_string())),
        other => panic!("unexpected {:?}", other),
    }
}

#[test]
fn to_string_of_text_bulk_entries() {
    let mut p = parse_of(vec![bulk("PING"), Frame::Integer(5), Frame::Null]);
    assert_eq!(p.to_string(), "PING5null");
}

#[test]
fn error_texts_show_frames_in_debug_form() {
    match Parse::new(Frame::Bulk(b"hi\n".to_vec())) {
        Err(ParseError::Other(m)) => {
            assert_eq!(m, "protocol error; expected array, got Bulk(b\"hi\\n\")")
        }
        _ => panic!("expected an error"),
    }
    match Parse::new(Frame::Simple("a\"b".to_string())) {
        Err(ParseError::Other(m)) => {
            assert_eq!(m, "protocol error; expected array, got Simple(\"a\\\"b\")")
        }
        _ => panic!("expected an error"),
    }
    let mut p = parse_of(vec![Frame::Array(vec![bulk("x"), Frame::Integer(1), Frame::Null])]);
    match p.next_bytes() {
        Err(ParseError::Other(m)) => assert_eq!(
            m,
            "protocol error; expected simple frame or bulk frame, got Array([Bulk(b\"x\"), Integer(1), Null])"
        ),
        other => panic!("unexpected {:?}", other),
    }
    match Parse::new(Frame::Error("e".to_string())) {
        Err(ParseError::Other(m)) => {
            assert_eq!(m, "protocol error; expected array, got Error(\"e\")")
        }
        _ => panic!("expected an error"),
    }
}
