use protohackers::prices::{parse_msg, Msg, SessionHandler};

fn msg_to_bytes(msg: &Msg) -> [u8; 9] {
    let mut buf = [0u8; 9];
    buf[0] = msg.c;
    buf[1..5].copy_from_slice(&msg.a.to_be_bytes());
    buf[5..9].copy_from_slice(&msg.b.to_be_bytes());
    buf
}

#[test]
fn test_msg_parsing() {
    let a = Msg { c: b'Q', a: 1000, b: 100000 };
    let b = msg_to_bytes(&a);
    let a_parsed = parse_msg(&b);
    assert_eq!(a, a_parsed);
}

#[test]
fn test_sample_sesssion() {
    let mut session = SessionHandler::default();
    assert_eq!(None, session.handle_msg(Msg { c: b'I', a: 12345, b: 101 }));
    assert_eq!(None, session.handle_msg(Msg { c: b'I', a: 12346, b: 102 }));
    assert_eq!(None, session.handle_msg(Msg { c: b'I', a: 12347, b: 100 }));
    assert_eq!(None, session.handle_msg(Msg { c: b'I', a: 40960, b: 5 }));
    assert_eq!(Some(101), session.handle_msg(Msg { c: b'Q', a: 12288, b: 16384 }));
    assert_eq!(Some(0), session.handle_msg(Msg { c: b'Q', a: 16384, b: 12288 }));
    assert_eq!(Some(0), session.handle_msg(Msg { c: b'Q', a: 16384, b: 16384 }));
    assert_eq!(Some(0), session.handle_msg(Msg { c: b'Q', a: 16384, b: 16385 }));
}

#[test]
fn parse_negative_fields() {
    let buf = [b'I', 0xff, 0xff, 0xff, 0xff, 0x80, 0, 0, 0];
    let m = parse_msg(&buf);
    assert_eq!(m, Msg { c: b'I', a: -1, b: i32::MIN });
}

#[test]
fn insert_replaces_price_at_same_time() {
    let mut session = SessionHandler::new();
    assert_eq!(None, session.handle_msg(Msg { c: b'I', a: 10, b: 100 }));
    assert_eq!(None, session.handle_msg(Msg { c: b'I', a: 10, b: 300 }));
    assert_eq!(Some(300), session.handle_msg(Msg { c: b'Q', a: 0, b: 20 }));
}

#[test]
fn negative_mean_rounds_toward_zero() {
    let mut session = SessionHandler::new();
    session.handle_msg(Msg { c: b'I', a: 1, b: -3 });
    session.handle_msg(Msg { c: b'I', a: 2, b: -4 });
    assert_eq!(Some(-3), session.handle_msg(Msg { c: b'Q', a: 1, b: 2 }));
}

#[test]
fn extreme_prices_do_not_overflow() {
    let mut session = SessionHandler::new();
    session.handle_msg(Msg { c: b'I', a: 1, b: i32::MAX });
    session.handle_msg(Msg { c: b'I', a: 2, b: i32::MAX });
    assert_eq!(Some(i32::MAX), session.handle_msg(Msg { c: b'Q', a: i32::MIN, b: i32::MAX }));
}

#[test]
fn unknown_kind_is_ignored() {
    let mut session = SessionHandler::new();
    assert_eq!(None, session.handle_msg(Msg { c: b'X', a: 1, b: 2 }));
    assert_eq!(Some(0), session.handle_msg(Msg { c: b'Q', a: 0, b: 10 }));
}
