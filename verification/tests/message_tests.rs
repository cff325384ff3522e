use chat_relay::message::compose;
use chat_relay::message::find_delimiter;
use chat_relay::message::parse;
use chat_relay::message::ComposeError;
use chat_relay::message::MalformedFrame;
use chat_relay::message::Message;
use chat_relay::message::DELIMITER;

#[test]
fn delimiter_is_the_zero_byte() {
    assert_eq!(DELIMITER, 0);
}

#[test]
fn compose_joins_tag_delimiter_body() {
    assert_eq!(compose(b"alice", b"hello"), Ok(b"alice\0hello".to_vec()));
}

#[test]
fn compose_with_empty_body() {
    assert_eq!(compose(b"bob", b""), Ok(b"bob\0".to_vec()));
}

#[test]
fn compose_keeps_zero_bytes_of_the_body() {
    assert_eq!(compose(b"a", b"\0x\0"), Ok(vec![b'a', 0, 0, b'x', 0]));
}

#[test]
fn compose_refuses_an_empty_tag() {
    assert_eq!(compose(b"", b"hello"), Err(ComposeError::EmptyTag));
    assert_eq!(compose(b"", b""), Err(ComposeError::EmptyTag));
}

#[test]
fn compose_refuses_a_delimiter_in_the_tag() {
    assert_eq!(compose(b"al\0ice", b"hello"), Err(ComposeError::DelimiterInTag));
    assert_eq!(compose(b"\0", b""), Err(ComposeError::DelimiterInTag));
}

#[test]
fn find_delimiter_gives_the_first() {
    assert_eq!(find_delimiter(b"ab\0cd\0"), Some(2));
    assert_eq!(find_delimiter(b"\0"), Some(0));
    assert_eq!(find_delimiter(b"abc"), None);
    assert_eq!(find_delimiter(b""), None);
}

#[test]
fn parse_splits_at_the_first_delimiter() {
    let m = parse(b"alice\0hello").unwrap();
    assert_eq!(m.sender_tag, b"alice");
    assert_eq!(m.body, b"hello");
}

#[test]
fn parse_body_does_not_hold_the_delimiter() {
    let m = parse(b"a\0").unwrap();
    assert_eq!(m.sender_tag, b"a");
    assert!(m.body.is_empty());
}

#[test]
fn parse_later_delimiters_belong_to_the_body() {
    let m = parse(b"a\0b\0c").unwrap();
    assert_eq!(m.sender_tag, b"a");
    assert_eq!(m.body, b"b\0c");
}

#[test]
fn parse_empty_tag() {
    let m = parse(b"\0body").unwrap();
    assert!(m.sender_tag.is_empty());
    assert_eq!(m.body, b"body");
}

#[test]
fn parse_without_delimiter_is_malformed() {
    assert_eq!(parse(b"no delimiter here").err(), Some(MalformedFrame));
    assert_eq!(parse(b"").err(), Some(MalformedFrame));
}

#[test]
fn parse_undoes_compose() {
    let bodies: Vec<&[u8]> = vec![b"", b"x", b"\0", b"hi \0 there", &[0xff, 0xfe]];
    for body in bodies {
        let payload = compose(b"tag", body).unwrap();
        let m = parse(&payload).unwrap();
        assert_eq!(m.sender_tag, b"tag");
        assert_eq!(m.body, body);
    }
}

#[test]
fn to_payload_is_compose_of_the_fields() {
    let m = Message { sender_tag: b"carol".to_vec(), body: b"hey".to_vec() };
    assert_eq!(m.to_payload(), Ok(b"carol\0hey".to_vec()));
    let empty = Message { sender_tag: vec![], body: b"hey".to_vec() };
    assert_eq!(empty.to_payload(), Err(ComposeError::EmptyTag));
    let bad = Message { sender_tag: vec![b'a', 0], body: vec![] };
    assert_eq!(bad.to_payload(), Err(ComposeError::DelimiterInTag));
}

#[test]
fn displayable_needs_tag_and_body() {
    assert!(Message { sender_tag: b"a".to_vec(), body: b"b".to_vec() }.is_displayable());
    assert!(!Message { sender_tag: vec![], body: b"b".to_vec() }.is_displayable());
    assert!(!Message { sender_tag: b"a".to_vec(), body: vec![] }.is_displayable());
    assert!(!Message { sender_tag: vec![], body: vec![] }.is_displayable());
}

#[test]
fn tag_and_body_as_text() {
    let m = Message { sender_tag: "zoë".as_bytes().to_vec(), body: vec![b'h', b'i', 0xff, b'!'] };
    assert_eq!(m.tag_text(), "zoë");
    assert_eq!(m.body_text(), "hi\u{FFFD}!");
}
