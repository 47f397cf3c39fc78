use respwire::frame::{Error, Frame};

fn buf(bytes: &[u8]) -> Vec<u8> {
    bytes.to_vec()
}

#[test]
pub fn test_parse_simple() {
    let source = buf(b"+PONG\r\n");

    let (frame, _) = Frame::parse(&source, 0).unwrap();

    assert_eq!(Frame::Simple(String::from("PONG")), frame);
}

#[test]
pub fn test_parse_error() {
    let source = buf(b"-ERR AUTH <password> called without any password configured for the default user. Are you sure your configuration is correct?\r\n");

    let (frame, _) = Frame::parse(&source, 0).unwrap();

    assert_eq!(Frame::Error(String::from("ERR AUTH <password> called without any password configured for the default user. Are you sure your configuration is correct?")), frame);
}

#[test]
pub fn test_parse_integer() {
    let source = buf(b":791\r\n");

    let (frame, _) = Frame::parse(&source, 0).unwrap();

    assert_eq!(Frame::Integer(791), frame);
}

#[test]
pub fn test_parse_bulk() {
    let source = buf(b"$11\r\nHello world\r\n");

    let (frame, _) = Frame::parse(&source, 0).unwrap();

    assert_eq!(Frame::Bulk(b"Hello world".to_vec()), frame);
}

#[test]
pub fn test_parse_array() {
    let source = buf(b"*2\r\n+one\r\n+two\r\n");

    let (frame, _) = Frame::parse(&source, 0).unwrap();

    assert_eq!(
        Frame::Array(vec![Frame::Simple("one".to_owned()), Frame::Simple("two".to_owned()),]),
        frame
    );
}

#[test]
fn parse_consumes_exactly_the_frame() {
    let source = buf(b"+PONG\r\n:42\r\n");
    let (frame, end) = Frame::parse(&source, 0).unwrap();
    assert_eq!(frame, Frame::Simple("PONG".to_owned()));
    assert_eq!(end, 7);
    let (frame2, end2) = Frame::parse(&source, end).unwrap();
    assert_eq!(frame2, Frame::Integer(42));
    assert_eq!(end2, source.len());
}

#[test]
fn empty_array_decodes_to_empty() {
    let source = buf(b"*0\r\n");
    let (frame, end) = Frame::parse(&source, 0).unwrap();
    assert_eq!(frame, Frame::Array(vec![]));
    assert_eq!(end, 4);
}

#[test]
fn null_sentinel_decodes_to_nil() {
    let source = buf(b"$-1\r\n");
    let (frame, end) = Frame::parse(&source, 0).unwrap();
    assert_eq!(frame, Frame::Nil);
    assert_eq!(end, 5);
}

#[test]
fn short_bulk_is_incomplete_not_malformed() {
    // Length line promises 5 payload bytes plus CR LF; only 5 bytes follow.
    let source = buf(b"$5\r\nHel\r\n");
    match Frame::parse(&source, 0) {
        Err(Error::StreamEndedEarly) => {}
        other => panic!("expected StreamEndedEarly, got {:?}", other),
    }
}

#[test]
fn non_numeric_integer_is_malformed_not_incomplete() {
    let source = buf(b":abc\r\n");
    match Frame::parse(&source, 0) {
        Err(Error::Protocol(_)) => {}
        other => panic!("expected Protocol error, got {:?}", other),
    }
}

#[test]
fn unknown_marker_is_malformed_immediately() {
    let source = buf(b"?\r\n");
    match Frame::parse(&source, 0) {
        Err(Error::Protocol(_)) => {}
        other => panic!("expected Protocol error, got {:?}", other),
    }
}

#[test]
fn nested_array_decodes_without_double_consuming() {
    let source = buf(b"*1\r\n*1\r\n+x\r\n");
    let (frame, end) = Frame::parse(&source, 0).unwrap();
    assert_eq!(
        frame,
        Frame::Array(vec![Frame::Array(vec![Frame::Simple("x".to_owned())])])
    );
    assert_eq!(end, source.len());
}

#[test]
fn negative_bulk_length_other_than_null_is_malformed() {
    let source = buf(b"$-2\r\nxx\r\n");
    match Frame::parse(&source, 0) {
        Err(Error::Protocol(_)) => {}
        other => panic!("expected Protocol error, got {:?}", other),
    }
}

#[test]
fn bulk_without_crlf_terminator_is_malformed() {
    let source = buf(b"$3\r\nabcXY");
    match Frame::parse(&source, 0) {
        Err(Error::Protocol(_)) => {}
        other => panic!("expected Protocol error, got {:?}", other),
    }
}

#[test]
fn overlong_integer_is_malformed() {
    // One past u64::MAX.
    let source = buf(b":18446744073709551616\r\n");
    match Frame::parse(&source, 0) {
        Err(Error::Protocol(_)) => {}
        other => panic!("expected Protocol error, got {:?}", other),
    }
    let max = buf(b":18446744073709551615\r\n");
    let (frame, _) = Frame::parse(&max, 0).unwrap();
    assert_eq!(frame, Frame::Integer(u64::MAX));
}

#[test]
fn lossy_text_replaces_invalid_utf8() {
    // 0xFF is never valid UTF-8; the payload text is replaced, the
    // connection survives.
    let source = buf(b"+a\xffb\r\n");
    let (frame, _) = Frame::parse(&source, 0).unwrap();
    assert_eq!(frame, Frame::Simple(String::from("a\u{FFFD}b")));
}

#[test]
fn multibyte_text_survives_decode() {
    let source = buf("+h\u{e9}llo\r\n".as_bytes());
    let (frame, _) = Frame::parse(&source, 0).unwrap();
    assert_eq!(frame, Frame::Simple(String::from("h\u{e9}llo")));
}

#[test]
fn encode_produces_canonical_wire_bytes() {
    assert_eq!(Frame::Simple("one".to_owned()).encode(), b"+one\r\n".to_vec());
    assert_eq!(
        Frame::Error("oops".to_owned()).encode(),
        b"-oops\r\n".to_vec()
    );
    assert_eq!(Frame::Integer(791).encode(), b":791\r\n".to_vec());
    assert_eq!(Frame::Integer(0).encode(), b":0\r\n".to_vec());
    assert_eq!(
        Frame::Bulk(b"Hello world".to_vec()).encode(),
        b"$11\r\nHello world\r\n".to_vec()
    );
    assert_eq!(Frame::Nil.encode(), b"$-1\r\n".to_vec());
    assert_eq!(Frame::Array(vec![]).encode(), b"*0\r\n".to_vec());
}

#[test]
fn decode_of_encode_round_trips() {
    let frame = Frame::Array(vec![
        Frame::Simple("one".to_owned()),
        Frame::Integer(791),
        Frame::Bulk(vec![0, 13, 10, 255]),
        Frame::Nil,
        Frame::Array(vec![Frame::Error("err".to_owned())]),
    ]);
    let bytes = frame.encode();
    let (decoded, end) = Frame::parse(&bytes, 0).unwrap();
    assert_eq!(decoded, frame);
    assert_eq!(end, bytes.len());
}

#[test]
fn binary_safe_bulk_round_trips() {
    // A payload full of CR LF pairs must not confuse the length-prefixed
    // framing.
    let frame = Frame::Bulk(b"\r\n\r\n\r\n".to_vec());
    let bytes = frame.encode();
    assert_eq!(bytes, b"$6\r\n\r\n\r\n\r\n\r\n".to_vec());
    let (decoded, end) = Frame::parse(&bytes, 0).unwrap();
    assert_eq!(decoded, frame);
    assert_eq!(end, bytes.len());
}

#[test]
fn clone_preserves_the_frame() {
    let frame = Frame::Array(vec![
        Frame::Simple("a".to_owned()),
        Frame::Bulk(vec![1, 2, 3]),
    ]);
    assert_eq!(frame.clone(), frame);
}

#[test]
fn to_text_renders_the_scalar_kinds() {
    assert_eq!(
        Frame::Simple("PONG".to_owned()).to_text(),
        Some("PONG".to_owned())
    );
    assert_eq!(
        Frame::Error("bad".to_owned()).to_text(),
        Some("error: bad".to_owned())
    );
    assert_eq!(Frame::Integer(791).to_text(), Some("791".to_owned()));
    assert_eq!(Frame::Nil.to_text(), None);
    assert_eq!(Frame::Bulk(vec![1]).to_text(), None);
    assert_eq!(Frame::Array(vec![]).to_text(), None);
}

#[test]
fn error_messages_render() {
    assert_eq!(Error::StreamEndedEarly.message(), "stream ended early");
    assert_eq!(
        Error::due_to_protocol("invalid frame").message(),
        "protocol error, invalid frame"
    );
}
