use respwire::frame::{Error, Frame};
use respwire::Connection;

#[test]
fn frames_arrive_in_order_across_one_feed() {
    let mut conn = Connection::new();
    conn.feed(&b"+one\r\n+two\r\n".to_vec()).unwrap();
    assert_eq!(
        conn.try_read_frame().unwrap(),
        Some(Frame::Simple("one".to_owned()))
    );
    assert_eq!(
        conn.try_read_frame().unwrap(),
        Some(Frame::Simple("two".to_owned()))
    );
    assert_eq!(conn.try_read_frame().unwrap(), None);
}

#[test]
fn feeding_byte_at_a_time_matches_feeding_all_at_once() {
    let wire = b"*2\r\n$3\r\nfoo\r\n:7\r\n".to_vec();

    // All at once.
    let (expected, consumed) = Frame::parse(&wire, 0).unwrap();
    assert_eq!(consumed, wire.len());

    // One byte at a time: Incomplete until the very last byte lands.
    let mut conn = Connection::new();
    for (i, byte) in wire.iter().enumerate() {
        conn.feed(&vec![*byte]).unwrap();
        let got = conn.try_read_frame().unwrap();
        if i + 1 < wire.len() {
            assert_eq!(got, None, "premature frame after {} bytes", i + 1);
        } else {
            assert_eq!(got, Some(expected.clone()));
        }
    }
    // The cursor advanced by exactly the encoded length: nothing pends.
    assert_eq!(conn.pending(), 0);
}

#[test]
fn clean_close_on_empty_buffer() {
    let conn = Connection::new();
    assert!(conn.stream_end().is_ok());
}

#[test]
fn close_with_partial_frame_is_fatal() {
    let mut conn = Connection::new();
    conn.feed(&b"$5\r\nHel".to_vec()).unwrap();
    // Not decodable yet: the declared length exceeds what is buffered.
    assert_eq!(conn.try_read_frame().unwrap(), None);
    // A zero-byte read now means the peer closed mid-frame.
    match conn.stream_end() {
        Err(Error::StreamEndedEarly) => {}
        other => panic!("expected StreamEndedEarly, got {:?}", other),
    }
}

#[test]
fn malformed_bytes_fail_the_connection() {
    let mut conn = Connection::new();
    conn.feed(&b"?\r\n".to_vec()).unwrap();
    match conn.try_read_frame() {
        Err(Error::Protocol(_)) => {}
        other => panic!("expected Protocol error, got {:?}", other),
    }
}

#[test]
fn consumed_prefix_is_discarded() {
    let mut conn = Connection::new();
    conn.feed(&b"+ok\r\n$3\r\nab".to_vec()).unwrap();
    assert_eq!(
        conn.try_read_frame().unwrap(),
        Some(Frame::Simple("ok".to_owned()))
    );
    assert_eq!(conn.pending(), 6);
    conn.feed(&b"c\r\n".to_vec()).unwrap();
    assert_eq!(
        conn.try_read_frame().unwrap(),
        Some(Frame::Bulk(b"abc".to_vec()))
    );
    assert_eq!(conn.pending(), 0);
}

#[test]
fn feed_refuses_to_grow_past_the_bound() {
    let mut conn = Connection::new();
    let oversized = vec![43u8; respwire::MAX_BUFFER_BYTES + 1];
    match conn.feed(&oversized) {
        Err(Error::Protocol(_)) => {}
        other => panic!("expected Protocol error, got {:?}", other),
    }
    // The refused bytes were not kept.
    assert_eq!(conn.pending(), 0);
}
