use minikv::codec::{decode, encode, Decoded};
use minikv::frame::Frame;

fn bulk(s: &[u8]) -> Frame {
    Frame::Bulk(s.to_vec())
}

fn round_trip(f: Frame) {
    let bytes = encode(&f);
    match decode(&bytes) {
        Decoded::Complete(back, used) => {
            assert_eq!(used, bytes.len());
            assert_eq!(back, f);
        },
        other => panic!("expected a complete frame, got {:?}", other),
    }
}

#[test]
fn encodes_simple_string() {
    assert_eq!(encode(&Frame::Simple(b"OK".to_vec())), b"+OK\r\n".to_vec());
}

#[test]
fn encodes_error_string() {
    assert_eq!(
        encode(&Frame::Error(b"ERR unsupported command".to_vec())),
        b"-ERR unsupported command\r\n".to_vec()
    );
}

#[test]
fn encodes_integers() {
    assert_eq!(encode(&Frame::Integer(0)), b":0\r\n".to_vec());
    assert_eq!(encode(&Frame::Integer(1234)), b":1234\r\n".to_vec());
    assert_eq!(encode(&Frame::Integer(-7)), b":-7\r\n".to_vec());
    assert_eq!(
        encode(&Frame::Integer(i64::MIN)),
        b":-9223372036854775808\r\n".to_vec()
    );
    assert_eq!(
        encode(&Frame::Integer(i64::MAX)),
        b":9223372036854775807\r\n".to_vec()
    );
}

#[test]
fn encodes_bulk_and_null() {
    assert_eq!(encode(&bulk(b"hello")), b"$5\r\nhello\r\n".to_vec());
    assert_eq!(encode(&bulk(b"")), b"$0\r\n\r\n".to_vec());
    assert_eq!(encode(&Frame::Null), b"$-1\r\n".to_vec());
}

#[test]
fn encodes_request_array() {
    let req = Frame::Array(vec![bulk(b"SET"), bulk(b"hello"), bulk(b"world")]);
    assert_eq!(
        encode(&req),
        b"*3\r\n$3\r\nSET\r\n$5\r\nhello\r\n$5\r\nworld\r\n".to_vec()
    );
}

#[test]
fn round_trips_every_frame_kind() {
    round_trip(Frame::Simple(b"OK".to_vec()));
    round_trip(Frame::Error(b"ERR bad".to_vec()));
    round_trip(Frame::Integer(-42));
    round_trip(Frame::Integer(i64::MIN));
    round_trip(bulk(b"binary\x00\xff bytes"));
    round_trip(bulk(b""));
    round_trip(Frame::Null);
    round_trip(Frame::Array(vec![bulk(b"GET"), bulk(b"k")]));
    round_trip(Frame::Array(vec![]));
    round_trip(Frame::Array(vec![
        Frame::Integer(1),
        Frame::Null,
        Frame::Array(vec![bulk(b"nested")]),
    ]));
}

#[test]
fn decode_consumes_only_the_first_frame() {
    let mut bytes = encode(&Frame::Simple(b"OK".to_vec()));
    let second = encode(&bulk(b"rest"));
    bytes.extend_from_slice(&second);
    match decode(&bytes) {
        Decoded::Complete(f, used) => {
            assert_eq!(f, Frame::Simple(b"OK".to_vec()));
            assert_eq!(used, 5);
            assert_eq!(&bytes[used..], &second[..]);
        },
        other => panic!("expected a complete frame, got {:?}", other),
    }
}

#[test]
fn partial_frames_are_incomplete() {
    let full = b"*3\r\n$3\r\nSET\r\n$5\r\nhello\r\n$5\r\nworld\r\n";
    for cut in 0..full.len() {
        let part = full[..cut].to_vec();
        assert_eq!(decode(&part), Decoded::Incomplete, "cut at {}", cut);
    }
    match decode(&full.to_vec()) {
        Decoded::Complete(_, used) => assert_eq!(used, full.len()),
        other => panic!("expected a complete frame, got {:?}", other),
    }
}

#[test]
fn empty_buffer_is_incomplete() {
    assert_eq!(decode(&Vec::new()), Decoded::Incomplete);
}

#[test]
fn invalid_tag_is_malformed() {
    assert_eq!(decode(&b"!oops\r\n".to_vec()), Decoded::Malformed);
    assert_eq!(decode(&b"GET hello\r\n".to_vec()), Decoded::Malformed);
}

#[test]
fn bad_numbers_are_malformed() {
    assert_eq!(decode(&b"$x\r\n".to_vec()), Decoded::Malformed);
    assert_eq!(decode(&b"$\r\n".to_vec()), Decoded::Malformed);
    assert_eq!(decode(&b"$-2\r\n".to_vec()), Decoded::Malformed);
    assert_eq!(decode(&b"*-1\r\n".to_vec()), Decoded::Malformed);
    assert_eq!(decode(&b":12a\r\n".to_vec()), Decoded::Malformed);
    assert_eq!(decode(&b":-\r\n".to_vec()), Decoded::Malformed);
    // an integer beyond 64 bits can never be represented
    assert_eq!(
        decode(&b":99999999999999999999999999\r\n".to_vec()),
        Decoded::Malformed
    );
}

#[test]
fn stray_line_breaks_are_malformed() {
    assert_eq!(decode(&b"+sta\ntus\r\n".to_vec()), Decoded::Malformed);
    assert_eq!(decode(&b"+sta\rtus\r\n".to_vec()), Decoded::Malformed);
}

#[test]
fn bulk_payload_must_end_with_crlf() {
    assert_eq!(decode(&b"$3\r\nabcde\r\n".to_vec()), Decoded::Malformed);
    match decode(&b"$3\r\nabc\r\n".to_vec()) {
        Decoded::Complete(f, 9) => assert_eq!(f, bulk(b"abc")),
        other => panic!("expected a complete bulk frame, got {:?}", other),
    }
}

#[test]
fn lenient_digits_still_decode() {
    // leading zeros and a signed zero are read by value
    match decode(&b":007\r\n".to_vec()) {
        Decoded::Complete(f, 6) => assert_eq!(f, Frame::Integer(7)),
        other => panic!("expected an integer frame, got {:?}", other),
    }
    match decode(&b"$-01\r\n".to_vec()) {
        Decoded::Complete(f, 6) => assert_eq!(f, Frame::Null),
        other => panic!("expected the null frame, got {:?}", other),
    }
    match decode(&b":-0\r\n".to_vec()) {
        Decoded::Complete(f, 5) => assert_eq!(f, Frame::Integer(0)),
        other => panic!("expected an integer frame, got {:?}", other),
    }
}

#[test]
fn huge_bulk_length_waits_for_bytes() {
    // a length far beyond the buffer cannot complete yet
    assert_eq!(
        decode(&b"$99999999999999999999\r\nabc".to_vec()),
        Decoded::Incomplete
    );
}

#[test]
fn duplicate_copies_deeply() {
    let f = Frame::Array(vec![bulk(b"GET"), Frame::Array(vec![Frame::Integer(3)])]);
    let c = f.duplicate();
    assert_eq!(c, f);
}
