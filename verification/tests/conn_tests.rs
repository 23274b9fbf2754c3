use minikv::codec::encode;
use minikv::command::{parse_command, Command};
use minikv::conn::{apply_command, Action, Connection, Phase};
use minikv::frame::Frame;
use minikv::store::Store;

fn bulk(s: &[u8]) -> Frame {
    Frame::Bulk(s.to_vec())
}

/// Feeds bytes and expects the next step to produce exactly one reply.
fn step_reply(conn: &mut Connection, store: &mut Store, input: &[u8]) -> Vec<u8> {
    conn.feed(&input.to_vec());
    match conn.advance(store) {
        Action::Reply(bytes) => bytes,
        other => panic!("expected a reply, got {:?}", other),
    }
}

#[test]
fn set_then_get_over_the_wire() {
    // client A binds hello -> world, reads it back, and client B sees it too
    let mut store = Store::new();
    let mut a = Connection::new();

    let reply = step_reply(&mut a, &mut store, b"*3\r\n$3\r\nSET\r\n$5\r\nhello\r\n$5\r\nworld\r\n");
    assert_eq!(reply, b"+OK\r\n".to_vec());
    a.reply_sent(true);

    let reply = step_reply(&mut a, &mut store, b"*2\r\n$3\r\nGET\r\n$5\r\nhello\r\n");
    assert_eq!(reply, b"$5\r\nworld\r\n".to_vec());
    a.reply_sent(true);

    let mut b = Connection::new();
    let reply = step_reply(&mut b, &mut store, b"*2\r\n$3\r\nGET\r\n$5\r\nhello\r\n");
    assert_eq!(reply, b"$5\r\nworld\r\n".to_vec());
}

#[test]
fn get_of_absent_key_replies_null() {
    let mut store = Store::new();
    let mut conn = Connection::new();
    let reply = step_reply(&mut conn, &mut store, b"*2\r\n$3\r\nGET\r\n$6\r\nabsent\r\n");
    assert_eq!(reply, b"$-1\r\n".to_vec());
}

#[test]
fn partial_request_waits_for_more_bytes() {
    let mut store = Store::new();
    let mut conn = Connection::new();
    conn.feed(&b"*2\r\n$3\r\nGE".to_vec());
    assert_eq!(conn.advance(&mut store), Action::NeedInput);
    conn.feed(&b"T\r\n$1\r\nk\r\n".to_vec());
    match conn.advance(&mut store) {
        Action::Reply(bytes) => assert_eq!(bytes, b"$-1\r\n".to_vec()),
        other => panic!("expected a reply, got {:?}", other),
    }
}

#[test]
fn replies_keep_request_order() {
    // two pipelined requests: the first reply comes, and nothing more is
    // decoded until it is reported written
    let mut store = Store::new();
    let mut conn = Connection::new();
    conn.feed(&b"*3\r\n$3\r\nSET\r\n$1\r\nk\r\n$1\r\nv\r\n*2\r\n$3\r\nGET\r\n$1\r\nk\r\n".to_vec());

    match conn.advance(&mut store) {
        Action::Reply(bytes) => assert_eq!(bytes, b"+OK\r\n".to_vec()),
        other => panic!("expected the SET reply, got {:?}", other),
    }
    // the reply is still owed: the second request must not be decoded yet
    assert_eq!(conn.advance(&mut store), Action::AwaitReply);
    conn.reply_sent(true);

    match conn.advance(&mut store) {
        Action::Reply(bytes) => assert_eq!(bytes, b"$1\r\nv\r\n".to_vec()),
        other => panic!("expected the GET reply, got {:?}", other),
    }
}

#[test]
fn unsupported_command_errs_but_connection_lives() {
    let mut store = Store::new();
    let mut conn = Connection::new();
    // DEL is not a command of this service
    let reply = step_reply(&mut conn, &mut store, b"*2\r\n$3\r\nDEL\r\n$1\r\nk\r\n");
    assert_eq!(reply, b"-ERR unsupported command\r\n".to_vec());
    conn.reply_sent(true);
    // the same connection still serves requests
    let reply = step_reply(&mut conn, &mut store, b"*2\r\n$3\r\nGET\r\n$1\r\nk\r\n");
    assert_eq!(reply, b"$-1\r\n".to_vec());
}

#[test]
fn wrong_argument_count_is_a_command_error() {
    let mut store = Store::new();
    let mut conn = Connection::new();
    let reply = step_reply(&mut conn, &mut store, b"*1\r\n$3\r\nGET\r\n");
    assert_eq!(reply, b"-ERR unsupported command\r\n".to_vec());
    conn.reply_sent(true);
    let reply = step_reply(&mut conn, &mut store, b"*2\r\n$3\r\nSET\r\n$1\r\nk\r\n");
    assert_eq!(reply, b"-ERR unsupported command\r\n".to_vec());
}

#[test]
fn command_names_are_case_sensitive() {
    let mut store = Store::new();
    let mut conn = Connection::new();
    let reply = step_reply(&mut conn, &mut store, b"*2\r\n$3\r\nget\r\n$1\r\nk\r\n");
    assert_eq!(reply, b"-ERR unsupported command\r\n".to_vec());
}

#[test]
fn invalid_tag_closes_without_reply_and_spares_the_store() {
    let mut store = Store::new();
    let mut healthy = Connection::new();
    let reply = step_reply(&mut healthy, &mut store, b"*3\r\n$3\r\nSET\r\n$1\r\nk\r\n$1\r\nv\r\n");
    assert_eq!(reply, b"+OK\r\n".to_vec());
    healthy.reply_sent(true);

    // another connection sends garbage: no reply, terminal close
    let mut broken = Connection::new();
    broken.feed(&b"!not a frame\r\n".to_vec());
    assert_eq!(broken.advance(&mut store), Action::Ended);
    assert_eq!(broken.phase, Phase::Closed);
    assert_eq!(broken.advance(&mut store), Action::Ended);

    // the store and the healthy connection are unaffected
    let reply = step_reply(&mut healthy, &mut store, b"*2\r\n$3\r\nGET\r\n$1\r\nk\r\n");
    assert_eq!(reply, b"$1\r\nv\r\n".to_vec());
}

#[test]
fn failed_write_closes_the_connection() {
    let mut store = Store::new();
    let mut conn = Connection::new();
    let _ = step_reply(&mut conn, &mut store, b"*2\r\n$3\r\nGET\r\n$1\r\nk\r\n");
    conn.reply_sent(false);
    assert_eq!(conn.phase, Phase::Closed);
    assert_eq!(conn.advance(&mut store), Action::Ended);
}

#[test]
fn peer_shutdown_closes_the_connection() {
    let mut store = Store::new();
    let mut conn = Connection::new();
    conn.close();
    assert_eq!(conn.phase, Phase::Closed);
    assert_eq!(conn.advance(&mut store), Action::Ended);
}

#[test]
fn interleaved_connections_share_one_keyspace() {
    // concurrent-style interleaving of two connections on distinct keys:
    // neither write disturbs the other, both become visible everywhere
    let mut store = Store::new();
    let mut a = Connection::new();
    let mut b = Connection::new();

    let ra = step_reply(&mut a, &mut store, b"*3\r\n$3\r\nSET\r\n$2\r\nka\r\n$2\r\nva\r\n");
    let rb = step_reply(&mut b, &mut store, b"*3\r\n$3\r\nSET\r\n$2\r\nkb\r\n$2\r\nvb\r\n");
    assert_eq!(ra, b"+OK\r\n".to_vec());
    assert_eq!(rb, b"+OK\r\n".to_vec());
    a.reply_sent(true);
    b.reply_sent(true);

    let ra = step_reply(&mut a, &mut store, b"*2\r\n$3\r\nGET\r\n$2\r\nkb\r\n");
    let rb = step_reply(&mut b, &mut store, b"*2\r\n$3\r\nGET\r\n$2\r\nka\r\n");
    assert_eq!(ra, b"$2\r\nvb\r\n".to_vec());
    assert_eq!(rb, b"$2\r\nva\r\n".to_vec());
}

#[test]
fn parse_command_classifies_requests() {
    let get = parse_command(Frame::Array(vec![bulk(b"GET"), bulk(b"k")]));
    assert_eq!(get, Command::Get { key: b"k".to_vec() });

    let set = parse_command(Frame::Array(vec![bulk(b"SET"), bulk(b"k"), bulk(b"v")]));
    assert_eq!(set, Command::Put { key: b"k".to_vec(), value: b"v".to_vec() });

    let other = parse_command(Frame::Integer(5));
    assert_eq!(other, Command::Unsupported { original: Frame::Integer(5) });

    // a non-bulk argument is not a command
    let odd = parse_command(Frame::Array(vec![bulk(b"GET"), Frame::Integer(1)]));
    assert!(matches!(odd, Command::Unsupported { .. }));
}

#[test]
fn apply_command_runs_against_the_store() {
    let mut store = Store::new();
    let reply = apply_command(
        &mut store,
        Command::Put { key: b"k".to_vec(), value: b"v".to_vec() },
    );
    assert_eq!(reply, Frame::Simple(b"OK".to_vec()));
    let reply = apply_command(&mut store, Command::Get { key: b"k".to_vec() });
    assert_eq!(reply, bulk(b"v"));
    let reply = apply_command(&mut store, Command::Unsupported { original: Frame::Null });
    assert_eq!(reply, Frame::Error(b"ERR unsupported command".to_vec()));
    // the reply frames encode to the exact wire bytes
    assert_eq!(encode(&bulk(b"v")), b"$1\r\nv\r\n".to_vec());
}
