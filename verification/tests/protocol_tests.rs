use kvstore::codec::{encode_response, parse_request};
use kvstore::frame::FrameBuffer;
use kvstore::protocol::{handle_line, operation_of, response_of};
use kvstore::store::Store;

#[test]
fn scenario_set_get_and_missing() {
    let mut store = Store::new();

    let reply = handle_line(&mut store, b"SET foo bar").expect("SET must succeed");
    assert_eq!(reply, b"SET foo\n".to_vec());

    let reply = handle_line(&mut store, b"GET foo").expect("GET must succeed");
    assert_eq!(reply, b"GET foo bar\n".to_vec());

    let reply = handle_line(&mut store, b"GET missing").expect("GET must succeed");
    assert_eq!(reply, b"GET missing ABSENT\n".to_vec());
}

#[test]
fn malformed_line_leaves_store_unchanged() {
    let mut store = Store::new();
    handle_line(&mut store, b"SET foo bar").expect("SET must succeed");

    assert!(handle_line(&mut store, b"SET keyonly").is_err());

    // The store still answers as before the bad line.
    let reply = handle_line(&mut store, b"GET foo").expect("GET must succeed");
    assert_eq!(reply, b"GET foo bar\n".to_vec());
}

#[test]
fn connections_share_one_store() {
    // Two drivers against the same engine: a SET on one connection is
    // visible to a GET on the other as soon as it is applied.
    let mut store = Store::new();
    let first = handle_line(&mut store, b"SET shared 42").expect("SET must succeed");
    assert_eq!(first, b"SET shared\n".to_vec());
    let second = handle_line(&mut store, b"GET shared").expect("GET must succeed");
    assert_eq!(second, b"GET shared 42\n".to_vec());
}

#[test]
fn framed_requests_drive_the_store() {
    let mut fb = FrameBuffer::new();
    let mut store = Store::new();
    let mut replies: Vec<Vec<u8>> = Vec::new();

    // One connection's byte stream, segmented arbitrarily.
    fb.feed(b"SET foo ba");
    while let Some(line) = fb.next_frame() {
        replies.push(handle_line(&mut store, &line).expect("well-formed line"));
    }
    fb.feed(b"r\nGET foo\n");
    while let Some(line) = fb.next_frame() {
        replies.push(handle_line(&mut store, &line).expect("well-formed line"));
    }

    assert_eq!(replies, vec![b"SET foo\n".to_vec(), b"GET foo bar\n".to_vec()]);
}

#[test]
fn engine_path_matches_direct_service() {
    // Serving through the engine (as the connection driver does over its
    // channel) gives byte-for-byte the reply of serving in place.
    let mut direct = Store::new();
    let expected = handle_line(&mut direct, b"SET foo bar").expect("SET must succeed");

    let mut engine = Store::new();
    let req = parse_request(b"SET foo bar").expect("well-formed line");
    let res = engine.apply(operation_of(req));
    let mut reply = encode_response(&response_of(res));
    reply.push(b'\n');
    assert_eq!(reply, expected);
}
