use kvstore::codec::{encode_request, encode_response, parse_request, parse_response, Request,
    Response};

#[test]
fn parse_get_line() {
    let r = parse_request(b"GET foo");
    match r {
        Ok(Request::Get { key }) => assert_eq!(key, b"foo".to_vec()),
        _ => panic!("expected a GET request"),
    }
}

#[test]
fn parse_set_line() {
    let r = parse_request(b"SET foo bar");
    match r {
        Ok(Request::Put { key, value }) => {
            assert_eq!(key, b"foo".to_vec());
            assert_eq!(value, b"bar".to_vec());
        }
        _ => panic!("expected a SET request"),
    }
}

#[test]
fn parse_set_missing_value_is_error() {
    assert!(parse_request(b"SET keyonly").is_err());
}

#[test]
fn parse_unknown_keyword_is_error() {
    assert!(parse_request(b"DEL foo").is_err());
}

#[test]
fn parse_lowercase_keyword_is_error() {
    assert!(parse_request(b"get foo").is_err());
}

#[test]
fn parse_empty_line_is_error() {
    assert!(parse_request(b"").is_err());
}

#[test]
fn parse_get_empty_key_is_error() {
    assert!(parse_request(b"GET ").is_err());
}

#[test]
fn parse_set_extra_space_is_error() {
    assert!(parse_request(b"SET a b c").is_err());
}

#[test]
fn parse_set_empty_key_is_error() {
    assert!(parse_request(b"SET  value").is_err());
}

#[test]
fn encode_get_request() {
    let r = Request::Get { key: b"foo".to_vec() };
    assert_eq!(encode_request(&r), b"GET foo".to_vec());
}

#[test]
fn encode_set_request() {
    let r = Request::Put { key: b"foo".to_vec(), value: b"bar".to_vec() };
    assert_eq!(encode_request(&r), b"SET foo bar".to_vec());
}

#[test]
fn encode_get_response_present() {
    let r = Response::Get { key: b"foo".to_vec(), value: Some(b"bar".to_vec()) };
    assert_eq!(encode_response(&r), b"GET foo bar".to_vec());
}

#[test]
fn encode_get_response_absent_marker() {
    let r = Response::Get { key: b"foo".to_vec(), value: None };
    assert_eq!(encode_response(&r), b"GET foo ABSENT".to_vec());
}

#[test]
fn encode_set_response() {
    let r = Response::Put { key: b"foo".to_vec() };
    assert_eq!(encode_response(&r), b"SET foo".to_vec());
}

#[test]
fn request_round_trip_get() {
    let r = Request::Get { key: b"alpha".to_vec() };
    let line = encode_request(&r);
    match parse_request(&line) {
        Ok(Request::Get { key }) => assert_eq!(key, b"alpha".to_vec()),
        _ => panic!("round trip lost the GET fields"),
    }
}

#[test]
fn request_round_trip_set() {
    let r = Request::Put { key: b"alpha".to_vec(), value: b"beta".to_vec() };
    let line = encode_request(&r);
    match parse_request(&line) {
        Ok(Request::Put { key, value }) => {
            assert_eq!(key, b"alpha".to_vec());
            assert_eq!(value, b"beta".to_vec());
        }
        _ => panic!("round trip lost the SET fields"),
    }
}

#[test]
fn response_round_trip_absent() {
    let r = Response::Get { key: b"k".to_vec(), value: None };
    let line = encode_response(&r);
    match parse_response(&line) {
        Ok(Response::Get { key, value }) => {
            assert_eq!(key, b"k".to_vec());
            assert!(value.is_none());
        }
        _ => panic!("round trip lost the GET response fields"),
    }
}

#[test]
fn response_round_trip_present() {
    let r = Response::Get { key: b"k".to_vec(), value: Some(b"v".to_vec()) };
    let line = encode_response(&r);
    match parse_response(&line) {
        Ok(Response::Get { key, value }) => {
            assert_eq!(key, b"k".to_vec());
            assert_eq!(value, Some(b"v".to_vec()));
        }
        _ => panic!("round trip lost the GET response fields"),
    }
}
