use kvs::protocol::{parse_request, parse_response, Request, Response};

fn chars(s: &str) -> Vec<char> {
    s.chars().collect()
}

fn text(v: &[char]) -> String {
    v.iter().collect()
}

#[test]
fn request_get() {
    match parse_request(&chars("GET key\n")) {
        Request::Get { key } => assert_eq!(text(&key), "key"),
        _ => panic!("expected GET"),
    }
}

#[test]
fn request_get_keeps_inner_blanks() {
    match parse_request(&chars("  GET  a b \r\n")) {
        Request::Get { key } => assert_eq!(text(&key), " a b"),
        _ => panic!("expected GET"),
    }
}

#[test]
fn request_set() {
    match parse_request(&chars("SET k v\n")) {
        Request::Store { key, value } => {
            assert_eq!(text(&key), "k");
            assert_eq!(text(&value), "v");
        }
        _ => panic!("expected SET"),
    }
}

#[test]
fn request_set_needs_two_words() {
    assert!(matches!(parse_request(&chars("SET k")), Request::InvalidInput));
    assert!(matches!(parse_request(&chars("SET k v w")), Request::InvalidInput));
    assert!(matches!(parse_request(&chars("SET  k v")), Request::InvalidInput));
}

#[test]
fn request_remove() {
    match parse_request(&chars("REMOVE gone")) {
        Request::Remove { key } => assert_eq!(text(&key), "gone"),
        _ => panic!("expected REMOVE"),
    }
}

#[test]
fn request_unknown_verb() {
    assert!(matches!(parse_request(&chars("DELETE k")), Request::InvalidCommand));
    assert!(matches!(parse_request(&chars("get k")), Request::InvalidCommand));
}

#[test]
fn request_without_argument() {
    assert!(matches!(parse_request(&chars("GET\n")), Request::MissingArgument));
    assert!(matches!(parse_request(&chars("")), Request::MissingArgument));
    assert!(matches!(parse_request(&chars(" \u{3000}\t")), Request::MissingArgument));
}

#[test]
fn response_ok() {
    match parse_response(&chars("Ok \"v 1\"")) {
        Response::Success { payload } => assert_eq!(text(&payload), "\"v 1\""),
        _ => panic!("expected Ok"),
    }
}

#[test]
fn response_err() {
    match parse_response(&chars("Err Key not found")) {
        Response::Failure { message } => assert_eq!(text(&message), "Key not found"),
        _ => panic!("expected Err"),
    }
}

#[test]
fn response_other_shapes() {
    assert!(matches!(parse_response(&chars("")), Response::Empty));
    assert!(matches!(parse_response(&chars("Maybe x")), Response::Unknown));
    assert!(matches!(parse_response(&chars("Ok")), Response::MissingPayload));
}
