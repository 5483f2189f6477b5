use hanabi_auth::http::{HttpError, Method, Pair, Protocol, Request, Response, Status};
use hanabi_auth::wire::{encode_request, parse, serialize};

fn pair(n: &str, v: &str) -> Pair {
    Pair { name: n.as_bytes().to_vec(), value: v.as_bytes().to_vec() }
}

#[test]
fn parses_request_line_headers_and_body() {
    let raw = b"POST /auth/user?user=7&x HTTP/1.1\r\nHost: here\r\nContent-Length: 5\r\n\r\nhello world";
    let req = parse(raw).unwrap();
    assert_eq!(req.method, Method::Post);
    assert_eq!(req.path, b"/auth/user".to_vec());
    assert_eq!(req.query, Some(vec![pair("user", "7"), pair("x", "")]));
    assert_eq!(req.proto, Protocol::Http11);
    assert_eq!(req.headers, vec![pair("Host", "here"), pair("Content-Length", "5")]);
    assert_eq!(req.body, Some(b"hello".to_vec()));
}

#[test]
fn body_without_length_is_the_rest() {
    let req = parse(b"PUT /a HTTP/1.0\r\n\r\nabc").unwrap();
    assert_eq!(req.proto, Protocol::Http10);
    assert_eq!(req.body, Some(b"abc".to_vec()));
    let req = parse(b"GET /a HTTP/1.1\r\n\r\n").unwrap();
    assert_eq!(req.body, None);
    assert_eq!(req.query, None);
}

#[test]
fn missing_blank_line_is_malformed() {
    assert_eq!(parse(b"GET / HTTP/1.1\r\nHost: x\r\n"), Err(HttpError::MalformedInput));
    assert_eq!(parse(b"GET / HTTP/1.1"), Err(HttpError::MalformedInput));
    assert_eq!(parse(b""), Err(HttpError::MalformedInput));
}

#[test]
fn malformed_request_lines() {
    assert_eq!(parse(b"FETCH / HTTP/1.1\r\n\r\n"), Err(HttpError::MalformedInput));
    assert_eq!(parse(b"GET / HTTP/2\r\n\r\n"), Err(HttpError::MalformedInput));
    assert_eq!(parse(b"GET /\r\n\r\n"), Err(HttpError::MalformedInput));
    assert_eq!(parse(b"GET / HTTP/1.1\r\nno colon\r\n\r\n"), Err(HttpError::MalformedInput));
    assert_eq!(parse(b"GET / HTTP/1.1\rx\n\r\n"), Err(HttpError::MalformedInput));
}

#[test]
fn unsatisfiable_length_is_malformed() {
    assert_eq!(parse(b"POST / HTTP/1.1\r\ncontent-length: 9\r\n\r\nshort"), Err(HttpError::MalformedInput));
    assert_eq!(parse(b"POST / HTTP/1.1\r\nContent-Length: x1\r\n\r\nshort"), Err(HttpError::MalformedInput));
}

#[test]
fn request_round_trip() {
    let req = Request {
        method: Method::Options,
        path: b"/auth/user".to_vec(),
        query: Some(vec![pair("user", "7"), pair("a", "")]),
        proto: Protocol::Http11,
        headers: vec![pair("Origin", "http://localhost:3000"), pair("Content-Length", "3"), pair("X", " spaced")],
        body: Some(b"a=b".to_vec()),
    };
    let bytes = encode_request(&req);
    assert_eq!(parse(&bytes), Ok(req));
}

#[test]
fn request_encoding_is_exact() {
    let req = Request {
        method: Method::Get,
        path: b"/p".to_vec(),
        query: Some(vec![]),
        proto: Protocol::Http10,
        headers: vec![pair("A", "b")],
        body: None,
    };
    assert_eq!(encode_request(&req), b"GET /p? HTTP/1.0\r\nA: b\r\n\r\n".to_vec());
}

#[test]
fn response_serialization_keeps_header_order() {
    let mut resp = Response::new(Protocol::Http11);
    resp.status = Status::Created;
    resp.add_header(b"B".to_vec(), b"2".to_vec());
    resp.add_header(b"A".to_vec(), b"1".to_vec());
    resp.add_header(b"B".to_vec(), b"3".to_vec());
    resp.body = b"done".to_vec();
    assert_eq!(serialize(&resp), b"HTTP/1.1 201 Created\r\nB: 2\r\nA: 1\r\nB: 3\r\n\r\ndone".to_vec());
}

#[test]
fn error_codes() {
    assert_eq!(HttpError::MalformedInput.code(), 400);
    assert_eq!(HttpError::PolicyDenied.code(), 403);
    assert_eq!(HttpError::NotFound.code(), 404);
    assert_eq!(HttpError::CredentialFailure.code(), 500);
    assert_eq!(Status::Success.reason(), b"OK".to_vec());
    assert_eq!(Status::InternalServerError.reason(), b"Internal Server Error".to_vec());
}

#[test]
fn cleared_response_is_empty() {
    let mut resp = Response::new(Protocol::Http11);
    resp.status = Status::NotFound;
    resp.add_header(b"A".to_vec(), b"1".to_vec());
    resp.body = b"x".to_vec();
    resp.clear();
    assert_eq!(serialize(&resp), b"HTTP/1.1 200 OK\r\n\r\n".to_vec());
}
