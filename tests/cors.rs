use hanabi_auth::cors::{find_header, preflight, simple, CorsPolicy};
use hanabi_auth::http::{HttpError, Method, Pair, Protocol, Request, Response};
use hanabi_auth::services::auth_policy;

fn pair(n: &str, v: &str) -> Pair {
    Pair { name: n.as_bytes().to_vec(), value: v.as_bytes().to_vec() }
}

fn request(method: Method, headers: Vec<Pair>) -> Request {
    Request { method, path: b"/auth/user".to_vec(), query: None, proto: Protocol::Http11, headers, body: None }
}

fn header<'a>(resp: &'a Response, name: &str) -> Option<&'a [u8]> {
    find_header(&resp.headers, name.as_bytes()).map(|i| resp.headers[i].value.as_slice())
}

#[test]
fn unlisted_origin_is_denied() {
    let policy = auth_policy();
    for m in [Method::Get, Method::Post, Method::Options, Method::Delete] {
        let req = request(m, vec![pair("Origin", "http://evil.example"), pair("Access-Control-Request-Method", "POST")]);
        let mut resp = Response::new(Protocol::Http11);
        assert_eq!(simple(&req, &mut resp, &policy), Err(HttpError::PolicyDenied));
        assert_eq!(preflight(&req, &mut resp, &policy), Err(HttpError::PolicyDenied));
        assert!(resp.headers.is_empty());
    }
}

#[test]
fn wildcard_origin_is_never_allowed() {
    let policy = CorsPolicy {
        origins: vec![b"*".to_vec()],
        methods: vec![Method::Get],
        any_header: true,
        headers: vec![],
        credentials: true,
    };
    let req = request(Method::Get, vec![pair("Origin", "*")]);
    let mut resp = Response::new(Protocol::Http11);
    assert_eq!(simple(&req, &mut resp, &policy), Err(HttpError::PolicyDenied));
}

#[test]
fn allowed_origin_is_echoed_with_credentials() {
    let policy = auth_policy();
    let req = request(Method::Get, vec![pair("origin", "http://localhost:3001")]);
    let mut resp = Response::new(Protocol::Http11);
    assert_eq!(simple(&req, &mut resp, &policy), Ok(()));
    assert_eq!(header(&resp, "Access-Control-Allow-Origin"), Some(&b"http://localhost:3001"[..]));
    assert_eq!(header(&resp, "Access-Control-Allow-Credentials"), Some(&b"true"[..]));
}

#[test]
fn preflight_grants_methods_and_headers() {
    let policy = auth_policy();
    let req = request(
        Method::Options,
        vec![
            pair("Origin", "http://localhost:3000"),
            pair("Access-Control-Request-Method", "PUT"),
            pair("Access-Control-Request-Headers", "Content-Type, content-length"),
        ],
    );
    let mut resp = Response::new(Protocol::Http11);
    assert_eq!(preflight(&req, &mut resp, &policy), Ok(()));
    assert_eq!(header(&resp, "Access-Control-Allow-Origin"), Some(&b"http://localhost:3000"[..]));
    assert_eq!(header(&resp, "Access-Control-Allow-Methods"), Some(&b"POST,PUT"[..]));
    assert_eq!(header(&resp, "Access-Control-Allow-Headers"), Some(&b"content-type,content-length,set-cookie"[..]));
}

#[test]
fn preflight_refuses_method_or_header() {
    let policy = auth_policy();
    let req = request(Method::Options, vec![pair("Origin", "http://localhost:3000"), pair("Access-Control-Request-Method", "DELETE")]);
    let mut resp = Response::new(Protocol::Http11);
    assert_eq!(preflight(&req, &mut resp, &policy), Err(HttpError::PolicyDenied));
    let req = request(Method::Options, vec![pair("Origin", "http://localhost:3000"), pair("Access-Control-Request-Headers", "x-secret")]);
    assert_eq!(preflight(&req, &mut resp, &policy), Err(HttpError::PolicyDenied));
    assert!(resp.headers.is_empty());
}

#[test]
fn request_without_origin_gets_no_cors_headers() {
    let policy = auth_policy();
    let req = request(Method::Get, vec![pair("Host", "x")]);
    let mut resp = Response::new(Protocol::Http11);
    assert_eq!(simple(&req, &mut resp, &policy), Ok(()));
    assert!(resp.headers.is_empty());
}
