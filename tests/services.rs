use hanabi_auth::cookie::read_set_cookie;
use hanabi_auth::cors::find_header;
use hanabi_auth::form::{advance, check_field, parse_value, Login, Register};
use hanabi_auth::http::{HttpError, Method, Response, Status};
use hanabi_auth::services::{handle, lookup, route_user_method, Auth, CredentialTable, Services, Credential};

fn request(method: &str, target: &str, headers: &[(&str, &str)], body: &str) -> Vec<u8> {
    let mut s = format!("{} {} HTTP/1.1\r\n", method, target);
    for (n, v) in headers {
        s.push_str(&format!("{}: {}\r\n", n, v));
    }
    if !body.is_empty() {
        s.push_str(&format!("Content-Length: {}\r\n", body.len()));
    }
    s.push_str("\r\n");
    s.push_str(body);
    s.into_bytes()
}

fn header<'a>(resp: &'a Response, name: &str) -> Option<&'a [u8]> {
    find_header(&resp.headers, name.as_bytes()).map(|i| resp.headers[i].value.as_slice())
}

#[test]
fn login_against_empty_store_fails() {
    let mut table = CredentialTable::new();
    let resp = handle(&mut table, &request("POST", "/auth/user", &[], "user_name=alice&user_pswd=wonder"));
    assert_eq!(resp.status, Status::InternalServerError);
    assert_eq!(resp.status.code(), 500);
}

#[test]
fn register_then_login() {
    let mut table = CredentialTable::new();
    let resp = handle(&mut table, &request("PUT", "/auth/user", &[], "method_override=put&user_name=alice&user_pswd=wonder"));
    assert_eq!(resp.status.code(), 201);
    assert_eq!(resp.body, b"new account created successfully".to_vec());
    let resp = handle(&mut table, &request("POST", "/auth/user", &[], "user_name=alice&user_pswd=wonder"));
    assert_eq!(resp.status.code(), 200);
    let cookie = header(&resp, "Set-Cookie").unwrap();
    let c = read_set_cookie(cookie).unwrap();
    assert_eq!(c.name, b"tkn".to_vec());
}

#[test]
fn login_with_wrong_password_fails() {
    let mut table = CredentialTable::new();
    handle(&mut table, &request("PUT", "/auth/user", &[], "method_override=put&user_name=alice&user_pswd=wonder"));
    let resp = handle(&mut table, &request("POST", "/auth/user", &[], "user_name=alice&user_pswd=wander"));
    assert_eq!(resp.status.code(), 500);
}

#[test]
fn post_with_override_registers() {
    let mut table = CredentialTable::new();
    let resp = handle(&mut table, &request("POST", "/auth/user", &[], "method_override=put&user_name=bob&user_pswd=pw"));
    assert_eq!(resp.status, Status::Created);
    assert!(table.find(b"bob", b"pw").is_some());
}

#[test]
fn get_with_user_query() {
    let mut table = CredentialTable::new();
    let resp = handle(&mut table, &request("GET", "/auth/user?user=7", &[], ""));
    assert_eq!(resp.status.code(), 200);
    assert_eq!(header(&resp, "Content-Length"), Some(&b"1"[..]));
    assert_eq!(header(&resp, "Content-Type"), Some(&b"text/plain"[..]));
    assert_eq!(resp.body, b"1".to_vec());
}

#[test]
fn get_without_query_is_bad_request() {
    let mut table = CredentialTable::new();
    assert_eq!(handle(&mut table, &request("GET", "/auth/user", &[], "")).status.code(), 400);
    assert_eq!(handle(&mut table, &request("GET", "/auth/user?user=300", &[], "")).status.code(), 400);
    assert_eq!(handle(&mut table, &request("GET", "/auth/user?name=7", &[], "")).status.code(), 400);
}

#[test]
fn get_from_unlisted_origin_is_forbidden() {
    let mut table = CredentialTable::new();
    let resp = handle(&mut table, &request("GET", "/auth/user?user=7", &[("Origin", "http://evil.example")], ""));
    assert_eq!(resp.status.code(), 403);
}

#[test]
fn options_issues_token_once() {
    let mut table = CredentialTable::new();
    let resp = handle(&mut table, &request("OPTIONS", "/auth/user", &[], ""));
    assert_eq!(resp.status.code(), 200);
    let c = read_set_cookie(header(&resp, "Set-Cookie").unwrap()).unwrap();
    assert_eq!(c.name, b"tkn".to_vec());
    assert_eq!(c.value, b"Traveller".to_vec());
    assert_eq!(c.attributes.max_age, Some(183));
    let resp = handle(&mut table, &request("OPTIONS", "/auth/user", &[("Cookie", "tkn=Traveller")], ""));
    assert_eq!(resp.status.code(), 200);
    assert_eq!(header(&resp, "Set-Cookie"), None);
}

#[test]
fn unknown_path_and_method() {
    let mut table = CredentialTable::new();
    assert_eq!(handle(&mut table, &request("GET", "/nowhere", &[], "")).status.code(), 404);
    assert_eq!(handle(&mut table, &request("PATCH", "/auth/user", &[], "")).status.code(), 400);
    assert_eq!(handle(&mut table, &request("DELETE", "/auth/user", &[], "")).status.code(), 200);
    assert_eq!(handle(&mut table, b"garbage").status.code(), 400);
}

#[test]
fn bad_forms_are_bad_requests() {
    let mut table = CredentialTable::new();
    assert_eq!(handle(&mut table, &request("POST", "/auth/user", &[], "user_pswd=x&user_name=y")).status.code(), 400);
    assert_eq!(handle(&mut table, &request("PUT", "/auth/user", &[], "user_name=y&user_pswd=x")).status.code(), 400);
    assert_eq!(handle(&mut table, &request("POST", "/auth/user", &[], "")).status.code(), 400);
}

#[test]
fn lookup_and_routing() {
    assert_eq!(lookup("/auth/user"), Ok(Services::Auth));
    assert_eq!(lookup("/auth/user/"), Err(HttpError::NotFound));
    assert_eq!(route_user_method(Method::Get, "x"), Ok(Method::Get));
    assert_eq!(route_user_method(Method::Post, "put"), Ok(Method::Put));
    assert_eq!(route_user_method(Method::Post, "post"), Ok(Method::Post));
    assert_eq!(route_user_method(Method::Post, "get"), Err(HttpError::MalformedInput));
    assert_eq!(route_user_method(Method::Put, "put"), Err(HttpError::MalformedInput));
}

#[test]
fn clearance_levels() {
    assert_eq!(Auth::new(0), Auth::Nameless);
    assert_eq!(Auth::new(1), Auth::Traveller);
    assert_eq!(Auth::new(2), Auth::Citizen);
    assert_eq!(Auth::new(4), Auth::Mayor);
    assert_eq!(Auth::new(3), Auth::Nameless);
}

#[test]
fn form_parsing() {
    let l = Login::parse(b"user_name=alice&user_pswd=wonder").unwrap();
    assert_eq!((l.name, l.pswd), (b"alice".to_vec(), b"wonder".to_vec()));
    let r = Register::parse(b"method_override=put&user_name=a&user_pswd=b&rest").unwrap();
    assert_eq!((r.name, r.pswd), (b"a".to_vec(), b"b".to_vec()));
    assert_eq!(Login::parse(b"user_name=alice"), Err(HttpError::MalformedInput));
    assert_eq!(Login::parse(b"user_name=\xff&user_pswd=x"), Err(HttpError::MalformedInput));
    assert!(check_field(b"user_name=x", b"user_name="));
    let mut idx: usize = 3;
    assert_eq!(advance(&mut idx, b"abcd"), 4);
    assert_eq!(idx, 7);
    let mut idx: usize = 0;
    assert_eq!(parse_value(b"ab&cd", &mut idx), Ok(b"ab".to_vec()));
    assert_eq!(idx, 3);
}

#[test]
fn match_user_compares_both() {
    let l = Login { name: b"a".to_vec(), pswd: b"b".to_vec() };
    assert_eq!(l.match_user(b"a", b"b"), Ok(()));
    assert_eq!(l.match_user(b"a", b"c"), Err(HttpError::CredentialFailure));
}

#[test]
fn table_keeps_duplicates() {
    let mut t = CredentialTable::new();
    t.insert(Credential { name: b"a".to_vec(), password: b"1".to_vec() });
    t.insert(Credential { name: b"a".to_vec(), password: b"2".to_vec() });
    assert!(t.find(b"a", b"1").is_some());
    assert!(t.find(b"a", b"2").is_some());
    assert!(t.find(b"a", b"3").is_none());
}
