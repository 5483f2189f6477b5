use hanabi_auth::cookie::{contains_cookie, read_cookies, read_set_cookie, write_cookie, CookieAttributes, SameSite};
use hanabi_auth::http::{HttpError, Pair};

fn pair(n: &str, v: &str) -> Pair {
    Pair { name: n.as_bytes().to_vec(), value: v.as_bytes().to_vec() }
}

fn full() -> CookieAttributes {
    CookieAttributes { same_site: Some(SameSite::Strict), secure: true, partitioned: true, max_age: Some(183) }
}

#[test]
fn writes_all_attributes() {
    let h = write_cookie(b"tkn", b"Traveller", &full());
    assert_eq!(h.name, b"Set-Cookie".to_vec());
    assert_eq!(h.value, b"tkn=Traveller; SameSite=Strict; Secure; Partitioned; Max-Age=183".to_vec());
}

#[test]
fn writes_only_set_attributes() {
    let a = CookieAttributes { same_site: Some(SameSite::Unrestricted), secure: false, partitioned: false, max_age: None };
    assert_eq!(write_cookie(b"a", b"b", &a).value, b"a=b; SameSite=None".to_vec());
    assert_eq!(write_cookie(b"a", b"", &CookieAttributes::none()).value, b"a=".to_vec());
}

#[test]
fn write_is_idempotent() {
    assert_eq!(write_cookie(b"tkn", b"v", &full()), write_cookie(b"tkn", b"v", &full()));
}

#[test]
fn write_then_read_recovers_cookie() {
    for a in [
        full(),
        CookieAttributes::none(),
        CookieAttributes { same_site: Some(SameSite::Lax), secure: false, partitioned: true, max_age: Some(0) },
    ] {
        let h = write_cookie(b"tkn", b"boukennoshou", &a);
        let c = read_set_cookie(&h.value).unwrap();
        assert_eq!(c.name, b"tkn".to_vec());
        assert_eq!(c.value, b"boukennoshou".to_vec());
        assert_eq!(c.attributes, a);
    }
}

#[test]
fn set_cookie_errors() {
    assert_eq!(read_set_cookie(b"novalue"), Err(HttpError::MalformedInput));
    assert_eq!(read_set_cookie(b"a=b; SameSite=Sometimes"), Err(HttpError::MalformedInput));
    assert_eq!(read_set_cookie(b"a=b;Secure"), Err(HttpError::MalformedInput));
    assert_eq!(read_set_cookie(b"a=b; Path=/").unwrap().attributes, CookieAttributes::none());
}

#[test]
fn reads_cookie_header() {
    let hs = vec![pair("Host", "x"), pair("cookie", "tkn=abc; theme=dark"), pair("COOKIE", "z=1;")];
    let cs = read_cookies(&hs).unwrap();
    assert_eq!(cs, vec![pair("tkn", "abc"), pair("theme", "dark"), pair("z", "1")]);
    assert!(contains_cookie(&cs, b"tkn"));
    assert!(!contains_cookie(&cs, b"tk"));
}

#[test]
fn absent_or_empty_cookie_header_is_no_cookies() {
    assert_eq!(read_cookies(&vec![]).unwrap(), vec![]);
    assert_eq!(read_cookies(&vec![pair("Cookie", "")]).unwrap(), vec![]);
}

#[test]
fn bad_cookie_header_is_malformed() {
    assert_eq!(read_cookies(&vec![pair("Cookie", "justaname")]), Err(HttpError::MalformedInput));
    assert_eq!(read_cookies(&vec![pair("Cookie", "=v")]), Err(HttpError::MalformedInput));
}
