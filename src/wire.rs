//! The wire codec: bytes to requests, and requests and responses to bytes.
//!
//! A request is `METHOD SP TARGET SP PROTOCOL CRLF`, then one `Field: Value
//! CRLF` line per header, then a blank line, then the body. The target is a
//! path, optionally followed by `?` and `&`-separated `key=value` pairs. The
//! body is sized by a `Content-Length` header where there is one, else it is
//! the rest of the stream.
use vstd::prelude::*;
use crate::bytes::{
    append_bytes, ascii, lemma_join_push, bytes_eq, copy_range, decimal, join_with, lacks,
    lemma_first_index_after, lemma_first_index_bounds, lemma_split_join, push_decimal, decimal_value, eq_ignore_case, equals_ignore_case, find_byte,
    first_index, parse_decimal, split_bytes, split_on, text, views,
};
use crate::http::{
    method_token, pair_views, protocol_token, status_code, status_reason, HttpError, Method,
    Pair, Protocol, Request, RequestView, Response,
};

verus! {

pub const CR: u8 = 13;
pub const LF: u8 = 10;
pub const SP: u8 = 32;
pub const COLON: u8 = 58;
pub const QUESTION: u8 = 63;
pub const AMPERSAND: u8 = 38;
pub const EQUALS: u8 = 61;

pub type PairView = (Seq<u8>, Seq<u8>);

pub open spec fn method_of(t: Seq<u8>) -> Option<Method> {
    if t == method_token(Method::Get) {
        Some(Method::Get)
    } else if t == method_token(Method::Head) {
        Some(Method::Head)
    } else if t == method_token(Method::Post) {
        Some(Method::Post)
    } else if t == method_token(Method::Put) {
        Some(Method::Put)
    } else if t == method_token(Method::Delete) {
        Some(Method::Delete)
    } else if t == method_token(Method::Options) {
        Some(Method::Options)
    } else if t == method_token(Method::Patch) {
        Some(Method::Patch)
    } else {
        None
    }
}

pub open spec fn protocol_of(t: Seq<u8>) -> Option<Protocol> {
    if t == protocol_token(Protocol::Http10) {
        Some(Protocol::Http10)
    } else if t == protocol_token(Protocol::Http11) {
        Some(Protocol::Http11)
    } else {
        None
    }
}

/// `key=value`, or a bare key with an empty value.
pub open spec fn pair_of(s: Seq<u8>) -> PairView {
    let e = first_index(s, EQUALS);
    if 0 <= e < s.len() {
        (s.subrange(0, e), s.subrange(e + 1, s.len() as int))
    } else {
        (s, Seq::empty())
    }
}

/// The pairs of a query string; an empty string holds none.
pub open spec fn query_of(q: Seq<u8>) -> Seq<PairView> {
    if q.len() == 0 {
        Seq::empty()
    } else {
        split_on(q, AMPERSAND).map_values(|s: Seq<u8>| pair_of(s))
    }
}

/// The path and the query of a request target.
pub open spec fn target_of(t: Seq<u8>) -> (Seq<u8>, Option<Seq<PairView>>) {
    let k = first_index(t, QUESTION);
    if 0 <= k < t.len() {
        (t.subrange(0, k), Some(query_of(t.subrange(k + 1, t.len() as int))))
    } else {
        (t, None)
    }
}

pub open spec fn request_line_of(line: Seq<u8>) -> Option<(Method, Seq<u8>, Option<Seq<PairView>>, Protocol)> {
    let i = first_index(line, SP);
    if 0 <= i < line.len() {
        let rest = line.subrange(i + 1, line.len() as int);
        let j = first_index(rest, SP);
        if 0 <= j < rest.len() {
            match (method_of(line.subrange(0, i)), protocol_of(rest.subrange(j + 1, rest.len() as int))) {
                (Some(m), Some(p)) => Some((m, target_of(rest.subrange(0, j)).0, target_of(rest.subrange(0, j)).1, p)),
                _ => None,
            }
        } else {
            None
        }
    } else {
        None
    }
}

/// `Field: Value`; one space after the colon is not part of the value.
pub open spec fn header_of(line: Seq<u8>) -> Option<PairView> {
    let c = first_index(line, COLON);
    if 0 <= c < line.len() {
        let v = line.subrange(c + 1, line.len() as int);
        Some((line.subrange(0, c), if v.len() > 0 && v[0] == SP { v.drop_first() } else { v }))
    } else {
        None
    }
}

/// Where the first line of `s` ends: its first CR, which a LF must follow.
pub open spec fn line_end(s: Seq<u8>) -> int {
    let k = first_index(s, CR);
    if 0 <= k && k + 1 < s.len() && s[k + 1] == LF { k } else { -1 }
}

/// The header lines at the start of `s`, up to the blank line, and what
/// follows the blank line.
pub open spec fn headers_of(s: Seq<u8>) -> Option<(Seq<PairView>, Seq<u8>)>
    decreases s.len(),
{
    let k = line_end(s);
    if 0 <= k && k + 1 < s.len() {
        if k == 0 {
            Some((Seq::empty(), s.subrange(2, s.len() as int)))
        } else {
            match header_of(s.subrange(0, k)) {
                None => None,
                Some(h) => match headers_of(s.subrange(k + 2, s.len() as int)) {
                    None => None,
                    Some(r) => Some((seq![h] + r.0, r.1)),
                },
            }
        }
    } else {
        None
    }
}

pub open spec fn content_length_name() -> Seq<u8> {
    ascii("content-length"@)
}

/// The value of the first `Content-Length` header, in any letter case.
pub open spec fn content_length_of(hs: Seq<PairView>) -> Option<Seq<u8>>
    decreases hs.len(),
{
    if hs.len() == 0 {
        None
    } else if eq_ignore_case(hs[0].0, content_length_name()) {
        Some(hs[0].1)
    } else {
        content_length_of(hs.drop_first())
    }
}

/// The body that follows the headers `hs`, taken from `rest`; `None` when a
/// declared length is unreadable or more than `rest` holds.
pub open spec fn body_of(hs: Seq<PairView>, rest: Seq<u8>) -> Option<Option<Seq<u8>>> {
    match content_length_of(hs) {
        None => Some(if rest.len() == 0 { None } else { Some(rest) }),
        Some(v) => match decimal_value(v) {
            None => None,
            Some(n) => if n <= rest.len() { Some(Some(rest.subrange(0, n as int))) } else { None },
        },
    }
}

/// The request that `b` holds, or `None` when it is malformed.
pub open spec fn request_of(b: Seq<u8>) -> Option<RequestView> {
    let k = line_end(b);
    if 0 <= k && k + 1 < b.len() {
        match request_line_of(b.subrange(0, k)) {
            None => None,
            Some(l) => match headers_of(b.subrange(k + 2, b.len() as int)) {
                None => None,
                Some(hr) => match body_of(hr.0, hr.1) {
                    None => None,
                    Some(body) => Some(
                        RequestView {
                            method: l.0,
                            path: l.1,
                            query: l.2,
                            proto: l.3,
                            headers: hr.0,
                            body,
                        },
                    ),
                },
            },
        }
    } else {
        None
    }
}

pub open spec fn opt_pairs_view(q: Option<Vec<Pair>>) -> Option<Seq<PairView>> {
    match q {
        Some(v) => Some(pair_views(v@)),
        None => None,
    }
}

pub(crate) fn parse_method(t: &[u8]) -> (r: Option<Method>)
    ensures
        r == method_of(t@),
{
    proof {
        reveal_strlit("GET");
        reveal_strlit("HEAD");
        reveal_strlit("POST");
        reveal_strlit("PUT");
        reveal_strlit("DELETE");
        reveal_strlit("OPTIONS");
        reveal_strlit("PATCH");
    }
    if bytes_eq(t, text("GET").as_slice()) {
        Some(Method::Get)
    } else if bytes_eq(t, text("HEAD").as_slice()) {
        Some(Method::Head)
    } else if bytes_eq(t, text("POST").as_slice()) {
        Some(Method::Post)
    } else if bytes_eq(t, text("PUT").as_slice()) {
        Some(Method::Put)
    } else if bytes_eq(t, text("DELETE").as_slice()) {
        Some(Method::Delete)
    } else if bytes_eq(t, text("OPTIONS").as_slice()) {
        Some(Method::Options)
    } else if bytes_eq(t, text("PATCH").as_slice()) {
        Some(Method::Patch)
    } else {
        None
    }
}

fn parse_protocol(t: &[u8]) -> (r: Option<Protocol>)
    ensures
        r == protocol_of(t@),
{
    proof {
        reveal_strlit("HTTP/1.0");
        reveal_strlit("HTTP/1.1");
    }
    if bytes_eq(t, text("HTTP/1.0").as_slice()) {
        Some(Protocol::Http10)
    } else if bytes_eq(t, text("HTTP/1.1").as_slice()) {
        Some(Protocol::Http11)
    } else {
        None
    }
}

fn parse_pair(s: &[u8]) -> (r: Pair)
    ensures
        r@ == pair_of(s@),
{
    match find_byte(s, 0, EQUALS) {
        Some(e) => {
            assert(s@.subrange(0, s@.len() as int) =~= s@);
            Pair { name: copy_range(s, 0, e), value: copy_range(s, e + 1, s.len()) }
        },
        None => {
            assert(s@.subrange(0, s@.len() as int) =~= s@);
            assert(s@.subrange(0, s@.len() as int) =~= s@);
            Pair { name: copy_range(s, 0, s.len()), value: Vec::new() }
        },
    }
}

fn parse_query(q: &[u8]) -> (r: Vec<Pair>)
    ensures
        pair_views(r@) == query_of(q@),
{
    let mut r: Vec<Pair> = Vec::new();
    if q.len() == 0 {
        assert(pair_views(r@) =~= query_of(q@));
        return r;
    }
    let parts = split_bytes(q, AMPERSAND);
    let ghost want = split_on(q@, AMPERSAND).map_values(|s: Seq<u8>| pair_of(s));
    let mut i: usize = 0;
    while i < parts.len()
        invariant
            0 <= i <= parts@.len(),
            views(parts@) == split_on(q@, AMPERSAND),
            want == split_on(q@, AMPERSAND).map_values(|s: Seq<u8>| pair_of(s)),
            pair_views(r@) == want.subrange(0, i as int),
        decreases parts@.len() - i,
    {
        let p = parse_pair(parts[i].as_slice());
        assert(views(parts@)[i as int] == parts@[i as int]@);
        let ghost before = r@;
        r.push(p);
        assert(pair_views(r@) =~= pair_views(before).push(p@));
        assert(want.subrange(0, i + 1) =~= want.subrange(0, i as int).push(want[i as int]));
        i = i + 1;
    }
    assert(want.subrange(0, i as int) =~= want);
    r
}

fn parse_target(t: &[u8]) -> (r: (Vec<u8>, Option<Vec<Pair>>))
    ensures
        (r.0@, opt_pairs_view(r.1)) == target_of(t@),
{
    match find_byte(t, 0, QUESTION) {
        Some(k) => {
            assert(t@.subrange(0, t@.len() as int) =~= t@);
            let q = parse_query(&t[k + 1..t.len()]);
            (copy_range(t, 0, k), Some(q))
        },
        None => {
            assert(t@.subrange(0, t@.len() as int) =~= t@);
            (copy_range(t, 0, t.len()), None)
        },
    }
}

fn parse_request_line(line: &[u8]) -> (r: Option<(Method, Vec<u8>, Option<Vec<Pair>>, Protocol)>)
    ensures
        match r {
            Some(v) => request_line_of(line@) == Some((v.0, v.1@, opt_pairs_view(v.2), v.3)),
            None => request_line_of(line@) is None,
        },
{
    assert(line@.subrange(0, line@.len() as int) =~= line@);
    let i = match find_byte(line, 0, SP) {
        Some(i) => i,
        None => return None,
    };
    let rest = &line[i + 1..line.len()];
    let j = match find_byte(rest, 0, SP) {
        Some(j) => j,
        None => {
            assert(rest@.subrange(0, rest@.len() as int) =~= rest@);
            return None;
        },
    };
    assert(rest@.subrange(0, rest@.len() as int) =~= rest@);
    let m = parse_method(&line[0..i]);
    let p = parse_protocol(&rest[j + 1..rest.len()]);
    match (m, p) {
        (Some(m), Some(p)) => {
            let (path, query) = parse_target(&rest[0..j]);
            Some((m, path, query, p))
        },
        _ => None,
    }
}

fn parse_header(line: &[u8]) -> (r: Option<Pair>)
    ensures
        match r {
            Some(h) => header_of(line@) == Some(h@),
            None => header_of(line@) is None,
        },
{
    assert(line@.subrange(0, line@.len() as int) =~= line@);
    let n = line.len();
    let c = match find_byte(line, 0, COLON) {
        Some(c) => c,
        None => return None,
    };
    let name = copy_range(line, 0, c);
    let start = if c + 1 < line.len() && line[c + 1] == SP { c + 2 } else { c + 1 };
    let value = copy_range(line, start, line.len());
    proof {
        let v = line@.subrange(c + 1, line@.len() as int);
        if v.len() > 0 && v[0] == SP {
            assert(v.drop_first() =~= value@);
        } else {
            assert(v =~= value@);
        }
    }
    Some(Pair { name, value })
}

/// The end of the line that starts at `from`, as `line_end` gives it.
fn find_line_end(b: &[u8], from: usize) -> (r: Option<usize>)
    requires
        from <= b@.len(),
    ensures
        b@.len() <= usize::MAX,
        match r {
            Some(k) => from <= k && k + 1 < b@.len() && line_end(b@.subrange(from as int, b@.len() as int)) == k - from,
            None => line_end(b@.subrange(from as int, b@.len() as int)) < 0,
        },
{
    let n = b.len();
    match find_byte(b, from, CR) {
        Some(k) => {
            if k + 1 < n && b[k + 1] == LF {
                Some(k)
            } else {
                None
            }
        },
        None => None,
    }
}

proof fn lemma_sub_sub(b: Seq<u8>, from: int, a: int, c: int)
    requires
        0 <= from <= b.len(),
        0 <= a <= c <= b.len() - from,
    ensures
        b.subrange(from, b.len() as int).subrange(a, c) == b.subrange(from + a, from + c),
{
    assert(b.subrange(from, b.len() as int).subrange(a, c) =~= b.subrange(from + a, from + c));
}

pub open spec fn prepend_headers(
    acc: Seq<PairView>,
    r: Option<(Seq<PairView>, Seq<u8>)>,
) -> Option<(Seq<PairView>, Seq<u8>)> {
    match r {
        None => None,
        Some(x) => Some((acc + x.0, x.1)),
    }
}

/// Reads the header lines from `from` on; gives them and where the body starts.
fn parse_headers(b: &[u8], from: usize) -> (r: Option<(Vec<Pair>, usize)>)
    requires
        from <= b@.len(),
    ensures
        match r {
            Some(x) => x.1 <= b@.len() && headers_of(b@.subrange(from as int, b@.len() as int)) == Some(
                (pair_views(x.0@), b@.subrange(x.1 as int, b@.len() as int)),
            ),
            None => headers_of(b@.subrange(from as int, b@.len() as int)) is None,
        },
{
    let mut hs: Vec<Pair> = Vec::new();
    let mut pos: usize = from;
    assert(pair_views(hs@) =~= Seq::<PairView>::empty());
    assert(Seq::<PairView>::empty() + pair_views(hs@) =~= pair_views(hs@));
    loop
        invariant
            from <= pos <= b@.len(),
            headers_of(b@.subrange(from as int, b@.len() as int)) == prepend_headers(
                pair_views(hs@),
                headers_of(b@.subrange(pos as int, b@.len() as int)),
            ),
        decreases b@.len() - pos,
    {
        let ghost s = b@.subrange(pos as int, b@.len() as int);
        let k = match find_line_end(b, pos) {
            Some(k) => k,
            None => return None,
        };
        proof {
            lemma_sub_sub(b@, pos as int, (k - pos) + 2, s.len() as int);
        }
        if k == pos {
            proof {
                assert(s.subrange(2, s.len() as int) =~= b@.subrange(pos + 2, b@.len() as int));
                assert(pair_views(hs@) + Seq::<PairView>::empty() =~= pair_views(hs@));
            }
            return Some((hs, pos + 2));
        }
        let h = match parse_header(&b[pos..k]) {
            Some(h) => h,
            None => {
                assert(s.subrange(0, k - pos) =~= b@.subrange(pos as int, k as int));
                return None;
            },
        };
        proof {
            assert(s.subrange(0, k - pos) =~= b@.subrange(pos as int, k as int));
        }
        let ghost before = hs@;
        hs.push(h);
        proof {
            assert(pair_views(hs@) =~= pair_views(before).push(h@));
            match headers_of(b@.subrange(k + 2, b@.len() as int)) {
                None => {},
                Some(x) => {
                    assert(pair_views(before) + (seq![h@] + x.0) =~= pair_views(hs@) + x.0);
                },
            }
        }
        pos = k + 2;
    }
}

/// The index of the first `Content-Length` header.
fn find_content_length(hs: &Vec<Pair>) -> (r: Option<usize>)
    ensures
        match r {
            Some(i) => i < hs@.len() && content_length_of(pair_views(hs@)) == Some(hs@[i as int].value@),
            None => content_length_of(pair_views(hs@)) is None,
        },
{
    proof {
        reveal_strlit("content-length");
    }
    let name = text("content-length");
    let mut i: usize = 0;
    assert(pair_views(hs@).subrange(0, hs@.len() as int) =~= pair_views(hs@));
    while i < hs.len()
        invariant
            0 <= i <= hs@.len(),
            name@ == content_length_name(),
            content_length_of(pair_views(hs@)) == content_length_of(pair_views(hs@).subrange(i as int, hs@.len() as int)),
        decreases hs@.len() - i,
    {
        let ghost t = pair_views(hs@).subrange(i as int, hs@.len() as int);
        assert(t[0] == hs@[i as int]@);
        if equals_ignore_case(hs[i].name.as_slice(), name.as_slice()) {
            return Some(i);
        }
        assert(t.drop_first() =~= pair_views(hs@).subrange(i + 1, hs@.len() as int));
        i = i + 1;
    }
    assert(pair_views(hs@).subrange(i as int, hs@.len() as int) =~= Seq::<PairView>::empty());
    None
}

/// Parses a request. Every input gets an answer: the request that the bytes
/// hold, or `MalformedInput`.
pub fn parse(b: &[u8]) -> (r: Result<Request, HttpError>)
    ensures
        match r {
            Ok(req) => request_of(b@) == Some(req@),
            Err(e) => request_of(b@) is None && e == HttpError::MalformedInput,
        },
{
    assert(b@.subrange(0, b@.len() as int) =~= b@);
    let k = match find_line_end(b, 0) {
        Some(k) => k,
        None => return Err(HttpError::MalformedInput),
    };
    let (method, path, query, proto) = match parse_request_line(&b[0..k]) {
        Some(l) => l,
        None => return Err(HttpError::MalformedInput),
    };
    let (headers, start) = match parse_headers(b, k + 2) {
        Some(x) => x,
        None => return Err(HttpError::MalformedInput),
    };
    let ghost rest = b@.subrange(start as int, b@.len() as int);
    let body = match find_content_length(&headers) {
        None => {
            if start == b.len() {
                None
            } else {
                Some(copy_range(b, start, b.len()))
            }
        },
        Some(i) => match parse_decimal(headers[i].value.as_slice()) {
            None => return Err(HttpError::MalformedInput),
            Some(n) => {
                if n <= (b.len() - start) as u64 {
                    let end = start + n as usize;
                    proof {
                        lemma_sub_sub(b@, start as int, 0, n as int);
                    }
                    Some(copy_range(b, start, end))
                } else {
                    return Err(HttpError::MalformedInput);
                }
            },
        },
    };
    let req = Request { method, path, query, proto, headers, body };
    proof {
        if start == b@.len() {
            assert(rest.len() == 0);
        }
    }
    Ok(req)
}


/// Whether `b` holds an empty line: CR LF CR LF.
pub open spec fn has_blank_line(b: Seq<u8>) -> bool {
    exists|i: int|
        0 <= i && i + 3 < b.len() && #[trigger] b[i] == CR && b[i + 1] == LF && b[i + 2] == CR && b[i + 3] == LF
}

proof fn lemma_headers_end(s: Seq<u8>)
    requires
        headers_of(s) is Some,
    ensures
        exists|j: int|
            0 <= j && j + 1 < s.len() && #[trigger] s[j] == CR && s[j + 1] == LF && (j == 0 || (j >= 2
                && s[j - 2] == CR && s[j - 1] == LF)),
    decreases s.len(),
{
    let k = line_end(s);
    lemma_first_index_bounds(s, CR);
    if k == 0 {
        assert(s[0] == CR);
    } else {
        let t = s.subrange(k + 2, s.len() as int);
        lemma_headers_end(t);
        let j = choose|j: int|
            0 <= j && j + 1 < t.len() && #[trigger] t[j] == CR && t[j + 1] == LF && (j == 0 || (j >= 2
                && t[j - 2] == CR && t[j - 1] == LF));
        assert(s[k + 2 + j] == CR);
    }
}

/// A stream without an empty line is never a request: `parse` rejects it
/// with `MalformedInput`.
pub proof fn law_blank_line_required(b: Seq<u8>)
    requires
        !has_blank_line(b),
    ensures
        request_of(b) is None,
{
    if request_of(b) is Some {
        let k = line_end(b);
        lemma_first_index_bounds(b, CR);
        let t = b.subrange(k + 2, b.len() as int);
        lemma_headers_end(t);
        let j = choose|j: int|
            0 <= j && j + 1 < t.len() && #[trigger] t[j] == CR && t[j + 1] == LF && (j == 0 || (j >= 2
                && t[j - 2] == CR && t[j - 1] == LF));
        assert(b[k + j] == CR);
    }
}

pub open spec fn pair_text(p: PairView) -> Seq<u8> {
    p.0 + seq![EQUALS] + p.1
}

pub open spec fn query_text(ps: Seq<PairView>) -> Seq<u8> {
    join_with(ps.map_values(|p: PairView| pair_text(p)), AMPERSAND)
}

pub open spec fn target_text(path: Seq<u8>, query: Option<Seq<PairView>>) -> Seq<u8> {
    match query {
        None => path,
        Some(ps) => path + seq![QUESTION] + query_text(ps),
    }
}

/// One `Field: Value` line per header, in order.
pub open spec fn headers_text(hs: Seq<PairView>) -> Seq<u8>
    decreases hs.len(),
{
    if hs.len() == 0 {
        Seq::empty()
    } else {
        hs[0].0 + seq![COLON, SP] + hs[0].1 + seq![CR, LF] + headers_text(hs.drop_first())
    }
}

pub open spec fn body_text(body: Option<Seq<u8>>) -> Seq<u8> {
    match body {
        Some(b) => b,
        None => Seq::empty(),
    }
}

/// The bytes that `encode_request` writes for a request.
pub open spec fn request_text(r: RequestView) -> Seq<u8> {
    method_token(r.method) + seq![SP] + target_text(r.path, r.query) + seq![SP] + protocol_token(r.proto)
        + seq![CR, LF] + headers_text(r.headers) + seq![CR, LF] + body_text(r.body)
}

/// The bytes that `serialize` writes for a response.
pub open spec fn response_text(r: Response) -> Seq<u8> {
    protocol_token(r.proto) + seq![SP] + decimal(status_code(r.status) as nat) + seq![SP] + status_reason(r.status)
        + seq![CR, LF] + headers_text(pair_views(r.headers@)) + seq![CR, LF] + r.body@
}

/// A path and query that the request line can carry.
pub open spec fn target_wf(path: Seq<u8>, query: Option<Seq<PairView>>) -> bool {
    &&& lacks(path, SP) && lacks(path, CR) && lacks(path, QUESTION)
    &&& match query {
        None => true,
        Some(ps) => forall|i: int|
            0 <= i < ps.len() ==> {
                let p = #[trigger] ps[i];
                &&& lacks(p.0, EQUALS) && lacks(p.0, AMPERSAND) && lacks(p.0, SP) && lacks(p.0, CR)
                &&& lacks(p.1, AMPERSAND) && lacks(p.1, SP) && lacks(p.1, CR)
            },
    }
}

/// Header lines that the grammar can carry.
pub open spec fn headers_wf(hs: Seq<PairView>) -> bool {
    forall|i: int| 0 <= i < hs.len() ==> lacks((#[trigger] hs[i]).0, COLON) && lacks(hs[i].0, CR) && lacks(hs[i].1, CR)
}

/// A body that agrees with the declared length, if any.
pub open spec fn body_wf(hs: Seq<PairView>, body: Option<Seq<u8>>) -> bool {
    match content_length_of(hs) {
        None => body != Some(Seq::<u8>::empty()),
        Some(v) => body is Some && decimal_value(v) == Some(body_text(body).len()),
    }
}

/// A request that the grammar can carry: no separator inside a part, and a
/// body that agrees with its declared length.
pub open spec fn request_wf(r: RequestView) -> bool {
    target_wf(r.path, r.query) && headers_wf(r.headers) && body_wf(r.headers, r.body)
}

proof fn lemma_lacks_concat(a: Seq<u8>, b: Seq<u8>, c: u8)
    requires
        lacks(a, c),
        lacks(b, c),
    ensures
        lacks(a + b, c),
{
    assert forall|i: int| 0 <= i < (a + b).len() implies #[trigger] (a + b)[i] != c by {
        if i >= a.len() {
            assert((a + b)[i] == b[i - a.len()]);
        }
    }
}

proof fn lemma_first_index_none(a: Seq<u8>, c: u8)
    requires
        lacks(a, c),
    ensures
        first_index(a, c) == -1,
{
    assert(a + Seq::<u8>::empty() =~= a);
    lemma_first_index_after(a, Seq::<u8>::empty(), c);
}

/// `a` lacks `c`, and `b` starts with it: the first `c` of `a + b` ends `a`.
proof fn lemma_first_index_at(a: Seq<u8>, b: Seq<u8>, c: u8)
    requires
        lacks(a, c),
        b.len() > 0,
        b[0] == c,
    ensures
        first_index(a + b, c) == a.len(),
{
    lemma_first_index_after(a, b, c);
}

proof fn lemma_tokens(m: Method, p: Protocol)
    ensures
        lacks(method_token(m), SP),
        lacks(method_token(m), CR),
        method_of(method_token(m)) == Some(m),
        lacks(protocol_token(p), SP),
        lacks(protocol_token(p), CR),
        protocol_of(protocol_token(p)) == Some(p),
{
    reveal_strlit("GET");
    reveal_strlit("HEAD");
    reveal_strlit("POST");
    reveal_strlit("PUT");
    reveal_strlit("DELETE");
    reveal_strlit("OPTIONS");
    reveal_strlit("PATCH");
    reveal_strlit("HTTP/1.0");
    reveal_strlit("HTTP/1.1");
    let g = method_token(Method::Get);
    let h = method_token(Method::Head);
    let po = method_token(Method::Post);
    let pu = method_token(Method::Put);
    let d = method_token(Method::Delete);
    let o = method_token(Method::Options);
    let pa = method_token(Method::Patch);
    assert(g.len() == 3 && h.len() == 4 && po.len() == 4 && pu.len() == 3 && d.len() == 6 && o.len() == 7
        && pa.len() == 5);
    assert(g[0] != pu[0]);
    assert(h[0] != po[0]);
    assert(protocol_token(Protocol::Http10) != protocol_token(Protocol::Http11)) by {
        assert(protocol_token(Protocol::Http10)[7] != protocol_token(Protocol::Http11)[7]);
    }
}

proof fn lemma_join_lacks(parts: Seq<Seq<u8>>, sep: u8, c: u8)
    requires
        sep != c,
        forall|i: int| 0 <= i < parts.len() ==> lacks(#[trigger] parts[i], c),
    ensures
        lacks(join_with(parts, sep), c),
    decreases parts.len(),
{
    if parts.len() > 1 {
        let rest = parts.drop_first();
        assert forall|i: int| 0 <= i < rest.len() implies lacks(#[trigger] rest[i], c) by {
            assert(rest[i] == parts[i + 1]);
        }
        lemma_join_lacks(rest, sep, c);
        assert(lacks(parts[0], c));
        lemma_lacks_concat(parts[0], seq![sep], c);
        lemma_lacks_concat(parts[0] + seq![sep], join_with(rest, sep), c);
    } else if parts.len() == 1 {
        assert(lacks(parts[0], c));
    }
}

proof fn lemma_target(path: Seq<u8>, query: Option<Seq<PairView>>)
    requires
        target_wf(path, query),
    ensures
        lacks(target_text(path, query), SP),
        lacks(target_text(path, query), CR),
        target_of(target_text(path, query)) == (path, query),
{
    match query {
        None => {
            lemma_first_index_none(path, QUESTION);
        },
        Some(ps) => {
            let texts = ps.map_values(|p: PairView| pair_text(p));
            let qt = query_text(ps);
            assert forall|i: int| 0 <= i < texts.len() implies lacks(#[trigger] texts[i], SP) && lacks(texts[i], CR)
                && lacks(texts[i], AMPERSAND) by {
                let p = ps[i];
                assert(texts[i] == pair_text(p));
                lemma_lacks_concat(p.0, seq![EQUALS], SP);
                lemma_lacks_concat(p.0 + seq![EQUALS], p.1, SP);
                lemma_lacks_concat(p.0, seq![EQUALS], CR);
                lemma_lacks_concat(p.0 + seq![EQUALS], p.1, CR);
                lemma_lacks_concat(p.0, seq![EQUALS], AMPERSAND);
                lemma_lacks_concat(p.0 + seq![EQUALS], p.1, AMPERSAND);
            }
            lemma_join_lacks(texts, AMPERSAND, SP);
            lemma_join_lacks(texts, AMPERSAND, CR);
            lemma_lacks_concat(path, seq![QUESTION], SP);
            lemma_lacks_concat(path + seq![QUESTION], qt, SP);
            lemma_lacks_concat(path, seq![QUESTION], CR);
            lemma_lacks_concat(path + seq![QUESTION], qt, CR);
            let t = target_text(path, query);
            assert(t =~= path + (seq![QUESTION] + qt));
            lemma_first_index_at(path, seq![QUESTION] + qt, QUESTION);
            assert(t.subrange(0, path.len() as int) =~= path);
            assert(t.subrange(path.len() + 1 as int, t.len() as int) =~= qt);
            if ps.len() == 0 {
                assert(texts.len() == 0);
                assert(query_of(qt) =~= ps);
            } else {
                lemma_split_join(texts, AMPERSAND);
                assert(qt.len() > 0) by {
                    if texts.len() == 1 {
                        assert(qt == texts[0]);
                    } else {
                        assert(qt == texts[0] + seq![AMPERSAND] + join_with(texts.drop_first(), AMPERSAND));
                    }
                    assert(texts[0] == pair_text(ps[0]));
                }
                assert forall|i: int| 0 <= i < ps.len() implies #[trigger] pair_of(texts[i]) == ps[i] by {
                    let p = ps[i];
                    assert(texts[i] == pair_text(p));
                    lemma_first_index_at(p.0, seq![EQUALS] + p.1, EQUALS);
                    assert(pair_text(p) =~= p.0 + (seq![EQUALS] + p.1));
                    assert(pair_text(p).subrange(0, p.0.len() as int) =~= p.0);
                    assert(pair_text(p).subrange(p.0.len() + 1 as int, pair_text(p).len() as int) =~= p.1);
                }
                assert(query_of(qt) =~= ps);
            }
        },
    }
}

proof fn lemma_headers(hs: Seq<PairView>, tail: Seq<u8>)
    requires
        headers_wf(hs),
    ensures
        headers_of(headers_text(hs) + seq![CR, LF] + tail) == Some((hs, tail)),
    decreases hs.len(),
{
    let s = headers_text(hs) + seq![CR, LF] + tail;
    if hs.len() == 0 {
        assert(s =~= seq![CR, LF] + tail);
        assert(s[0] == CR);
        assert(first_index(s, CR) == 0);
        assert(s.subrange(2, s.len() as int) =~= tail);
        assert(hs =~= Seq::<PairView>::empty());
    } else {
        let h = hs[0];
        let rest = hs.drop_first();
        assert forall|i: int| 0 <= i < rest.len() implies lacks((#[trigger] rest[i]).0, COLON) && lacks(rest[i].0, CR)
            && lacks(rest[i].1, CR) by {
            assert(rest[i] == hs[i + 1]);
        }
        lemma_headers(rest, tail);
        let line = h.0 + seq![COLON, SP] + h.1;
        let after = headers_text(rest) + seq![CR, LF] + tail;
        assert(s =~= line + (seq![CR, LF] + after));
        lemma_lacks_concat(h.0, seq![COLON, SP], CR);
        lemma_lacks_concat(h.0 + seq![COLON, SP], h.1, CR);
        lemma_first_index_at(line, seq![CR, LF] + after, CR);
        assert(s[line.len() + 1 as int] == LF);
        assert(s.subrange(0, line.len() as int) =~= line);
        assert(s.subrange(line.len() + 2 as int, s.len() as int) =~= after);
        assert(line =~= h.0 + (seq![COLON, SP] + h.1));
        lemma_first_index_at(h.0, seq![COLON, SP] + h.1, COLON);
        let v = line.subrange(h.0.len() + 1 as int, line.len() as int);
        assert(v =~= seq![SP] + h.1);
        assert(v.drop_first() =~= h.1);
        assert(line.subrange(0, h.0.len() as int) =~= h.0);
        assert(header_of(line) == Some(h));
        assert(seq![h] + rest =~= hs);
    }
}

proof fn lemma_line_lacks_cr(m: Method, tt: Seq<u8>, p: Protocol)
    requires
        lacks(tt, CR),
    ensures
        lacks(method_token(m) + seq![SP] + tt + seq![SP] + protocol_token(p), CR),
{
    let mt = method_token(m);
    let pt = protocol_token(p);
    lemma_tokens(m, p);
    lemma_lacks_concat(mt, seq![SP], CR);
    lemma_lacks_concat(mt + seq![SP], tt, CR);
    lemma_lacks_concat(mt + seq![SP] + tt, seq![SP], CR);
    lemma_lacks_concat(mt + seq![SP] + tt + seq![SP], pt, CR);
}

proof fn lemma_frame(line: Seq<u8>, after: Seq<u8>)
    requires
        lacks(line, CR),
    ensures
        ({
            let b = line + seq![CR, LF] + after;
            &&& line_end(b) == line.len()
            &&& b.subrange(0, line.len() as int) == line
            &&& b.subrange(line.len() + 2 as int, b.len() as int) == after
        }),
{
    let b = line + seq![CR, LF] + after;
    assert(b =~= line + (seq![CR, LF] + after));
    lemma_first_index_at(line, seq![CR, LF] + after, CR);
    assert(b[line.len() + 1 as int] == LF);
    assert(b.subrange(0, line.len() as int) =~= line);
    assert(b.subrange(line.len() + 2 as int, b.len() as int) =~= after);
}

/// A well-formed request survives encoding and parsing unchanged.
pub proof fn law_request_round_trip(r: RequestView)
    requires
        request_wf(r),
    ensures
        request_of(request_text(r)) == Some(r),
{
    let tt = target_text(r.path, r.query);
    lemma_target(r.path, r.query);
    let line = method_token(r.method) + seq![SP] + tt + seq![SP] + protocol_token(r.proto);
    let ht = headers_text(r.headers);
    let bt = body_text(r.body);
    let b = request_text(r);
    assert(b =~= line + seq![CR, LF] + (ht + seq![CR, LF] + bt));
    lemma_line_lacks_cr(r.method, tt, r.proto);
    lemma_frame(line, ht + seq![CR, LF] + bt);
    lemma_headers(r.headers, bt);
    lemma_request_line(r.method, tt, r.proto);
    let k = line.len() as int;
    assert(request_line_of(b.subrange(0, k)) == Some((r.method, r.path, r.query, r.proto)));
    assert(headers_of(b.subrange(k + 2, b.len() as int)) == Some((r.headers, bt)));
    lemma_body(r.headers, r.body);
}

proof fn lemma_body(hs: Seq<PairView>, body: Option<Seq<u8>>)
    requires
        body_wf(hs, body),
    ensures
        body_of(hs, body_text(body)) == Some(body),
{
    let bt = body_text(body);
    match content_length_of(hs) {
        None => {
            match body {
                None => {},
                Some(x) => {
                    assert(x.len() != 0) by {
                        if x.len() == 0 {
                            assert(x =~= Seq::<u8>::empty());
                        }
                    }
                },
            }
        },
        Some(v) => {
            assert(bt.subrange(0, bt.len() as int) =~= bt);
        },
    }
}

proof fn lemma_request_line(m: Method, tt: Seq<u8>, p: Protocol)
    requires
        lacks(tt, SP),
    ensures
        ({
            let line = method_token(m) + seq![SP] + tt + seq![SP] + protocol_token(p);
            request_line_of(line) == Some((m, target_of(tt).0, target_of(tt).1, p))
        }),
{
    let mt = method_token(m);
    let pt = protocol_token(p);
    lemma_tokens(m, p);
    let line = mt + seq![SP] + tt + seq![SP] + pt;
    assert(line =~= mt + (seq![SP] + (tt + seq![SP] + pt)));
    lemma_first_index_at(mt, seq![SP] + (tt + seq![SP] + pt), SP);
    assert(line.subrange(0, mt.len() as int) =~= mt);
    let rest = line.subrange(mt.len() + 1 as int, line.len() as int);
    assert(rest =~= tt + (seq![SP] + pt));
    lemma_first_index_at(tt, seq![SP] + pt, SP);
    assert(rest.subrange(0, tt.len() as int) =~= tt);
    assert(rest.subrange(tt.len() + 1 as int, rest.len() as int) =~= pt);
}

fn write_pairs(out: &mut Vec<u8>, ps: &Vec<Pair>)
    ensures
        final(out)@ == old(out)@ + query_text(pair_views(ps@)),
{
    let ghost texts = pair_views(ps@).map_values(|p: PairView| pair_text(p));
    let mut i: usize = 0;
    while i < ps.len()
        invariant
            0 <= i <= ps@.len(),
            texts == pair_views(ps@).map_values(|p: PairView| pair_text(p)),
            i == 0 ==> out@ == old(out)@,
            i > 0 ==> out@ == old(out)@ + join_with(texts.subrange(0, i as int), AMPERSAND),
        decreases ps@.len() - i,
    {
        proof {
            lemma_join_push(texts.subrange(0, i as int), texts[i as int], AMPERSAND);
            assert(texts.subrange(0, i + 1) =~= texts.subrange(0, i as int).push(texts[i as int]));
        }
        if i > 0 {
            out.push(AMPERSAND);
        }
        append_bytes(out, ps[i].name.as_slice());
        out.push(EQUALS);
        append_bytes(out, ps[i].value.as_slice());
        proof {
            let jt = join_with(texts.subrange(0, i as int), AMPERSAND);
            assert(texts[i as int] == pair_text(ps@[i as int]@));
            if i == 0 {
                assert(out@ =~= old(out)@ + texts[0]);
                assert(join_with(texts.subrange(0, 1), AMPERSAND) == texts.subrange(0, 1)[0]);
            } else {
                assert(out@ =~= old(out)@ + (jt + seq![AMPERSAND] + texts[i as int]));
            }
        }
        i = i + 1;
    }
    proof {
        assert(texts.subrange(0, i as int) =~= texts);
        if i == 0 {
            assert(old(out)@ + join_with(texts, AMPERSAND) =~= old(out)@);
        }
    }
}

fn write_headers(out: &mut Vec<u8>, hs: &Vec<Pair>)
    ensures
        final(out)@ == old(out)@ + headers_text(pair_views(hs@)),
{
    let ghost all = pair_views(hs@);
    let mut i: usize = 0;
    assert(all.subrange(0, all.len() as int) =~= all);
    while i < hs.len()
        invariant
            0 <= i <= hs@.len(),
            all == pair_views(hs@),
            out@ + headers_text(all.subrange(i as int, all.len() as int)) == old(out)@ + headers_text(all),
        decreases hs@.len() - i,
    {
        let ghost t = all.subrange(i as int, all.len() as int);
        assert(t[0] == hs@[i as int]@);
        assert(t.drop_first() =~= all.subrange(i + 1, all.len() as int));
        let ghost before = out@;
        append_bytes(out, hs[i].name.as_slice());
        out.push(COLON);
        out.push(SP);
        append_bytes(out, hs[i].value.as_slice());
        out.push(CR);
        out.push(LF);
        assert(out@ =~= before + (t[0].0 + seq![COLON, SP] + t[0].1 + seq![CR, LF]));
        assert(before + headers_text(t) =~= out@ + headers_text(t.drop_first()));
        i = i + 1;
    }
    assert(all.subrange(i as int, all.len() as int) =~= Seq::<PairView>::empty());
    assert(out@ + Seq::<u8>::empty() =~= out@);
}

fn write_method(out: &mut Vec<u8>, m: Method)
    ensures
        final(out)@ == old(out)@ + method_token(m),
{
    proof {
        reveal_strlit("GET");
        reveal_strlit("HEAD");
        reveal_strlit("POST");
        reveal_strlit("PUT");
        reveal_strlit("DELETE");
        reveal_strlit("OPTIONS");
        reveal_strlit("PATCH");
    }
    let t = match m {
        Method::Get => text("GET"),
        Method::Head => text("HEAD"),
        Method::Post => text("POST"),
        Method::Put => text("PUT"),
        Method::Delete => text("DELETE"),
        Method::Options => text("OPTIONS"),
        Method::Patch => text("PATCH"),
    };
    append_bytes(out, t.as_slice());
}

fn write_protocol(out: &mut Vec<u8>, p: Protocol)
    ensures
        final(out)@ == old(out)@ + protocol_token(p),
{
    proof {
        reveal_strlit("HTTP/1.0");
        reveal_strlit("HTTP/1.1");
    }
    let t = match p {
        Protocol::Http10 => text("HTTP/1.0"),
        Protocol::Http11 => text("HTTP/1.1"),
    };
    append_bytes(out, t.as_slice());
}

/// Writes a request as the grammar above has it.
pub fn encode_request(r: &Request) -> (out: Vec<u8>)
    ensures
        out@ == request_text(r@),
{
    let mut out: Vec<u8> = Vec::new();
    write_method(&mut out, r.method);
    out.push(SP);
    append_bytes(&mut out, r.path.as_slice());
    match &r.query {
        Some(q) => {
            out.push(QUESTION);
            write_pairs(&mut out, q);
        },
        None => {},
    }
    out.push(SP);
    write_protocol(&mut out, r.proto);
    out.push(CR);
    out.push(LF);
    write_headers(&mut out, &r.headers);
    out.push(CR);
    out.push(LF);
    match &r.body {
        Some(b) => append_bytes(&mut out, b.as_slice()),
        None => {},
    }
    assert(out@ =~= request_text(r@));
    out
}

/// Writes a response: the status line, one line per header in insertion
/// order, an empty line, and the body as it is.
pub fn serialize(r: &Response) -> (out: Vec<u8>)
    ensures
        out@ == response_text(*r),
{
    let mut out: Vec<u8> = Vec::new();
    write_protocol(&mut out, r.proto);
    out.push(SP);
    push_decimal(&mut out, r.status.code() as u64);
    out.push(SP);
    let reason = r.status.reason();
    append_bytes(&mut out, reason.as_slice());
    out.push(CR);
    out.push(LF);
    write_headers(&mut out, &r.headers);
    out.push(CR);
    out.push(LF);
    append_bytes(&mut out, r.body.as_slice());
    assert(out@ =~= response_text(*r));
    out
}

} // verus!
