//! The CORS policy engine: checks a request's `Origin` (and, for a
//! preflight, the method and headers it asks for) against a policy, and
//! writes the `Access-Control-*` headers that grant it.
use vstd::prelude::*;
use crate::bytes::{
    append_bytes, ascii, bytes_eq, copy_range, eq_ignore_case, equals_ignore_case, join_with,
    lemma_join_push, split_bytes, split_on, text, views,
};
use crate::http::{method_token, pair_views, HttpError, Method, Pair, Request, Response};
use crate::wire::{method_of, parse_method, PairView, SP};

verus! {

pub const COMMA: u8 = 44;

/// What cross-origin requests a resource accepts.
#[derive(Debug, Clone)]
pub struct CorsPolicy {
    /// Origins allowed, matched exactly.
    pub origins: Vec<Vec<u8>>,
    /// Methods a preflight may ask for.
    pub methods: Vec<Method>,
    /// Whether any request header is allowed.
    pub any_header: bool,
    /// Request headers allowed, in any letter case.
    pub headers: Vec<Vec<u8>>,
    /// Whether credentials (cookies) may be sent.
    pub credentials: bool,
}

/// What a policy allows, as mathematical values.
pub struct PolicyView {
    pub origins: Seq<Seq<u8>>,
    pub methods: Seq<Method>,
    pub any_header: bool,
    pub headers: Seq<Seq<u8>>,
    pub credentials: bool,
}

impl View for CorsPolicy {
    type V = PolicyView;

    open spec fn view(&self) -> PolicyView {
        PolicyView {
            origins: views(self.origins@),
            methods: self.methods@,
            any_header: self.any_header,
            headers: views(self.headers@),
            credentials: self.credentials,
        }
    }
}

pub open spec fn origin_name() -> Seq<u8> {
    ascii("origin"@)
}

pub open spec fn request_method_name() -> Seq<u8> {
    ascii("access-control-request-method"@)
}

pub open spec fn request_headers_name() -> Seq<u8> {
    ascii("access-control-request-headers"@)
}

pub open spec fn allow_origin_name() -> Seq<u8> {
    ascii("Access-Control-Allow-Origin"@)
}

pub open spec fn allow_credentials_name() -> Seq<u8> {
    ascii("Access-Control-Allow-Credentials"@)
}

pub open spec fn allow_methods_name() -> Seq<u8> {
    ascii("Access-Control-Allow-Methods"@)
}

pub open spec fn allow_headers_name() -> Seq<u8> {
    ascii("Access-Control-Allow-Headers"@)
}

pub open spec fn wildcard() -> Seq<u8> {
    ascii("*"@)
}

/// The value of the first header named `name`, in any letter case.
pub open spec fn header_value(hs: Seq<PairView>, name: Seq<u8>) -> Option<Seq<u8>>
    decreases hs.len(),
{
    if hs.len() == 0 {
        None
    } else if eq_ignore_case(hs[0].0, name) {
        Some(hs[0].1)
    } else {
        header_value(hs.drop_first(), name)
    }
}

/// An origin that the policy lists; the wildcard is never one.
pub open spec fn origin_allowed(p: PolicyView, o: Seq<u8>) -> bool {
    o != wildcard() && exists|i: int| 0 <= i < p.origins.len() && #[trigger] p.origins[i] == o
}

pub open spec fn method_allowed(p: PolicyView, t: Seq<u8>) -> bool {
    match method_of(t) {
        Some(m) => p.methods.contains(m),
        None => false,
    }
}

pub open spec fn trim_start(s: Seq<u8>) -> Seq<u8>
    decreases s.len(),
{
    if s.len() > 0 && s[0] == SP {
        trim_start(s.drop_first())
    } else {
        s
    }
}

pub open spec fn trim_end(s: Seq<u8>) -> Seq<u8>
    decreases s.len(),
{
    if s.len() > 0 && s.last() == SP {
        trim_end(s.drop_last())
    } else {
        s
    }
}

pub open spec fn trim(s: Seq<u8>) -> Seq<u8> {
    trim_end(trim_start(s))
}

pub open spec fn header_allowed(p: PolicyView, h: Seq<u8>) -> bool {
    p.any_header || h.len() == 0 || exists|i: int|
        0 <= i < p.headers.len() && eq_ignore_case(#[trigger] p.headers[i], h)
}

/// Every header named in a comma-separated list is allowed.
pub open spec fn headers_allowed(p: PolicyView, list: Seq<u8>) -> bool {
    forall|i: int| 0 <= i < split_on(list, COMMA).len() ==> header_allowed(p, trim(#[trigger] split_on(list, COMMA)[i]))
}

pub open spec fn list_text(items: Seq<Seq<u8>>) -> Seq<u8> {
    join_with(items, COMMA)
}

pub open spec fn methods_text(p: PolicyView) -> Seq<u8> {
    list_text(p.methods.map_values(|m: Method| method_token(m)))
}

pub open spec fn allowed_headers_text(p: PolicyView) -> Seq<u8> {
    if p.any_header {
        wildcard()
    } else {
        list_text(p.headers)
    }
}

/// The headers that grant a request from origin `o`.
pub open spec fn grant(p: PolicyView, o: Seq<u8>) -> Seq<PairView> {
    seq![(allow_origin_name(), o)] + if p.credentials {
        seq![(allow_credentials_name(), ascii("true"@))]
    } else {
        Seq::empty()
    }
}

/// What a simple (not preflight) request gets: the headers to add, or the
/// refusal. A request without `Origin` is not cross-origin: it gets nothing.
pub open spec fn simple_outcome(p: PolicyView, hs: Seq<PairView>) -> Result<Seq<PairView>, HttpError> {
    match header_value(hs, origin_name()) {
        None => Ok(Seq::empty()),
        Some(o) => if origin_allowed(p, o) {
            Ok(grant(p, o))
        } else {
            Err(HttpError::PolicyDenied)
        },
    }
}

/// What a preflight gets: its origin, the method it asks for and the headers
/// it asks for must all be allowed.
pub open spec fn preflight_outcome(p: PolicyView, hs: Seq<PairView>) -> Result<Seq<PairView>, HttpError> {
    match header_value(hs, origin_name()) {
        None => Ok(Seq::empty()),
        Some(o) => if !origin_allowed(p, o) {
            Err(HttpError::PolicyDenied)
        } else if header_value(hs, request_method_name()) is Some && !method_allowed(
            p,
            header_value(hs, request_method_name())->0,
        ) {
            Err(HttpError::PolicyDenied)
        } else if header_value(hs, request_headers_name()) is Some && !headers_allowed(
            p,
            header_value(hs, request_headers_name())->0,
        ) {
            Err(HttpError::PolicyDenied)
        } else {
            Ok(
                grant(p, o) + seq![
                    (allow_methods_name(), methods_text(p)),
                    (allow_headers_name(), allowed_headers_text(p)),
                ],
            )
        },
    }
}

/// The response after a CORS outcome: the granted headers appended, or the
/// response untouched when refused.
pub open spec fn applied(old: Response, new: Response, outcome: Result<Seq<PairView>, HttpError>) -> bool {
    &&& new.proto == old.proto
    &&& new.status == old.status
    &&& new.body == old.body
    &&& match outcome {
        Ok(add) => pair_views(new.headers@) == pair_views(old.headers@) + add,
        Err(_) => new.headers@ == old.headers@,
    }
}


/// The index of the first header named `name`, in any letter case.
pub fn find_header(hs: &Vec<Pair>, name: &[u8]) -> (r: Option<usize>)
    ensures
        match r {
            Some(i) => i < hs@.len() && header_value(pair_views(hs@), name@) == Some(hs@[i as int].value@),
            None => header_value(pair_views(hs@), name@) is None,
        },
{
    let ghost all = pair_views(hs@);
    let mut i: usize = 0;
    assert(all.subrange(0, all.len() as int) =~= all);
    while i < hs.len()
        invariant
            0 <= i <= hs@.len(),
            all == pair_views(hs@),
            header_value(all, name@) == header_value(all.subrange(i as int, all.len() as int), name@),
        decreases hs@.len() - i,
    {
        let ghost t = all.subrange(i as int, all.len() as int);
        assert(t[0] == hs@[i as int]@);
        if equals_ignore_case(hs[i].name.as_slice(), name) {
            return Some(i);
        }
        assert(t.drop_first() =~= all.subrange(i + 1, all.len() as int));
        i = i + 1;
    }
    assert(all.subrange(i as int, all.len() as int) =~= Seq::<PairView>::empty());
    None
}

fn is_origin_allowed(p: &CorsPolicy, o: &[u8]) -> (r: bool)
    ensures
        r == origin_allowed(p@, o@),
{
    proof {
        reveal_strlit("*");
    }
    if bytes_eq(o, text("*").as_slice()) {
        return false;
    }
    let mut i: usize = 0;
    while i < p.origins.len()
        invariant
            0 <= i <= p.origins@.len(),
            o@ != wildcard(),
            forall|j: int| 0 <= j < i ==> (#[trigger] p@.origins[j]) != o@,
        decreases p.origins@.len() - i,
    {
        if bytes_eq(p.origins[i].as_slice(), o) {
            assert(p@.origins[i as int] == o@);
            return true;
        }
        i = i + 1;
    }
    false
}

fn is_method_allowed(p: &CorsPolicy, t: &[u8]) -> (r: bool)
    ensures
        r == method_allowed(p@, t@),
{
    let m = match parse_method(t) {
        Some(m) => m,
        None => return false,
    };
    assert(method_of(t@) == Some(m));
    let mut i: usize = 0;
    while i < p.methods.len()
        invariant
            0 <= i <= p.methods@.len(),
            method_of(t@) == Some(m),
            forall|j: int| 0 <= j < i ==> p.methods@[j] != m,
        decreases p.methods@.len() - i,
    {
        if p.methods[i] == m {
            assert(p.methods@[i as int] == m);
            assert(p.methods@.contains(m));
            return true;
        }
        i = i + 1;
    }
    assert(!p.methods@.contains(m));
    false
}

proof fn lemma_trim_start_step(s: Seq<u8>, i: int)
    requires
        0 <= i < s.len(),
        s[i] == SP,
    ensures
        trim_start(s.subrange(i, s.len() as int)) == trim_start(s.subrange(i + 1, s.len() as int)),
{
    assert(s.subrange(i, s.len() as int).drop_first() =~= s.subrange(i + 1, s.len() as int));
}

proof fn lemma_trim_end_step(s: Seq<u8>, j: int)
    requires
        0 < j <= s.len(),
        s[j - 1] == SP,
    ensures
        trim_end(s.subrange(0, j)) == trim_end(s.subrange(0, j - 1)),
{
    assert(s.subrange(0, j).drop_last() =~= s.subrange(0, j - 1));
}

/// The bounds of `s` with its leading and trailing spaces cut off.
fn trim_bounds(s: &[u8]) -> (r: (usize, usize))
    ensures
        r.0 <= r.1 <= s@.len(),
        trim(s@) == s@.subrange(r.0 as int, r.1 as int),
{
    let mut i: usize = 0;
    assert(s@.subrange(0, s@.len() as int) =~= s@);
    while i < s.len() && s[i] == SP
        invariant
            0 <= i <= s@.len(),
            trim_start(s@) == trim_start(s@.subrange(i as int, s@.len() as int)),
        decreases s@.len() - i,
    {
        proof {
            lemma_trim_start_step(s@, i as int);
        }
        i = i + 1;
    }
    let ghost rest = s@.subrange(i as int, s@.len() as int);
    assert(trim_start(rest) == rest);
    let mut j: usize = s.len();
    assert(rest.subrange(0, rest.len() as int) =~= rest);
    while j > i && s[j - 1] == SP
        invariant
            i <= j <= s@.len(),
            rest == s@.subrange(i as int, s@.len() as int),
            trim_end(rest) == trim_end(rest.subrange(0, j - i)),
        decreases j,
    {
        proof {
            lemma_trim_end_step(rest, j - i);
        }
        j = j - 1;
    }
    assert(rest.subrange(0, j - i) =~= s@.subrange(i as int, j as int));
    (i, j)
}

fn is_header_allowed(p: &CorsPolicy, h: &[u8]) -> (r: bool)
    ensures
        r == header_allowed(p@, h@),
{
    if p.any_header || h.len() == 0 {
        return true;
    }
    let mut i: usize = 0;
    while i < p.headers.len()
        invariant
            0 <= i <= p.headers@.len(),
            forall|j: int| 0 <= j < i ==> !eq_ignore_case(#[trigger] p@.headers[j], h@),
        decreases p.headers@.len() - i,
    {
        if equals_ignore_case(p.headers[i].as_slice(), h) {
            assert(p@.headers[i as int] == p.headers@[i as int]@);
            return true;
        }
        i = i + 1;
    }
    false
}

fn are_headers_allowed(p: &CorsPolicy, list: &[u8]) -> (r: bool)
    ensures
        r == headers_allowed(p@, list@),
{
    let items = split_bytes(list, COMMA);
    let ghost all = split_on(list@, COMMA);
    let mut i: usize = 0;
    while i < items.len()
        invariant
            0 <= i <= items@.len(),
            all == split_on(list@, COMMA),
            views(items@) == all,
            forall|j: int| 0 <= j < i ==> header_allowed(p@, trim(#[trigger] all[j])),
        decreases items@.len() - i,
    {
        let item = items[i].as_slice();
        assert(all[i as int] == item@);
        let (a, b) = trim_bounds(item);
        if !is_header_allowed(p, &item[a..b]) {
            return false;
        }
        i = i + 1;
    }
    true
}

fn write_list(out: &mut Vec<u8>, items: &Vec<Vec<u8>>)
    requires
        old(out)@.len() == 0,
    ensures
        final(out)@ == list_text(views(items@)),
{
    let ghost all = views(items@);
    let mut i: usize = 0;
    while i < items.len()
        invariant
            0 <= i <= items@.len(),
            all == views(items@),
            out@ == join_with(all.subrange(0, i as int), COMMA),
        decreases items@.len() - i,
    {
        proof {
            lemma_join_push(all.subrange(0, i as int), all[i as int], COMMA);
            assert(all.subrange(0, i + 1) =~= all.subrange(0, i as int).push(all[i as int]));
        }
        if i > 0 {
            out.push(COMMA);
        }
        append_bytes(out, items[i].as_slice());
        i = i + 1;
    }
    assert(all.subrange(0, i as int) =~= all);
}

fn method_text(m: Method) -> (r: Vec<u8>)
    ensures
        r@ == method_token(m),
{
    proof {
        reveal_strlit("GET");
        reveal_strlit("HEAD");
        reveal_strlit("POST");
        reveal_strlit("PUT");
        reveal_strlit("DELETE");
        reveal_strlit("OPTIONS");
        reveal_strlit("PATCH");
    }
    match m {
        Method::Get => text("GET"),
        Method::Head => text("HEAD"),
        Method::Post => text("POST"),
        Method::Put => text("PUT"),
        Method::Delete => text("DELETE"),
        Method::Options => text("OPTIONS"),
        Method::Patch => text("PATCH"),
    }
}

fn methods_value(p: &CorsPolicy) -> (r: Vec<u8>)
    ensures
        r@ == methods_text(p@),
{
    let mut names: Vec<Vec<u8>> = Vec::new();
    let mut i: usize = 0;
    while i < p.methods.len()
        invariant
            0 <= i <= p.methods@.len(),
            views(names@) == p.methods@.subrange(0, i as int).map_values(|m: Method| method_token(m)),
        decreases p.methods@.len() - i,
    {
        let ghost before = names@;
        names.push(method_text(p.methods[i]));
        assert(views(names@) =~= views(before).push(method_token(p.methods@[i as int])));
        assert(p.methods@.subrange(0, i + 1).map_values(|m: Method| method_token(m)) =~= p.methods@.subrange(
            0,
            i as int,
        ).map_values(|m: Method| method_token(m)).push(method_token(p.methods@[i as int])));
        i = i + 1;
    }
    assert(p.methods@.subrange(0, i as int) =~= p.methods@);
    let mut out: Vec<u8> = Vec::new();
    write_list(&mut out, &names);
    out
}

fn headers_value(p: &CorsPolicy) -> (r: Vec<u8>)
    ensures
        r@ == allowed_headers_text(p@),
{
    proof {
        reveal_strlit("*");
    }
    if p.any_header {
        text("*")
    } else {
        let mut out: Vec<u8> = Vec::new();
        write_list(&mut out, &p.headers);
        out
    }
}

fn write_grant(resp: &mut Response, p: &CorsPolicy, o: &[u8])
    ensures
        applied(*old(resp), *final(resp), Ok(grant(p@, o@))),
{
    proof {
        reveal_strlit("Access-Control-Allow-Origin");
        reveal_strlit("Access-Control-Allow-Credentials");
        reveal_strlit("true");
    }
    let ghost before = resp.headers@;
    resp.add_header(text("Access-Control-Allow-Origin"), copy_range(o, 0, o.len()));
    assert(o@.subrange(0, o@.len() as int) =~= o@);
    if p.credentials {
        resp.add_header(text("Access-Control-Allow-Credentials"), text("true"));
    }
    assert(pair_views(resp.headers@) =~= pair_views(before) + grant(p@, o@));
}

/// Applies the policy to a simple (not preflight) request.
pub fn simple(req: &Request, resp: &mut Response, p: &CorsPolicy) -> (r: Result<(), HttpError>)
    ensures
        r is Err ==> *final(resp) == *old(resp),
        applied(*old(resp), *final(resp), simple_outcome(p@, req@.headers)),
        match simple_outcome(p@, req@.headers) {
            Ok(_) => r is Ok,
            Err(e) => r == Err::<(), HttpError>(e),
        },
{
    proof {
        reveal_strlit("origin");
    }
    let i = match find_header(&req.headers, text("origin").as_slice()) {
        Some(i) => i,
        None => {
            assert(pair_views(resp.headers@) + Seq::<PairView>::empty() =~= pair_views(resp.headers@));
            return Ok(());
        },
    };
    let o = req.headers[i].value.as_slice();
    if !is_origin_allowed(p, o) {
        return Err(HttpError::PolicyDenied);
    }
    write_grant(resp, p, o);
    Ok(())
}

/// Applies the policy to a preflight request.
pub fn preflight(req: &Request, resp: &mut Response, p: &CorsPolicy) -> (r: Result<(), HttpError>)
    ensures
        r is Err ==> *final(resp) == *old(resp),
        applied(*old(resp), *final(resp), preflight_outcome(p@, req@.headers)),
        match preflight_outcome(p@, req@.headers) {
            Ok(_) => r is Ok,
            Err(e) => r == Err::<(), HttpError>(e),
        },
{
    proof {
        reveal_strlit("origin");
        reveal_strlit("access-control-request-method");
        reveal_strlit("access-control-request-headers");
        reveal_strlit("Access-Control-Allow-Methods");
        reveal_strlit("Access-Control-Allow-Headers");
    }
    let i = match find_header(&req.headers, text("origin").as_slice()) {
        Some(i) => i,
        None => {
            assert(pair_views(resp.headers@) + Seq::<PairView>::empty() =~= pair_views(resp.headers@));
            return Ok(());
        },
    };
    let o = req.headers[i].value.as_slice();
    if !is_origin_allowed(p, o) {
        return Err(HttpError::PolicyDenied);
    }
    match find_header(&req.headers, text("access-control-request-method").as_slice()) {
        Some(k) => {
            if !is_method_allowed(p, req.headers[k].value.as_slice()) {
                return Err(HttpError::PolicyDenied);
            }
        },
        None => {},
    }
    match find_header(&req.headers, text("access-control-request-headers").as_slice()) {
        Some(k) => {
            if !are_headers_allowed(p, req.headers[k].value.as_slice()) {
                return Err(HttpError::PolicyDenied);
            }
        },
        None => {},
    }
    let ghost before = resp.headers@;
    write_grant(resp, p, o);
    let ghost mid = resp.headers@;
    let mv = methods_value(p);
    resp.add_header(text("Access-Control-Allow-Methods"), mv);
    let ghost mid2 = resp.headers@;
    assert(pair_views(mid2) =~= pair_views(mid).push((allow_methods_name(), methods_text(p@))));
    let hv = headers_value(p);
    resp.add_header(text("Access-Control-Allow-Headers"), hv);
    assert(pair_views(resp.headers@) =~= pair_views(mid2).push((allow_headers_name(), allowed_headers_text(p@))));
    let ghost add = grant(p@, o@) + seq![
        (allow_methods_name(), methods_text(p@)),
        (allow_headers_name(), allowed_headers_text(p@)),
    ];
    assert(pair_views(resp.headers@) =~= pair_views(before) + add);
    assert(preflight_outcome(p@, req@.headers) == Ok::<Seq<PairView>, HttpError>(add));
    Ok(())
}

/// A request whose `Origin` the policy does not list is refused with
/// `PolicyDenied`, simple or preflight, whatever its method and headers.
pub proof fn law_unlisted_origin_denied(p: PolicyView, hs: Seq<PairView>)
    requires
        header_value(hs, origin_name()) is Some,
        !origin_allowed(p, header_value(hs, origin_name())->0),
    ensures
        simple_outcome(p, hs) == Err::<Seq<PairView>, HttpError>(HttpError::PolicyDenied),
        preflight_outcome(p, hs) == Err::<Seq<PairView>, HttpError>(HttpError::PolicyDenied),
{
}

/// Under a policy that allows credentials, a granted request never gets the
/// wildcard as its allowed origin: it gets its own origin back.
pub proof fn law_credentials_echo_origin(p: PolicyView, hs: Seq<PairView>)
    requires
        p.credentials,
    ensures
        simple_outcome(p, hs) is Ok ==> forall|i: int|
            0 <= i < simple_outcome(p, hs)->Ok_0.len() && (#[trigger] simple_outcome(p, hs)->Ok_0[i]).0
                == allow_origin_name() ==> simple_outcome(p, hs)->Ok_0[i].1 != wildcard()
                && simple_outcome(p, hs)->Ok_0[i].1 == header_value(hs, origin_name())->0,
        preflight_outcome(p, hs) is Ok ==> forall|i: int|
            0 <= i < preflight_outcome(p, hs)->Ok_0.len() && (#[trigger] preflight_outcome(p, hs)->Ok_0[i]).0
                == allow_origin_name() ==> preflight_outcome(p, hs)->Ok_0[i].1 != wildcard()
                && preflight_outcome(p, hs)->Ok_0[i].1 == header_value(hs, origin_name())->0,
{
    reveal_strlit("Access-Control-Allow-Origin");
    reveal_strlit("Access-Control-Allow-Credentials");
    reveal_strlit("Access-Control-Allow-Methods");
    reveal_strlit("Access-Control-Allow-Headers");
    let cred = allow_credentials_name();
    let meth = allow_methods_name();
    let hdrs = allow_headers_name();
    let orig = allow_origin_name();
    assert(cred.len() != orig.len());
    assert(meth[22] != orig[22]);
    assert(hdrs[22] != orig[22]);
}

} // verus!
