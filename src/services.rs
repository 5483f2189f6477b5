//! The account service: routing by path and method, the auth handlers, and
//! the credential table that login and registration consult.
use vstd::prelude::*;
use vstd::string::StringSliceAdditionalSpecFns;
use crate::bytes::{
    append_bytes, ascii, bytes_eq, copy_range, decimal, decimal_value, has_prefix, parse_decimal,
    push_decimal, starts_with, text,
};
use crate::cookie::{
    contains_cookie, cookies_of, has_cookie_named, read_cookies, set_cookie_name, set_cookie_text,
    write_cookie, CookieAttributes, SameSite,
};
use crate::cors::{applied, preflight, preflight_outcome, simple, simple_outcome, CorsPolicy, PolicyView};
use crate::form::{login_form_of, register_form_of, Login, Register};
use crate::http::{error_status, pair_views, HttpError, Method, Pair, Protocol, Request, RequestView, Response, Status};
use crate::wire::{parse, request_of, PairView};

verus! {

/// The services, each answering one path.
#[derive(Debug, Clone, Copy, PartialEq, Eq, Structural)]
pub enum Services {
    Auth,
}

/// A clearance level.
#[derive(Debug, Clone, Copy, PartialEq, Eq, Structural)]
pub enum Auth {
    Nameless,
    Traveller,
    Citizen,
    Mayor,
}

pub open spec fn clearance_of(c: u8) -> Auth {
    if c == 1 {
        Auth::Traveller
    } else if c == 2 {
        Auth::Citizen
    } else if c == 4 {
        Auth::Mayor
    } else {
        Auth::Nameless
    }
}

impl Auth {
    /// The clearance of a level number; unknown numbers are `Nameless`.
    pub fn new(clearance: u8) -> (r: Auth)
        ensures
            r == clearance_of(clearance),
    {
        match clearance {
            0 => Auth::Nameless,
            1 => Auth::Traveller,
            2 => Auth::Citizen,
            4 => Auth::Mayor,
            _ => Auth::Nameless,
        }
    }
}

pub open spec fn auth_path() -> Seq<u8> {
    ascii("/auth/user"@)
}

/// The service that answers `path`.
pub fn service_for(path: &[u8]) -> (r: Result<Services, HttpError>)
    ensures
        r == (if path@ == auth_path() {
            Ok::<Services, HttpError>(Services::Auth)
        } else {
            Err(HttpError::NotFound)
        }),
{
    proof {
        reveal_strlit("/auth/user");
    }
    if bytes_eq(path, text("/auth/user").as_slice()) {
        Ok(Services::Auth)
    } else {
        Err(HttpError::NotFound)
    }
}

/// The service that answers `path`, matched exactly; `NotFound` otherwise.
pub fn lookup(path: &str) -> (r: Result<Services, HttpError>)
    ensures
        r == (if path.spec_bytes() == auth_path() {
            Ok::<Services, HttpError>(Services::Auth)
        } else {
            Err(HttpError::NotFound)
        }),
{
    service_for(path.as_bytes())
}

/// The method that a form's `method_override` action stands for: a `POST`
/// may name `put` or `post`, a `GET` stays; anything else is malformed.
pub fn route_user_method(method: Method, action: &str) -> (r: Result<Method, HttpError>)
    ensures
        r == (if method == Method::Get {
            Ok::<Method, HttpError>(Method::Get)
        } else if method == Method::Post && action.spec_bytes() == ascii("put"@) {
            Ok(Method::Put)
        } else if method == Method::Post && action.spec_bytes() == ascii("post"@) {
            Ok(Method::Post)
        } else {
            Err(HttpError::MalformedInput)
        }),
{
    proof {
        reveal_strlit("put");
        reveal_strlit("post");
    }
    if method == Method::Get {
        return Ok(method);
    } else if method == Method::Post {
        let a = action.as_bytes();
        if bytes_eq(a, text("put").as_slice()) {
            return Ok(Method::Put);
        } else if bytes_eq(a, text("post").as_slice()) {
            return Ok(method);
        } else {
            return Err(HttpError::MalformedInput);
        }
    }
    Err(HttpError::MalformedInput)
}

pub open spec fn auth_policy_view() -> PolicyView {
    PolicyView {
        origins: seq![
            ascii("http://localhost:3000"@),
            ascii("http://localhost:3001"@),
            ascii("http://localhost:3002"@),
        ],
        methods: seq![Method::Post, Method::Put],
        any_header: false,
        headers: seq![ascii("content-type"@), ascii("content-length"@), ascii("set-cookie"@)],
        credentials: true,
    }
}

/// The cross-origin policy of the account service.
pub fn auth_policy() -> (r: CorsPolicy)
    ensures
        r@ == auth_policy_view(),
{
    proof {
        reveal_strlit("http://localhost:3000");
        reveal_strlit("http://localhost:3001");
        reveal_strlit("http://localhost:3002");
        reveal_strlit("content-type");
        reveal_strlit("content-length");
        reveal_strlit("set-cookie");
    }
    let origins = vec![text("http://localhost:3000"), text("http://localhost:3001"), text("http://localhost:3002")];
    let headers = vec![text("content-type"), text("content-length"), text("set-cookie")];
    let r = CorsPolicy { origins, methods: vec![Method::Post, Method::Put], any_header: false, headers, credentials: true };
    assert(r@.origins =~= auth_policy_view().origins);
    assert(r@.headers =~= auth_policy_view().headers);
    assert(r@.methods =~= auth_policy_view().methods);
    r
}

pub open spec fn cors_outcome(req: RequestView) -> Result<Seq<PairView>, HttpError> {
    if req.method == Method::Options {
        preflight_outcome(auth_policy_view(), req.headers)
    } else {
        simple_outcome(auth_policy_view(), req.headers)
    }
}

/// Applies the account service's policy: a preflight for `OPTIONS`, the
/// simple check for any other method.
pub fn cors(req: &Request, resp: &mut Response) -> (r: Result<(), HttpError>)
    ensures
        r is Err ==> *final(resp) == *old(resp),
        applied(*old(resp), *final(resp), cors_outcome(req@)),
        match cors_outcome(req@) {
            Ok(_) => r is Ok,
            Err(e) => r == Err::<(), HttpError>(e),
        },
{
    let policy = auth_policy();
    if req.method == Method::Options {
        preflight(req, resp, &policy)
    } else {
        simple(req, resp, &policy)
    }
}

pub open spec fn token_name() -> Seq<u8> {
    ascii("tkn"@)
}

/// The attributes of the token cookie that a preflight hands out.
pub open spec fn visitor_attributes() -> CookieAttributes {
    CookieAttributes { same_site: Some(SameSite::Strict), secure: true, partitioned: true, max_age: Some(183) }
}

/// The attributes of the token cookie that a login hands out.
pub open spec fn login_attributes() -> CookieAttributes {
    CookieAttributes { same_site: Some(SameSite::Strict), secure: true, partitioned: true, max_age: None }
}

pub open spec fn visitor_token() -> Seq<u8> {
    ascii("Traveller"@)
}

pub open spec fn login_token() -> Seq<u8> {
    ascii("boukennoshou"@)
}

/// The response after a token cookie was offered: it gets a `Set-Cookie`
/// for `tkn` when the request carried none.
pub open spec fn token_issued(
    old: Response,
    new: Response,
    req: RequestView,
    value: Seq<u8>,
    a: CookieAttributes,
) -> bool {
    &&& new.proto == old.proto
    &&& new.status == old.status
    &&& new.body == old.body
    &&& match cookies_of(req.headers) {
        None => new.headers@ == old.headers@,
        Some(cs) => if has_cookie_named(cs, token_name()) {
            new.headers@ == old.headers@
        } else {
            pair_views(new.headers@) == pair_views(old.headers@).push(
                (set_cookie_name(), set_cookie_text(token_name(), value, a)),
            )
        },
    }
}

/// Hands out a token cookie unless the request already carries one.
fn issue_token(req: &Request, resp: &mut Response, value: &[u8], a: CookieAttributes) -> (r: Result<(), HttpError>)
    ensures
        token_issued(*old(resp), *final(resp), req@, value@, a),
        r is Ok <==> cookies_of(req@.headers) is Some,
        r is Err ==> r == Err::<(), HttpError>(HttpError::MalformedInput) && *final(resp) == *old(resp),
{
    proof {
        reveal_strlit("tkn");
    }
    let cookies = match read_cookies(&req.headers) {
        Ok(c) => c,
        Err(_) => return Err(HttpError::MalformedInput),
    };
    let name = text("tkn");
    if !contains_cookie(&cookies, name.as_slice()) {
        let h = write_cookie(name.as_slice(), value, &a);
        let ghost before = resp.headers@;
        resp.add_header(h.name, h.value);
        assert(pair_views(resp.headers@) =~= pair_views(before).push((set_cookie_name(), set_cookie_text(token_name(), value@, a))));
    }
    Ok(())
}

/// The value of the first query parameter named `key`.
pub open spec fn param_of(ps: Seq<PairView>, key: Seq<u8>) -> Option<Seq<u8>>
    decreases ps.len(),
{
    if ps.len() == 0 {
        None
    } else if ps[0].0 == key {
        Some(ps[0].1)
    } else {
        param_of(ps.drop_first(), key)
    }
}

/// The query names a user by a number that fits in a byte.
pub open spec fn user_param_ok(query: Option<Seq<PairView>>) -> bool {
    match query {
        None => false,
        Some(ps) => match param_of(ps, ascii("user"@)) {
            None => false,
            Some(v) => match decimal_value(v) {
                Some(n) => n <= 255,
                None => false,
            },
        },
    }
}

pub(crate) fn find_param(ps: &Vec<Pair>, key: &[u8]) -> (r: Option<usize>)
    ensures
        match r {
            Some(i) => i < ps@.len() && param_of(pair_views(ps@), key@) == Some(ps@[i as int].value@),
            None => param_of(pair_views(ps@), key@) is None,
        },
{
    let ghost all = pair_views(ps@);
    let mut i: usize = 0;
    assert(all.subrange(0, all.len() as int) =~= all);
    while i < ps.len()
        invariant
            0 <= i <= ps@.len(),
            all == pair_views(ps@),
            param_of(all, key@) == param_of(all.subrange(i as int, all.len() as int), key@),
        decreases ps@.len() - i,
    {
        let ghost t = all.subrange(i as int, all.len() as int);
        assert(t[0] == ps@[i as int]@);
        if bytes_eq(ps[i].name.as_slice(), key) {
            return Some(i);
        }
        assert(t.drop_first() =~= all.subrange(i + 1, all.len() as int));
        i = i + 1;
    }
    assert(all.subrange(i as int, all.len() as int) =~= Seq::<PairView>::empty());
    None
}

fn has_user_param(query: &Option<Vec<Pair>>) -> (r: bool)
    ensures
        r == user_param_ok(match query {
            Some(q) => Some(pair_views(q@)),
            None => None,
        }),
{
    proof {
        reveal_strlit("user");
    }
    match query {
        None => false,
        Some(q) => match find_param(q, text("user").as_slice()) {
            None => false,
            Some(i) => match parse_decimal(q[i].value.as_slice()) {
                Some(n) => n <= 255,
                None => false,
            },
        },
    }
}

pub open spec fn identity_body() -> Seq<u8> {
    ascii("1"@)
}

pub open spec fn content_length_header() -> Seq<u8> {
    ascii("Content-Length"@)
}

pub open spec fn content_type_header() -> Seq<u8> {
    ascii("Content-Type"@)
}

pub open spec fn text_plain() -> Seq<u8> {
    ascii("text/plain"@)
}

pub open spec fn created_message() -> Seq<u8> {
    ascii("new account created successfully"@)
}

/// What a `GET` leads to.
pub open spec fn get_outcome(req: RequestView) -> Result<Seq<PairView>, HttpError> {
    if !user_param_ok(req.query) {
        Err(HttpError::MalformedInput)
    } else {
        cors_outcome(req)
    }
}

/// What an `OPTIONS` leads to: the cookies must be readable, and the
/// preflight must pass.
pub open spec fn options_outcome(req: RequestView) -> Result<(), HttpError> {
    match cookies_of(req.headers) {
        None => Err(HttpError::MalformedInput),
        Some(_) => match cors_outcome(req) {
            Ok(_) => Ok(()),
            Err(e) => Err(e),
        },
    }
}

pub open spec fn override_prefix() -> Seq<u8> {
    ascii("method_override=put"@)
}

/// A store query: look a credential up (`false`) or insert it (`true`).
pub type QueryView = (bool, PairView);

pub open spec fn register_query(body: Seq<u8>) -> Result<QueryView, HttpError> {
    match register_form_of(body) {
        None => Err(HttpError::MalformedInput),
        Some(f) => Ok((true, f)),
    }
}

/// The store query that a `POST` asks for: a login, or a registration when
/// the body starts with `method_override=put`.
pub open spec fn post_query(req: RequestView) -> Result<QueryView, HttpError> {
    match req.body {
        None => Err(HttpError::MalformedInput),
        Some(b) => if has_prefix(b, override_prefix()) {
            register_query(b)
        } else {
            match login_form_of(b) {
                None => Err(HttpError::MalformedInput),
                Some(f) => Ok((false, f)),
            }
        },
    }
}

/// The store query that a `PUT` asks for.
pub open spec fn put_query(req: RequestView) -> Result<QueryView, HttpError> {
    match req.body {
        None => Err(HttpError::MalformedInput),
        Some(b) => register_query(b),
    }
}

/// A name and a password, as the credential table holds them.
#[derive(Debug, Clone, PartialEq, Eq)]
pub struct Credential {
    pub name: Vec<u8>,
    pub password: Vec<u8>,
}

impl View for Credential {
    type V = PairView;

    open spec fn view(&self) -> PairView {
        (self.name@, self.password@)
    }
}

/// What a handler needs from the credential store.
#[derive(Debug, Clone, PartialEq, Eq)]
pub enum StoreQuery {
    /// The record with exactly this name and password.
    Find(Credential),
    /// A new record.
    Insert(Credential),
}

impl View for StoreQuery {
    type V = QueryView;

    open spec fn view(&self) -> QueryView {
        match self {
            StoreQuery::Find(c) => (false, c@),
            StoreQuery::Insert(c) => (true, c@),
        }
    }
}

/// What the credential store answered.
#[derive(Debug, Clone, PartialEq, Eq)]
pub enum StoreReply {
    /// The record that a lookup found.
    Found(Credential),
    /// No record matched.
    Missing,
    /// The record was written.
    Inserted,
    /// The store failed.
    Failed,
}

/// The result of a store exchange, given the query and the store's answer.
pub open spec fn completion(q: QueryView, reply: StoreReply, req: RequestView) -> Result<(), HttpError> {
    if !q.0 {
        match reply {
            StoreReply::Found(c) => if c@ == q.1 {
                match cookies_of(req.headers) {
                    None => Err(HttpError::MalformedInput),
                    Some(_) => Ok(()),
                }
            } else {
                Err(HttpError::CredentialFailure)
            },
            _ => Err(HttpError::CredentialFailure),
        }
    } else {
        match reply {
            StoreReply::Inserted => Ok(()),
            _ => Err(HttpError::CredentialFailure),
        }
    }
}

impl Auth {
    /// `GET`: checks the `user` query parameter and the policy, then answers
    /// with a small identity payload and its length and type.
    pub fn get(&self, req: &Request, resp: &mut Response) -> (r: Result<(), HttpError>)
        ensures
            final(resp).proto == old(resp).proto,
            final(resp).status == old(resp).status,
            match get_outcome(req@) {
                Err(e) => r == Err::<(), HttpError>(e) && *final(resp) == *old(resp),
                Ok(add) => r is Ok && final(resp).proto == old(resp).proto && final(resp).status == old(resp).status
                    && final(resp).body@ == old(resp).body@ + identity_body() && pair_views(final(resp).headers@)
                    == pair_views(old(resp).headers@) + add + seq![
                    (content_length_header(), decimal(identity_body().len())),
                    (content_type_header(), text_plain()),
                ],
            },
    {
        proof {
            reveal_strlit("1");
            reveal_strlit("Content-Length");
            reveal_strlit("Content-Type");
            reveal_strlit("text/plain");
        }
        if !has_user_param(&req.query) {
            return Err(HttpError::MalformedInput);
        }
        let ghost before = *resp;
        match cors(req, resp) {
            Ok(_) => {},
            Err(e) => return Err(e),
        }
        let ghost mid = resp.headers@;
        let data = text("1");
        append_bytes(&mut resp.body, data.as_slice());
        let mut len: Vec<u8> = Vec::new();
        push_decimal(&mut len, data.len() as u64);
        resp.add_header(text("Content-Length"), len);
        let ghost mid2 = resp.headers@;
        resp.add_header(text("Content-Type"), text("text/plain"));
        proof {
            assert(len@ =~= decimal(identity_body().len()));
            assert(pair_views(mid2) =~= pair_views(mid).push((content_length_header(), len@)));
            assert(pair_views(resp.headers@) =~= pair_views(mid2).push((content_type_header(), text_plain())));
            assert(pair_views(resp.headers@) =~= pair_views(before.headers@) + get_outcome(req@)->Ok_0 + seq![
                (content_length_header(), decimal(identity_body().len())),
                (content_type_header(), text_plain()),
            ]);
        }
        Ok(())
    }

    /// `OPTIONS`: hands out a visitor token when the request carries none,
    /// then applies the policy (a preflight, for an `OPTIONS` request).
    pub fn options(&self, req: &Request, resp: &mut Response) -> (r: Result<(), HttpError>)
        ensures
            final(resp).proto == old(resp).proto,
            final(resp).status == old(resp).status,
            r == options_outcome(req@),
            r is Ok ==> exists|mid: Response|
                token_issued(*old(resp), mid, req@, visitor_token(), visitor_attributes()) && applied(
                    mid,
                    *final(resp),
                    cors_outcome(req@),
                ),
    {
        proof {
            reveal_strlit("Traveller");
        }
        let a = CookieAttributes {
            same_site: Some(SameSite::Strict),
            secure: true,
            partitioned: true,
            max_age: Some(183),
        };
        match issue_token(req, resp, text("Traveller").as_slice(), a) {
            Ok(_) => {},
            Err(e) => return Err(e),
        }
        let ghost mid = *resp;
        match cors(req, resp) {
            Ok(_) => Ok(()),
            Err(e) => Err(e),
        }
    }

    /// `POST`: a login, or a registration when the body asks for `put`. It
    /// returns the store query to run; the response is untouched.
    pub fn post(&self, req: &Request, resp: &mut Response) -> (r: Result<StoreQuery, HttpError>)
        ensures
            *final(resp) == *old(resp),
            match post_query(req@) {
                Ok(q) => r is Ok && r->Ok_0@ == q,
                Err(e) => r == Err::<StoreQuery, HttpError>(e),
            },
    {
        proof {
            reveal_strlit("method_override=put");
        }
        let data = match &req.body {
            Some(b) => b.as_slice(),
            None => return Err(HttpError::MalformedInput),
        };
        if starts_with(data, text("method_override=put").as_slice()) {
            return self.put(req, resp);
        }
        let form = match Login::parse(data) {
            Ok(f) => f,
            Err(e) => return Err(e),
        };
        Ok(StoreQuery::Find(Credential { name: form.name, password: form.pswd }))
    }

    /// `PUT`: a registration. It returns the store query to run.
    pub fn put(&self, req: &Request, resp: &mut Response) -> (r: Result<StoreQuery, HttpError>)
        ensures
            *final(resp) == *old(resp),
            match put_query(req@) {
                Ok(q) => r is Ok && r->Ok_0@ == q,
                Err(e) => r == Err::<StoreQuery, HttpError>(e),
            },
    {
        let data = match &req.body {
            Some(b) => b.as_slice(),
            None => return Err(HttpError::MalformedInput),
        };
        let form = match Register::parse(data) {
            Ok(f) => f,
            Err(e) => return Err(e),
        };
        Ok(StoreQuery::Insert(Credential { name: form.name, password: form.pswd }))
    }

    /// `DELETE`: accepted, and nothing is done.
    pub fn delete(&self, req: &Request, resp: &mut Response) -> (r: Result<(), HttpError>)
        ensures
            r is Ok,
            *final(resp) == *old(resp),
    {
        Ok(())
    }

    /// Finishes a `POST` or `PUT` with the store's answer: a login that
    /// matched gets a token cookie if it had none; a registration gets
    /// `201 Created` and a confirmation.
    pub fn complete(&self, q: &StoreQuery, reply: &StoreReply, req: &Request, resp: &mut Response) -> (r: Result<(), HttpError>)
        ensures
            r == completion(q@, *reply, req@),
            final(resp).proto == old(resp).proto,
            final(resp).status == if r is Ok && q@.0 { Status::Created } else { old(resp).status },
            r is Err ==> *final(resp) == *old(resp),
            r is Ok && !q@.0 ==> token_issued(*old(resp), *final(resp), req@, login_token(), login_attributes()),
            r is Ok && q@.0 ==> final(resp).proto == old(resp).proto && final(resp).status == Status::Created
                && final(resp).headers == old(resp).headers && final(resp).body@ == old(resp).body@
                + created_message(),
    {
        proof {
            reveal_strlit("boukennoshou");
            reveal_strlit("new account created successfully");
        }
        match q {
            StoreQuery::Find(f) => {
                let rec = match reply {
                    StoreReply::Found(rec) => rec,
                    _ => return Err(HttpError::CredentialFailure),
                };
                let form = Login { name: copy_range(f.name.as_slice(), 0, f.name.len()), pswd: copy_range(f.password.as_slice(), 0, f.password.len()) };
                assert(f.name@.subrange(0, f.name@.len() as int) =~= f.name@);
                assert(f.password@.subrange(0, f.password@.len() as int) =~= f.password@);
                match form.match_user(rec.name.as_slice(), rec.password.as_slice()) {
                    Ok(_) => {},
                    Err(e) => return Err(e),
                }
                let a = CookieAttributes { same_site: Some(SameSite::Strict), secure: true, partitioned: true, max_age: None };
                match issue_token(req, resp, text("boukennoshou").as_slice(), a) {
                    Ok(_) => Ok(()),
                    Err(e) => Err(e),
                }
            },
            StoreQuery::Insert(_) => {
                match reply {
                    StoreReply::Inserted => {},
                    _ => return Err(HttpError::CredentialFailure),
                }
                resp.status = Status::Created;
                let msg = text("new account created successfully");
                append_bytes(&mut resp.body, msg.as_slice());
                Ok(())
            },
        }
    }
}


/// What dispatching a request by its method leads to: a result, or a store
/// query still to run.
pub open spec fn dispatch_outcome(req: RequestView) -> Result<Option<QueryView>, HttpError> {
    match req.method {
        Method::Get => match get_outcome(req) {
            Ok(_) => Ok(None),
            Err(e) => Err(e),
        },
        Method::Options => match options_outcome(req) {
            Ok(_) => Ok(None),
            Err(e) => Err(e),
        },
        Method::Post => match post_query(req) {
            Ok(q) => Ok(Some(q)),
            Err(e) => Err(e),
        },
        Method::Put => match put_query(req) {
            Ok(q) => Ok(Some(q)),
            Err(e) => Err(e),
        },
        Method::Delete => Ok(None),
        _ => Err(HttpError::MalformedInput),
    }
}

pub open spec fn query_result(r: Result<Option<StoreQuery>, HttpError>) -> Result<Option<QueryView>, HttpError> {
    match r {
        Ok(Some(q)) => Ok(Some(q@)),
        Ok(None) => Ok(None),
        Err(e) => Err(e),
    }
}

impl Auth {
    /// Hands the request to the handler of its method; methods without one
    /// are malformed requests.
    pub fn run(&self, req: &Request, resp: &mut Response) -> (r: Result<Option<StoreQuery>, HttpError>)
        ensures
            final(resp).proto == old(resp).proto,
            final(resp).status == old(resp).status,
            query_result(r) == dispatch_outcome(req@),
    {
        match req.method {
            Method::Get => match self.get(req, resp) {
                Ok(_) => Ok(None),
                Err(e) => Err(e),
            },
            Method::Options => match self.options(req, resp) {
                Ok(_) => Ok(None),
                Err(e) => Err(e),
            },
            Method::Post => match self.post(req, resp) {
                Ok(q) => Ok(Some(q)),
                Err(e) => Err(e),
            },
            Method::Put => match self.put(req, resp) {
                Ok(q) => Ok(Some(q)),
                Err(e) => Err(e),
            },
            Method::Delete => match self.delete(req, resp) {
                Ok(_) => Ok(None),
                Err(e) => Err(e),
            },
            _ => Err(HttpError::MalformedInput),
        }
    }
}

impl Services {
    /// Serves a request; a `POST` or `PUT` hands back the store query that
    /// `finish` completes.
    pub fn serve(&self, req: &Request, resp: &mut Response) -> (r: Result<Option<StoreQuery>, HttpError>)
        ensures
            final(resp).proto == old(resp).proto,
            final(resp).status == old(resp).status,
            query_result(r) == dispatch_outcome(req@),
    {
        match self {
            Services::Auth => Auth::new(0).run(req, resp),
        }
    }

    /// Completes a request with the store's answer to its query.
    pub fn finish(&self, q: &StoreQuery, reply: &StoreReply, req: &Request, resp: &mut Response) -> (r: Result<(), HttpError>)
        ensures
            r == completion(q@, *reply, req@),
            final(resp).proto == old(resp).proto,
            final(resp).status == if r is Ok && q@.0 { Status::Created } else { old(resp).status },
    {
        match self {
            Services::Auth => Auth::new(0).complete(q, reply, req, resp),
        }
    }
}

/// The name and password records of the accounts, in the order they were
/// created. Names need not be unique.
#[derive(Debug, Clone)]
pub struct CredentialTable {
    records: Vec<Credential>,
}

impl View for CredentialTable {
    type V = Seq<PairView>;

    closed spec fn view(&self) -> Seq<PairView> {
        self.records@.map_values(|c: Credential| c@)
    }
}

impl CredentialTable {
    pub fn new() -> (r: CredentialTable)
        ensures
            r@ == Seq::<PairView>::empty(),
    {
        let r = CredentialTable { records: Vec::new() };
        assert(r@ =~= Seq::<PairView>::empty());
        r
    }

    /// Adds a record; nothing is checked.
    pub fn insert(&mut self, c: Credential)
        ensures
            final(self)@ == old(self)@.push(c@),
    {
        let ghost before = self.records@;
        self.records.push(c);
        assert(self@ =~= before.map_values(|c: Credential| c@).push(c@));
    }

    /// A record with exactly this name and password, if there is one.
    pub fn find(&self, name: &[u8], pswd: &[u8]) -> (r: Option<Credential>)
        ensures
            match r {
                Some(c) => c@ == (name@, pswd@) && self@.contains(c@),
                None => !self@.contains((name@, pswd@)),
            },
    {
        let mut i: usize = 0;
        while i < self.records.len()
            invariant
                0 <= i <= self.records@.len(),
                self@.len() == self.records@.len(),
                forall|j: int| 0 <= j < i ==> #[trigger] self@[j] != (name@, pswd@),
            decreases self.records@.len() - i,
        {
            let c = &self.records[i];
            assert(self@[i as int] == c@);
            if bytes_eq(c.name.as_slice(), name) && bytes_eq(c.password.as_slice(), pswd) {
                let found = Credential {
                    name: copy_range(c.name.as_slice(), 0, c.name.len()),
                    password: copy_range(c.password.as_slice(), 0, c.password.len()),
                };
                assert(c.name@.subrange(0, c.name@.len() as int) =~= c.name@);
                assert(c.password@.subrange(0, c.password@.len() as int) =~= c.password@);
                return Some(found);
            }
            i = i + 1;
        }
        None
    }

    /// Answers a store query from this table.
    pub fn answer(&mut self, q: &StoreQuery) -> (r: StoreReply)
        ensures
            q@.0 ==> final(self)@ == old(self)@.push(q@.1) && r == StoreReply::Inserted,
            !q@.0 ==> final(self)@ == old(self)@ && (match r {
                StoreReply::Found(c) => c@ == q@.1,
                StoreReply::Missing => !old(self)@.contains(q@.1),
                _ => false,
            }),
            !q@.0 ==> (r is Found <==> old(self)@.contains(q@.1)),
    {
        match q {
            StoreQuery::Find(c) => match self.find(c.name.as_slice(), c.password.as_slice()) {
                Some(rec) => StoreReply::Found(rec),
                None => StoreReply::Missing,
            },
            StoreQuery::Insert(c) => {
                let rec = Credential {
                    name: copy_range(c.name.as_slice(), 0, c.name.len()),
                    password: copy_range(c.password.as_slice(), 0, c.password.len()),
                };
                assert(c.name@.subrange(0, c.name@.len() as int) =~= c.name@);
                assert(c.password@.subrange(0, c.password@.len() as int) =~= c.password@);
                self.insert(rec);
                StoreReply::Inserted
            },
        }
    }
}

/// The result of a store exchange against a table that holds `records`.
pub open spec fn exchange_result(records: Seq<PairView>, q: QueryView, req: RequestView) -> Result<(), HttpError> {
    if q.0 {
        Ok(())
    } else if records.contains(q.1) {
        match cookies_of(req.headers) {
            None => Err(HttpError::MalformedInput),
            Some(_) => Ok(()),
        }
    } else {
        Err(HttpError::CredentialFailure)
    }
}

/// A whole exchange against a table: the result, and the records after it.
pub open spec fn exchange(records: Seq<PairView>, req: RequestView) -> (Result<(), HttpError>, Seq<PairView>) {
    match dispatch_outcome(req) {
        Err(e) => (Err(e), records),
        Ok(None) => (Ok(()), records),
        Ok(Some(q)) => (exchange_result(records, q, req), if q.0 { records.push(q.1) } else { records }),
    }
}

/// Serves a request whose store queries the table answers.
pub fn serve_with_table(
    table: &mut CredentialTable,
    service: Services,
    req: &Request,
    resp: &mut Response,
) -> (r: Result<(), HttpError>)
    ensures
        (r, final(table)@) == exchange(old(table)@, req@),
        final(resp).proto == old(resp).proto,
        final(resp).status == match (r, dispatch_outcome(req@)) {
            (Ok(_), Ok(Some(q))) => if q.0 { Status::Created } else { old(resp).status },
            _ => old(resp).status,
        },
{
    match service.serve(req, resp) {
        Err(e) => Err(e),
        Ok(None) => Ok(()),
        Ok(Some(q)) => {
            let reply = table.answer(&q);
            service.finish(&q, &reply, req, resp)
        },
    }
}

/// Turns a failed request into its error response: the error's status, no
/// headers, an empty body.
pub fn respond_error(resp: &mut Response, e: HttpError)
    ensures
        final(resp).proto == old(resp).proto,
        final(resp).status == error_status(e),
        final(resp).headers@.len() == 0,
        final(resp).body@.len() == 0,
{
    resp.clear();
    resp.status = e.status();
}

/// One exchange on a connection, against a table: parse the bytes, find the
/// service of the path, serve, and turn a failure into its error response.
pub fn handle(table: &mut CredentialTable, bytes: &[u8]) -> (r: Response)
    ensures
        r.proto == Protocol::Http11,
        match request_of(bytes@) {
            None => r.status == Status::BadRequest && r.headers@.len() == 0 && r.body@.len() == 0 && final(table)@
                == old(table)@,
            Some(req) => if req.path != auth_path() {
                r.status == Status::NotFound && r.headers@.len() == 0 && r.body@.len() == 0 && final(table)@
                    == old(table)@
            } else {
                final(table)@ == exchange(old(table)@, req).1 && match exchange(old(table)@, req).0 {
                    Err(e) => r.status == error_status(e) && r.headers@.len() == 0 && r.body@.len() == 0,
                    Ok(_) => r.status == match dispatch_outcome(req) {
                        Ok(Some(q)) => if q.0 { Status::Created } else { Status::Success },
                        _ => Status::Success,
                    },
                }
            },
        },
{
    let mut resp = Response::new(Protocol::Http11);
    let req = match parse(bytes) {
        Ok(req) => req,
        Err(e) => {
            respond_error(&mut resp, e);
            return resp;
        },
    };
    let service = match service_for(req.path.as_slice()) {
        Ok(s) => s,
        Err(e) => {
            respond_error(&mut resp, e);
            return resp;
        },
    };
    match serve_with_table(table, service, &req, &mut resp) {
        Ok(_) => {},
        Err(e) => respond_error(&mut resp, e),
    }
    resp
}

/// Registering a name and password, then logging in with the same two,
/// succeeds (when the login's cookies are readable).
pub proof fn law_register_then_login(records: Seq<PairView>, reg: RequestView, login: RequestView, f: PairView)
    requires
        dispatch_outcome(reg) == Ok::<Option<QueryView>, HttpError>(Some((true, f))),
        dispatch_outcome(login) == Ok::<Option<QueryView>, HttpError>(Some((false, f))),
        cookies_of(login.headers) is Some,
    ensures
        exchange(exchange(records, reg).1, login).0 == Ok::<(), HttpError>(()),
{
    let after = records.push(f);
    assert(after[records.len() as int] == f);
    assert(after.contains(f));
}

/// After registering a name and password, a login with the same name and a
/// password that no record holds fails with `CredentialFailure`.
pub proof fn law_wrong_password_fails(
    records: Seq<PairView>,
    reg: RequestView,
    login: RequestView,
    name: Seq<u8>,
    pswd: Seq<u8>,
    wrong: Seq<u8>,
)
    requires
        dispatch_outcome(reg) == Ok::<Option<QueryView>, HttpError>(Some((true, (name, pswd)))),
        dispatch_outcome(login) == Ok::<Option<QueryView>, HttpError>(Some((false, (name, wrong)))),
        wrong != pswd,
        !records.contains((name, wrong)),
    ensures
        exchange(exchange(records, reg).1, login).0 == Err::<(), HttpError>(HttpError::CredentialFailure),
{
    let after = records.push((name, pswd));
    assert(!after.contains((name, wrong))) by {
        if after.contains((name, wrong)) {
            let i = choose|i: int| 0 <= i < after.len() && after[i] == (name, wrong);
            if i < records.len() {
                assert(records[i] == after[i]);
            }
        }
    }
}

} // verus!
