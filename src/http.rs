//! The values that the codecs read and write: methods, protocols, statuses,
//! requests and responses, each with a mathematical view.
use vstd::prelude::*;
use crate::bytes::{ascii, text};

verus! {

/// An HTTP request method.
#[derive(Debug, Clone, Copy, PartialEq, Eq, Structural)]
pub enum Method {
    Get,
    Head,
    Post,
    Put,
    Delete,
    Options,
    Patch,
}

/// The protocol version named on a request or status line.
#[derive(Debug, Clone, Copy, PartialEq, Eq, Structural)]
pub enum Protocol {
    Http10,
    Http11,
}

/// Why a request could not be served; each kind has its status code.
#[derive(Debug, Clone, Copy, PartialEq, Eq, Structural)]
pub enum HttpError {
    /// A bad request line, bad headers, or a bad form body.
    MalformedInput,
    /// A cross-origin request that the policy does not allow.
    PolicyDenied,
    /// A path that no service answers.
    NotFound,
    /// A login that matched no record, or a store that failed.
    CredentialFailure,
}

/// The statuses that this server answers with.
#[derive(Debug, Clone, Copy, PartialEq, Eq, Structural)]
pub enum Status {
    Success,
    Created,
    BadRequest,
    Forbidden,
    NotFound,
    InternalServerError,
}

pub open spec fn error_status(e: HttpError) -> Status {
    match e {
        HttpError::MalformedInput => Status::BadRequest,
        HttpError::PolicyDenied => Status::Forbidden,
        HttpError::NotFound => Status::NotFound,
        HttpError::CredentialFailure => Status::InternalServerError,
    }
}

pub open spec fn status_code(s: Status) -> u16 {
    match s {
        Status::Success => 200,
        Status::Created => 201,
        Status::BadRequest => 400,
        Status::Forbidden => 403,
        Status::NotFound => 404,
        Status::InternalServerError => 500,
    }
}

pub open spec fn status_reason(s: Status) -> Seq<u8> {
    match s {
        Status::Success => ascii("OK"@),
        Status::Created => ascii("Created"@),
        Status::BadRequest => ascii("Bad Request"@),
        Status::Forbidden => ascii("Forbidden"@),
        Status::NotFound => ascii("Not Found"@),
        Status::InternalServerError => ascii("Internal Server Error"@),
    }
}

impl HttpError {
    /// The status that a response carries for this error.
    pub fn status(&self) -> (r: Status)
        ensures
            r == error_status(*self),
    {
        match self {
            HttpError::MalformedInput => Status::BadRequest,
            HttpError::PolicyDenied => Status::Forbidden,
            HttpError::NotFound => Status::NotFound,
            HttpError::CredentialFailure => Status::InternalServerError,
        }
    }

    /// The numeric status code of this error.
    pub fn code(&self) -> (r: u16)
        ensures
            r == status_code(error_status(*self)),
    {
        self.status().code()
    }
}

impl Status {
    pub fn code(&self) -> (r: u16)
        ensures
            r == status_code(*self),
    {
        match self {
            Status::Success => 200,
            Status::Created => 201,
            Status::BadRequest => 400,
            Status::Forbidden => 403,
            Status::NotFound => 404,
            Status::InternalServerError => 500,
        }
    }

    /// The reason text written after the code.
    pub fn reason(&self) -> (r: Vec<u8>)
        ensures
            r@ == status_reason(*self),
    {
        proof {
            reveal_strlit("OK");
            reveal_strlit("Created");
            reveal_strlit("Bad Request");
            reveal_strlit("Forbidden");
            reveal_strlit("Not Found");
            reveal_strlit("Internal Server Error");
        }
        match self {
            Status::Success => text("OK"),
            Status::Created => text("Created"),
            Status::BadRequest => text("Bad Request"),
            Status::Forbidden => text("Forbidden"),
            Status::NotFound => text("Not Found"),
            Status::InternalServerError => text("Internal Server Error"),
        }
    }
}

pub open spec fn method_token(m: Method) -> Seq<u8> {
    match m {
        Method::Get => ascii("GET"@),
        Method::Head => ascii("HEAD"@),
        Method::Post => ascii("POST"@),
        Method::Put => ascii("PUT"@),
        Method::Delete => ascii("DELETE"@),
        Method::Options => ascii("OPTIONS"@),
        Method::Patch => ascii("PATCH"@),
    }
}

pub open spec fn protocol_token(p: Protocol) -> Seq<u8> {
    match p {
        Protocol::Http10 => ascii("HTTP/1.0"@),
        Protocol::Http11 => ascii("HTTP/1.1"@),
    }
}

/// A name and a value: a header, a query parameter or a cookie.
#[derive(Debug, Clone, PartialEq, Eq)]
pub struct Pair {
    pub name: Vec<u8>,
    pub value: Vec<u8>,
}

impl View for Pair {
    type V = (Seq<u8>, Seq<u8>);

    open spec fn view(&self) -> (Seq<u8>, Seq<u8>) {
        (self.name@, self.value@)
    }
}

pub open spec fn pair_views(ps: Seq<Pair>) -> Seq<(Seq<u8>, Seq<u8>)> {
    ps.map_values(|p: Pair| p@)
}

/// A parsed request.
#[derive(Debug, Clone, PartialEq, Eq)]
pub struct Request {
    pub method: Method,
    pub path: Vec<u8>,
    pub query: Option<Vec<Pair>>,
    pub proto: Protocol,
    pub headers: Vec<Pair>,
    pub body: Option<Vec<u8>>,
}

/// What a request holds, as mathematical values.
pub struct RequestView {
    pub method: Method,
    pub path: Seq<u8>,
    pub query: Option<Seq<(Seq<u8>, Seq<u8>)>>,
    pub proto: Protocol,
    pub headers: Seq<(Seq<u8>, Seq<u8>)>,
    pub body: Option<Seq<u8>>,
}

impl View for Request {
    type V = RequestView;

    open spec fn view(&self) -> RequestView {
        RequestView {
            method: self.method,
            path: self.path@,
            query: match self.query {
                Some(q) => Some(pair_views(q@)),
                None => None,
            },
            proto: self.proto,
            headers: pair_views(self.headers@),
            body: match self.body {
                Some(b) => Some(b@),
                None => None,
            },
        }
    }
}

/// A response under construction.
#[derive(Debug, Clone, PartialEq, Eq)]
pub struct Response {
    pub proto: Protocol,
    pub status: Status,
    pub headers: Vec<Pair>,
    pub body: Vec<u8>,
}

impl Response {
    /// An empty `200 OK` response.
    pub fn new(proto: Protocol) -> (r: Response)
        ensures
            r.proto == proto,
            r.status == Status::Success,
            r.headers@.len() == 0,
            r.body@.len() == 0,
    {
        Response { proto, status: Status::Success, headers: Vec::new(), body: Vec::new() }
    }

    /// Resets the response for the next request on a connection.
    pub fn clear(&mut self)
        ensures
            final(self).proto == old(self).proto,
            final(self).status == Status::Success,
            final(self).headers@.len() == 0,
            final(self).body@.len() == 0,
    {
        self.status = Status::Success;
        self.headers = Vec::new();
        self.body = Vec::new();
    }

    /// Appends a header; earlier headers stay, in order.
    pub fn add_header(&mut self, name: Vec<u8>, value: Vec<u8>)
        ensures
            final(self).proto == old(self).proto,
            final(self).status == old(self).status,
            final(self).body == old(self).body,
            final(self).headers@ == old(self).headers@.push(Pair { name, value }),
    {
        self.headers.push(Pair { name, value });
    }
}

} // verus!
