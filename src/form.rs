//! The form bodies of login and registration: `user_name=..&user_pswd=..`,
//! the latter led by `method_override=put&`. Each field name must stand at
//! the current offset; its value runs to the next `&` or to the end.
use vstd::prelude::*;
use vstd::utf8::valid_utf8;
use crate::bytes::{ascii, copy_range, find_byte, first_index, has_prefix, starts_with, text};
use crate::http::HttpError;
use crate::wire::AMPERSAND;

verus! {

pub open spec fn name_key() -> Seq<u8> {
    ascii("user_name="@)
}

pub open spec fn pswd_key() -> Seq<u8> {
    ascii("user_pswd="@)
}

pub open spec fn override_key() -> Seq<u8> {
    ascii("method_override=put&"@)
}

/// Where the value at the start of `s` ends: at the first `&`, or the end.
pub open spec fn value_len(s: Seq<u8>) -> int {
    let k = first_index(s, AMPERSAND);
    if k < 0 { s.len() as int } else { k }
}

/// How far the value at the start of `s` reaches, with the `&` after it.
pub open spec fn value_span(s: Seq<u8>) -> int {
    let k = first_index(s, AMPERSAND);
    if k < 0 { s.len() as int } else { k + 1 }
}

/// The field `key` at the start of `s`: its value, and how many bytes it
/// takes with the `&` after it.
pub open spec fn field_of(s: Seq<u8>, key: Seq<u8>) -> Option<(Seq<u8>, int)> {
    if has_prefix(s, key) {
        let rest = s.subrange(key.len() as int, s.len() as int);
        let v = rest.subrange(0, value_len(rest));
        if valid_utf8(v) {
            Some((v, key.len() + value_span(rest)))
        } else {
            None
        }
    } else {
        None
    }
}

/// The name and password of a login body.
pub open spec fn login_form_of(body: Seq<u8>) -> Option<(Seq<u8>, Seq<u8>)> {
    match field_of(body, name_key()) {
        None => None,
        Some(n) => match field_of(body.subrange(n.1, body.len() as int), pswd_key()) {
            None => None,
            Some(p) => Some((n.0, p.0)),
        },
    }
}

/// The name and password of a registration body.
pub open spec fn register_form_of(body: Seq<u8>) -> Option<(Seq<u8>, Seq<u8>)> {
    if has_prefix(body, override_key()) {
        login_form_of(body.subrange(override_key().len() as int, body.len() as int))
    } else {
        None
    }
}

/// Relies on std::str::from_utf8: it succeeds exactly on valid UTF-8.
#[verifier::external_body]
fn is_utf8(b: &[u8]) -> (r: bool)
    ensures
        r == valid_utf8(b@),
{
    std::str::from_utf8(b).is_ok()
}

/// Whether `slice` starts with the field name `check`.
pub fn check_field(slice: &[u8], check: &[u8]) -> (r: bool)
    ensures
        r == has_prefix(slice@, check@),
{
    starts_with(slice, check)
}

/// Moves `idx` past `slice`; returns how far it moved.
pub fn advance(idx: &mut usize, slice: &[u8]) -> (r: usize)
    requires
        *old(idx) + slice@.len() <= usize::MAX,
    ensures
        *final(idx) == *old(idx) + slice@.len(),
        r == slice@.len(),
{
    let old = *idx;
    *idx += slice.len();
    *idx - old
}

/// Reads the value at the start of `slice` and moves `idx` past it and the
/// `&` after it, if any. A value that is not UTF-8 is malformed.
pub fn parse_value(slice: &[u8], idx: &mut usize) -> (r: Result<Vec<u8>, HttpError>)
    requires
        *old(idx) + slice@.len() <= usize::MAX,
    ensures
        *final(idx) == *old(idx) + value_span(slice@),
        value_span(slice@) <= slice@.len(),
        match r {
            Ok(v) => v@ == slice@.subrange(0, value_len(slice@)) && valid_utf8(v@),
            Err(e) => !valid_utf8(slice@.subrange(0, value_len(slice@))) && e == HttpError::MalformedInput,
        },
{
    assert(slice@.subrange(0, slice@.len() as int) =~= slice@);
    let (amper, span) = match find_byte(slice, 0, AMPERSAND) {
        Some(k) => (k, k + 1),
        None => (slice.len(), slice.len()),
    };
    let value = copy_range(slice, 0, amper);
    *idx += span;
    if is_utf8(value.as_slice()) {
        Ok(value)
    } else {
        Err(HttpError::MalformedInput)
    }
}

/// The field `key` at the start of `slice`, moving `idx` past it.
fn field(slice: &[u8], idx: &mut usize, key: &[u8]) -> (r: Result<Vec<u8>, HttpError>)
    requires
        *old(idx) + slice@.len() <= usize::MAX,
    ensures
        match r {
            Ok(v) => field_of(slice@, key@) == Some((v@, *final(idx) - *old(idx))) && *final(idx) - *old(idx)
                <= slice@.len(),
            Err(e) => field_of(slice@, key@) is None && e == HttpError::MalformedInput,
        },
{
    if !check_field(slice, key) {
        return Err(HttpError::MalformedInput);
    }
    let diff = advance(idx, key);
    let rest = &slice[diff..slice.len()];
    parse_value(rest, idx)
}

/// Reads the `user_name` field at the start of `slice`.
pub fn user_name(slice: &[u8], idx: &mut usize) -> (r: Result<Vec<u8>, HttpError>)
    requires
        *old(idx) + slice@.len() <= usize::MAX,
    ensures
        match r {
            Ok(v) => field_of(slice@, name_key()) == Some((v@, *final(idx) - *old(idx))) && *final(idx) - *old(idx)
                <= slice@.len(),
            Err(e) => field_of(slice@, name_key()) is None && e == HttpError::MalformedInput,
        },
{
    proof {
        reveal_strlit("user_name=");
    }
    field(slice, idx, text("user_name=").as_slice())
}

/// Reads the `user_pswd` field at the start of `slice`.
pub fn user_pswd(slice: &[u8], idx: &mut usize) -> (r: Result<Vec<u8>, HttpError>)
    requires
        *old(idx) + slice@.len() <= usize::MAX,
    ensures
        match r {
            Ok(v) => field_of(slice@, pswd_key()) == Some((v@, *final(idx) - *old(idx))),
            Err(e) => field_of(slice@, pswd_key()) is None && e == HttpError::MalformedInput,
        },
{
    proof {
        reveal_strlit("user_pswd=");
    }
    field(slice, idx, text("user_pswd=").as_slice())
}

/// Checks that `slice` starts with `method_override=put&`, and moves `idx`
/// past it.
pub fn method_override(slice: &[u8], idx: &mut usize) -> (r: Result<(), HttpError>)
    requires
        *old(idx) + slice@.len() <= usize::MAX,
    ensures
        match r {
            Ok(_) => has_prefix(slice@, override_key()) && *final(idx) == *old(idx) + override_key().len(),
            Err(e) => !has_prefix(slice@, override_key()) && e == HttpError::MalformedInput,
        },
{
    proof {
        reveal_strlit("method_override=put&");
    }
    let key = text("method_override=put&");
    if !check_field(slice, key.as_slice()) {
        return Err(HttpError::MalformedInput);
    }
    advance(idx, key.as_slice());
    Ok(())
}

/// A login form: the name and password a user sent.
#[derive(Debug, Clone, PartialEq, Eq)]
pub struct Login {
    pub name: Vec<u8>,
    pub pswd: Vec<u8>,
}

/// A registration form.
#[derive(Debug, Clone, PartialEq, Eq)]
pub struct Register {
    pub name: Vec<u8>,
    pub pswd: Vec<u8>,
}

/// Reads `user_name=..&user_pswd=..` from `slice`.
fn name_and_pswd(slice: &[u8]) -> (r: Result<(Vec<u8>, Vec<u8>), HttpError>)
    ensures
        match r {
            Ok(f) => login_form_of(slice@) == Some((f.0@, f.1@)),
            Err(e) => login_form_of(slice@) is None && e == HttpError::MalformedInput,
        },
{
    let n = slice.len();
    let mut idx: usize = 0;
    let name = user_name(slice, &mut idx)?;
    let pswd = user_pswd(&slice[idx..slice.len()], &mut idx)?;
    Ok((name, pswd))
}

impl Login {
    /// Parses a login body.
    pub fn parse(slice: &[u8]) -> (r: Result<Login, HttpError>)
        ensures
            match r {
                Ok(f) => login_form_of(slice@) == Some((f.name@, f.pswd@)),
                Err(e) => login_form_of(slice@) is None && e == HttpError::MalformedInput,
            },
    {
        let (name, pswd) = name_and_pswd(slice)?;
        Ok(Login { name, pswd })
    }

    /// Checks the form against a stored record: both must match exactly.
    pub fn match_user(&self, name: &[u8], pswd: &[u8]) -> (r: Result<(), HttpError>)
        ensures
            r is Ok <==> (self.name@ == name@ && self.pswd@ == pswd@),
            r is Err ==> r == Err::<(), HttpError>(HttpError::CredentialFailure),
    {
        if crate::bytes::bytes_eq(self.name.as_slice(), name) && crate::bytes::bytes_eq(self.pswd.as_slice(), pswd) {
            Ok(())
        } else {
            Err(HttpError::CredentialFailure)
        }
    }
}

impl Register {
    /// Parses a registration body.
    pub fn parse(slice: &[u8]) -> (r: Result<Register, HttpError>)
        ensures
            match r {
                Ok(f) => register_form_of(slice@) == Some((f.name@, f.pswd@)),
                Err(e) => register_form_of(slice@) is None && e == HttpError::MalformedInput,
            },
    {
        let n = slice.len();
        let mut idx: usize = 0;
        method_override(slice, &mut idx)?;
        let (name, pswd) = name_and_pswd(&slice[idx..slice.len()])?;
        Ok(Register { name, pswd })
    }
}

} // verus!
