//! The protocol engine and account service of a small file-drive server:
//! a byte-level HTTP request parser and response writer, cookie and CORS
//! handling, and the login and registration exchange, each proved against
//! its contract.
//!
//! - `bytes`: searching, splitting and decimal numbers over byte sequences.
//! - `http`: methods, statuses, requests and responses.
//! - `wire`: parsing requests, writing requests and responses.
//! - `cookie`: the `Cookie` and `Set-Cookie` headers.
//! - `cors`: the cross-origin policy engine.
//! - `form`: the login and registration form bodies.
//! - `services`: routing, the account handlers and the credential table.
//! - `drive`: the pure parts of the drive pages.

pub mod bytes;
pub mod http;
pub mod wire;
pub mod cookie;
pub mod cors;
pub mod form;
pub mod services;
pub mod drive;
