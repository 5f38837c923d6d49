//! Plain responses: a status, headers and a body.
use vstd::prelude::*;

use crate::json::{json_text, Json};
use crate::text::owned;

verus! {

/// A response before it is sent.
#[derive(Clone, Debug)]
pub struct Reply {
    pub status: u16,
    pub headers: Vec<(String, String)>,
    pub body: Vec<u8>,
}

/// A status code that a response can carry.
pub open spec fn valid_status(s: u16) -> bool {
    100 <= s <= 999
}

/// A response with `status` and `body` and no header.
pub fn build_response(status: u16, body: Vec<u8>) -> (r: Reply)
    requires
        valid_status(status),
    ensures
        r.status == status,
        r.headers@.len() == 0,
        r.body@ == body@,
{
    Reply { status, headers: Vec::new(), body }
}

/// 200 OK with `body`.
pub fn ok(body: Vec<u8>) -> (r: Reply)
    ensures
        r.status == 200,
        r.headers@.len() == 0,
        r.body@ == body@,
{
    build_response(200, body)
}

/// 400 Bad Request with `msg` as the body.
pub fn bad_request(msg: Vec<u8>) -> (r: Reply)
    ensures
        r.status == 400,
        r.headers@.len() == 0,
        r.body@ == msg@,
{
    build_response(400, msg)
}

/// A response with the given status and `msg` as the body.
pub fn error(status: u16, msg: Vec<u8>) -> (r: Reply)
    requires
        valid_status(status),
    ensures
        r.status == status,
        r.headers@.len() == 0,
        r.body@ == msg@,
{
    build_response(status, msg)
}

/// 200 OK with a JSON body: the value's text as UTF-8, typed
/// `application/json`.
pub fn ok_json(val: &Json) -> (r: Reply)
    ensures
        r.status == 200,
        r.headers@.len() == 1,
        r.headers@[0].0@ == "content-type"@,
        r.headers@[0].1@ == "application/json"@,
        r.body@ == vstd::utf8::encode_utf8(json_text(val@)),
{
    let text = crate::json::to_json_text(val);
    let body = text.as_str().as_bytes_vec();
    let mut headers: Vec<(String, String)> = Vec::new();
    headers.push((owned("content-type"), owned("application/json")));
    Reply { status: 200, headers, body }
}

} // verus!
