//! The decisions of the built-in middlewares: body limits, compression,
//! rate limiting and bearer tokens.
use vstd::prelude::*;

use crate::jwt::{decode_with_rotation, opt_view, rotation_outcome, Claims};
use crate::rest::request::{contains_str, contains_text, parse_usize, parse_usize_spec};
use crate::text::{concat2, has_prefix, ascii_lower_seq, lower_str, owned, split_words, str_eq, views, words};

verus! {

// ---------------------------------------------------------------------
// Body size limit
// ---------------------------------------------------------------------
/// Does a declared `Content-Length` exceed the limit? A missing or
/// unreadable length does not.
pub open spec fn declared_too_large(content_length: Option<Seq<char>>, limit: u64) -> bool {
    content_length matches Some(cl) && parse_usize_spec(cl) matches Some(n) && n > limit
}

pub fn content_length_exceeds(content_length: Option<&str>, limit: u64) -> (r: bool)
    ensures
        r == declared_too_large(
            match content_length { Some(c) => Some(c@), None => None },
            limit,
        ),
{
    match content_length {
        Some(cl) => match parse_usize(cl) {
            Some(n) => n as u64 > limit || (n as u128) > (limit as u128),
            None => false,
        },
        None => false,
    }
}

/// Does a read body exceed the limit?
pub fn body_exceeds(len: usize, limit: u64) -> (r: bool)
    ensures
        r == (len > limit),
{
    (len as u128) > (limit as u128)
}

// ---------------------------------------------------------------------
// Compression
// ---------------------------------------------------------------------
/// Is the request body gzip-encoded (`Content-Encoding: gzip`, any case)?
pub fn should_gunzip(content_encoding: Option<&str>) -> (r: bool)
    ensures
        r == (content_encoding matches Some(e) && ascii_lower_seq(e@) == "gzip"@),
{
    match content_encoding {
        Some(e) => {
            let l = lower_str(e);
            str_eq(l.as_str(), "gzip")
        },
        None => false,
    }
}

pub open spec fn should_gzip_spec(has_content_encoding: bool, status: u16, accept: Option<Seq<char>>) -> bool {
    &&& !has_content_encoding
    &&& !(100 <= status < 200)
    &&& status != 204
    &&& status != 304
    &&& accept matches Some(a) && contains_text(ascii_lower_seq(a), "gzip"@)
}

/// Should a response be compressed: not encoded already, not
/// informational, 204 or 304, and the client's `Accept-Encoding` (from the
/// request) names gzip.
pub fn should_gzip_response(has_content_encoding: bool, status: u16, accept_encoding: Option<&str>) -> (r: bool)
    ensures
        r == should_gzip_spec(
            has_content_encoding,
            status,
            match accept_encoding { Some(a) => Some(a@), None => None },
        ),
{
    if has_content_encoding {
        return false;
    }
    if 100 <= status && status < 200 || status == 204 || status == 304 {
        return false;
    }
    match accept_encoding {
        Some(a) => {
            let l = lower_str(a);
            contains_str(l.as_str(), "gzip")
        },
        None => false,
    }
}

/// The gzip stream flate2 writes for `data` at the default level.
pub uninterp spec fn gzip_of(data: Seq<u8>) -> Seq<u8>;

/// The bytes flate2's gzip decoder reads from `data`, if it decodes.
pub uninterp spec fn gunzip_of(data: Seq<u8>) -> Option<Seq<u8>>;

/// Where compression failed, with the I/O error's text.
pub enum GzipFailure {
    Write(String),
    Finish(String),
}

/// `flate2::write::GzEncoder` at the default level, written and finished.
/// The encoder writes into a `Vec`, which never refuses bytes, so both
/// steps succeed; the output decodes back to the input.
#[verifier::external_body]
fn gzip_encode(data: &[u8]) -> (r: Result<Vec<u8>, GzipFailure>)
    ensures
        match r {
            Ok(c) => c@ == gzip_of(data@) && gunzip_of(c@) == Some(data@),
            Err(_) => false,
        },
{
    let mut encoder = flate2::write::GzEncoder::new(Vec::new(), flate2::Compression::default());
    if let Err(e) = std::io::Write::write_all(&mut encoder, data) {
        return Err(GzipFailure::Write(e.to_string()));
    }
    encoder.finish().map_err(|e| GzipFailure::Finish(e.to_string()))
}

/// `flate2::read::GzDecoder`, read to the end; the error's text on failure.
#[verifier::external_body]
fn gzip_decode(data: &[u8]) -> (r: Result<Vec<u8>, String>)
    ensures
        match r {
            Ok(d) => gunzip_of(data@) == Some(d@),
            Err(_) => gunzip_of(data@) is None,
        },
{
    let mut decoder = flate2::read::GzDecoder::new(data);
    let mut out = Vec::new();
    match std::io::Read::read_to_end(&mut decoder, &mut out) {
        Ok(_) => Ok(out),
        Err(e) => Err(e.to_string()),
    }
}

/// What happens to a response body under gzip.
pub enum Compressed {
    /// An empty body is sent as it is.
    Unchanged,
    /// The compressed body.
    Body(Vec<u8>),
    /// Compression failed; the message for a 500 response.
    Failed(String),
}

/// Compresses a non-empty response body; what it gives decodes back to the body.
pub fn compress_body(body: &[u8]) -> (r: Compressed)
    ensures
        body@.len() == 0 <==> r is Unchanged,
        body@.len() > 0 ==> (r matches Compressed::Body(c) && c@ == gzip_of(body@) && gunzip_of(c@) == Some(body@)),
{
    if body.len() == 0 {
        return Compressed::Unchanged;
    }
    match gzip_encode(body) {
        Ok(c) => Compressed::Body(c),
        Err(GzipFailure::Write(e)) => Compressed::Failed(concat2("gzip error: ", e.as_str())),
        Err(GzipFailure::Finish(e)) => Compressed::Failed(concat2("gzip finish error: ", e.as_str())),
    }
}

/// A change to a response's headers.
pub enum HeaderEdit {
    /// Sets the header (name in lower case) to the value.
    Put(String, String),
    /// Removes the header.
    Remove(String),
}

/// The header changes that go with a gzip-compressed response body: it is
/// marked `Content-Encoding: gzip` and `Vary: Accept-Encoding`, and its
/// `Content-Length`, which counted the uncompressed body, is dropped.
pub fn gzip_header_edits() -> (r: Vec<HeaderEdit>)
    ensures
        r@.len() == 3,
        r@[0] matches HeaderEdit::Put(n, v) && n@ == "content-encoding"@ && v@ == "gzip"@,
        r@[1] matches HeaderEdit::Put(n, v) && n@ == "vary"@ && v@ == "Accept-Encoding"@,
        r@[2] matches HeaderEdit::Remove(n) && n@ == "content-length"@,
{
    let mut r: Vec<HeaderEdit> = Vec::new();
    r.push(HeaderEdit::Put(owned("content-encoding"), owned("gzip")));
    r.push(HeaderEdit::Put(owned("vary"), owned("Accept-Encoding")));
    r.push(HeaderEdit::Remove(owned("content-length")));
    r
}

/// Decompresses a gzip request body; the error is the 400 response's text.
pub fn decompress_body(body: &[u8]) -> (r: Result<Vec<u8>, String>)
    ensures
        r matches Ok(d) ==> gunzip_of(body@) == Some(d@),
        r is Ok <==> gunzip_of(body@) is Some,
        r matches Err(m) ==> has_prefix(m@, "gunzip error: "@),
{
    match gzip_decode(body) {
        Ok(d) => Ok(d),
        Err(e) => {
            let m = concat2("gunzip error: ", e.as_str());
            assert(m@.subrange(0, "gunzip error: "@.len() as int) =~= "gunzip error: "@);
            Err(m)
        },
    }
}

// ---------------------------------------------------------------------
// Rate limiting
// ---------------------------------------------------------------------
/// A token bucket refilled at `permits_per_sec`, holding at most `burst`.
/// Time is in nanoseconds on a monotonic clock.
pub struct TokenBucket {
    pub permits_per_sec: u64,
    pub burst: u64,
    pub tokens: u64,
    pub last: u64,
}

/// Tokens earned over `elapsed` nanoseconds.
pub open spec fn refill(elapsed: nat, permits_per_sec: nat) -> nat {
    (elapsed * permits_per_sec / 1_000_000_000) as nat
}

/// The bucket after a request at `now`, and whether it was let through:
/// time since the last refill earns tokens (up to the burst) and restarts
/// the refill clock; a request takes one token when there is one.
pub open spec fn acquire_spec(b: TokenBucket, now: u64) -> (TokenBucket, bool) {
    let elapsed: nat = if now > b.last { (now - b.last) as nat } else { 0 };
    let refilled = if elapsed > 0 {
        TokenBucket {
            tokens: if b.tokens + refill(elapsed, b.permits_per_sec as nat) > b.burst {
                b.burst
            } else {
                (b.tokens + refill(elapsed, b.permits_per_sec as nat)) as u64
            },
            last: now,
            ..b
        }
    } else {
        b
    };
    if refilled.tokens > 0 {
        (TokenBucket { tokens: (refilled.tokens - 1) as u64, ..refilled }, true)
    } else {
        (refilled, false)
    }
}

impl TokenBucket {
    /// A full bucket.
    pub fn new(permits_per_sec: u64, burst: u64, now: u64) -> (b: TokenBucket)
        ensures
            b.permits_per_sec == permits_per_sec,
            b.burst == burst,
            b.tokens == burst,
            b.last == now,
    {
        TokenBucket { permits_per_sec, burst, tokens: burst, last: now }
    }

    /// Lets one request through if a token is available at `now`.
    pub fn acquire(&mut self, now: u64) -> (ok: bool)
        ensures
            (*final(self), ok) == acquire_spec(*old(self), now),
    {
        let elapsed: u64 = if now > self.last { now - self.last } else { 0 };
        if elapsed > 0 {
            let e128 = elapsed as u128;
            let p128 = self.permits_per_sec as u128;
            assert(e128 * p128 <= 0xffff_ffff_ffff_ffffu128 * 0xffff_ffff_ffff_ffffu128) by (nonlinear_arith)
                requires
                    e128 <= 0xffff_ffff_ffff_ffffu128,
                    p128 <= 0xffff_ffff_ffff_ffffu128,
            ;
            let prod: u128 = e128 * p128;
            let add: u128 = prod / 1_000_000_000u128;
            assert(prod == elapsed as nat * self.permits_per_sec as nat);
            assert(add == refill(elapsed as nat, self.permits_per_sec as nat));
            let total: u128 = self.tokens as u128 + add;
            self.tokens = if total > self.burst as u128 { self.burst } else { total as u64 };
            self.last = now;
        }
        if self.tokens > 0 {
            self.tokens = self.tokens - 1;
            true
        } else {
            false
        }
    }
}

/// A bucket never holds more than its burst.
pub proof fn law_bucket_bounded(b: TokenBucket, now: u64)
    requires
        b.tokens <= b.burst,
    ensures
        acquire_spec(b, now).0.tokens <= b.burst,
        acquire_spec(b, now).0.burst == b.burst,
{
}

/// An empty bucket whose clock does not advance refuses the request.
pub proof fn law_bucket_empty_refuses(b: TokenBucket, now: u64)
    requires
        b.tokens == 0,
        now <= b.last,
    ensures
        !acquire_spec(b, now).1,
{
}

// ---------------------------------------------------------------------
// Bearer tokens
// ---------------------------------------------------------------------
/// Why a request is not authorized.
#[derive(Clone, Debug, PartialEq, Eq)]
pub enum AuthError {
    MissingHeader,
    InvalidHeader,
    InvalidBearer,
    /// The token was refused; the decoder's message.
    Token(String),
}

pub open spec fn auth_error_text(e: AuthError) -> Seq<char> {
    match e {
        AuthError::MissingHeader => "missing Authorization header"@,
        AuthError::InvalidHeader => "invalid Authorization header"@,
        AuthError::InvalidBearer => "invalid bearer token"@,
        AuthError::Token(m) => m@,
    }
}

impl AuthError {
    /// The body of the 401 response.
    pub fn message(&self) -> (s: String)
        ensures
            s@ == auth_error_text(*self),
    {
        match self {
            AuthError::MissingHeader => owned("missing Authorization header"),
            AuthError::InvalidHeader => owned("invalid Authorization header"),
            AuthError::InvalidBearer => owned("invalid bearer token"),
            AuthError::Token(m) => m.clone(),
        }
    }
}

/// The token of an `Authorization: Bearer <token>` header: exactly two
/// whitespace-separated words, the first being `Bearer`.
pub open spec fn bearer_spec(header: Option<Seq<char>>) -> Result<Seq<char>, AuthError> {
    match header {
        None => Err(AuthError::MissingHeader),
        Some(h) => if words(h).len() == 2 && words(h)[0] == "Bearer"@ {
            Ok(words(h)[1])
        } else {
            Err(AuthError::InvalidBearer)
        },
    }
}

pub fn extract_bearer(header: Option<&str>) -> (r: Result<String, AuthError>)
    ensures
        match bearer_spec(match header { Some(h) => Some(h@), None => None }) {
            Ok(t) => r matches Ok(s) && s@ == t,
            Err(e) => r == Err::<String, AuthError>(e),
        },
{
    match header {
        None => Err(AuthError::MissingHeader),
        Some(h) => {
            let parts = split_words(h);
            if parts.len() != 2 || !str_eq(parts[0].as_str(), "Bearer") {
                return Err(AuthError::InvalidBearer);
            }
            Ok(parts[1].clone())
        },
    }
}

/// The leeway, in seconds, granted to a token's `exp` by the authorize middleware.
pub const AUTH_LEEWAY_SECS: u64 = 60;

/// A token check's outcome as the authorize middleware reports it.
pub open spec fn auth_result(d: Result<Claims, String>) -> Result<Claims, AuthError> {
    match d {
        Ok(c) => Ok(c),
        Err(m) => Err(AuthError::Token(m)),
    }
}

/// Checks the bearer token of a request for the authorize middleware: the
/// header must hold `Bearer <token>`, and the token must pass the current
/// secret or, failing that, the previous one, with `AUTH_LEEWAY_SECS` of
/// leeway on `exp` and the audience not checked.
pub fn validate_token(authorization: Option<&str>, secret: &str, prev_secret: Option<&str>) -> (r: Result<Claims, AuthError>)
    ensures
        bearer_spec(opt_view(authorization)) matches Err(e) ==> r == Err::<Claims, AuthError>(e),
        bearer_spec(opt_view(authorization)) matches Ok(t) ==> exists|d: Result<Claims, String>|
            #[trigger] rotation_outcome(t, secret@, opt_view(prev_secret), false, d) && r == auth_result(d),
        r matches Err(e) ==> bearer_spec(opt_view(authorization)) is Err || e is Token,
{
    let token = match extract_bearer(authorization) {
        Ok(t) => t,
        Err(e) => {
            return Err(e);
        },
    };
    let d = decode_with_rotation(token.as_str(), secret, prev_secret, AUTH_LEEWAY_SECS, false);
    let r = match d {
        Ok(c) => Ok(c),
        Err(m) => Err(AuthError::Token(m)),
    };
    proof {
        assert(bearer_spec(opt_view(authorization)) matches Ok(t) && t == token@);
        assert(rotation_outcome(token@, secret@, opt_view(prev_secret), false, d) && r == auth_result(d));
    }
    r
}

} // verus!
