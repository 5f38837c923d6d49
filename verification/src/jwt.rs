//! HS256 JSON web tokens: checking a token and reading its claims, with a
//! previous secret accepted while secrets are being rotated.
use vstd::prelude::*;

use crate::text::str_eq;

verus! {

/// The claims of a token: each claim's name with its value as JSON text.
#[derive(Clone, Debug)]
pub struct Claims {
    pub entries: Vec<(String, String)>,
}

pub open spec fn claim_lookup(entries: Seq<(String, String)>, key: Seq<char>) -> Option<int>
    decreases entries.len(),
{
    if entries.len() == 0 {
        None
    } else if entries[0].0@ == key {
        Some(0)
    } else {
        match claim_lookup(entries.drop_first(), key) {
            Some(i) => Some(i + 1),
            None => None,
        }
    }
}

impl Claims {
    /// The JSON text of the claim named `key`, if the token has it.
    pub fn get(&self, key: &str) -> (r: Option<&String>)
        ensures
            match claim_lookup(self.entries@, key@) {
                Some(i) => r == Some(&self.entries@[i].1),
                None => r is None,
            },
    {
        let mut i: usize = 0;
        assert(self.entries@.subrange(0, self.entries@.len() as int) =~= self.entries@);
        while i < self.entries.len()
            invariant
                i <= self.entries@.len(),
                claim_lookup(self.entries@, key@) == match claim_lookup(
                    self.entries@.subrange(i as int, self.entries@.len() as int),
                    key@,
                ) {
                    Some(k) => Some(k + i),
                    None => None,
                },
            decreases self.entries@.len() - i,
        {
            let ghost rest = self.entries@.subrange(i as int, self.entries@.len() as int);
            assert(rest.drop_first() =~= self.entries@.subrange(i + 1, self.entries@.len() as int));
            assert(rest[0] == self.entries@[i as int]);
            if str_eq(self.entries[i].0.as_str(), key) {
                return Some(&self.entries[i].1);
            }
            i = i + 1;
        }
        None
    }
}

/// Does `s` hold at least two `.`? The compact form of a signed token joins
/// its header, payload and signature with dots; the decoder refuses a token
/// with fewer before it looks at the key or the clock.
pub open spec fn has_two_dots(s: Seq<char>) -> bool {
    exists|i: int, j: int| 0 <= i < j < s.len() && s[i] == '.' && s[j] == '.'
}

/// The claims have an `aud` claim whose value is a JSON string.
pub open spec fn aud_is_string(v: Seq<(String, String)>) -> bool {
    claim_lookup(v, "aud"@) matches Some(i) && v[i].1@.len() > 0 && v[i].1@[0] == '"'
}

/// The largest leeway, in seconds, that a token check grants `exp`: one
/// year.
pub const MAX_LEEWAY_SECS: u64 = 31_536_000;

/// Does `token` carry a valid HS256 signature under `key`: its header names
/// HS256 and its signature is the HMAC-SHA256, keyed with the bytes of
/// `key`, of the text before the last dot?
pub uninterp spec fn hs256_signature_ok(token: Seq<char>, key: Seq<char>) -> bool;

/// `jsonwebtoken::decode` of `token` with an HMAC-SHA256 key made from
/// `secret`: the signature is checked, an `exp` claim is required and must
/// not be more than `leeway` seconds past, and the audience is checked when
/// `validate_aud` is set. The claims come back as name and JSON text.
/// A token with fewer than two dots is refused as `InvalidToken` (the text
/// of that error), whatever the key and the time. An accepted token carries
/// a valid signature under `secret`, and its claims hold `exp`, since the
/// decoder requires that claim. With the audience check on, no expected
/// audience is configured, so an accepted token has no `aud` claim that is a
/// string. Whether a well-signed token is accepted is left unsaid: it
/// depends on its `exp`, the leeway and the clock. The expiry check
/// subtracts the leeway from the current Unix time in `u64` arithmetic, so
/// a leeway beyond the time since 1970 would overflow; the leeway is kept
/// to at most `MAX_LEEWAY_SECS`, one year.
#[verifier::external_body]
fn hs256_decode(token: &str, secret: &str, leeway: u64, validate_aud: bool) -> (r: Result<Vec<(String, String)>, String>)
    requires
        leeway <= MAX_LEEWAY_SECS,
    ensures
        match r {
            Ok(v) => has_two_dots(token@) && hs256_signature_ok(token@, secret@) && claim_lookup(v@, "exp"@) is Some
                && (validate_aud ==> !aud_is_string(v@)),
            Err(e) => has_two_dots(token@) || e@ == "InvalidToken"@,
        },
{
    let mut validation = jsonwebtoken::Validation::new(jsonwebtoken::Algorithm::HS256);
    validation.leeway = leeway;
    validation.validate_aud = validate_aud;
    let key = jsonwebtoken::DecodingKey::from_secret(secret.as_bytes());
    match jsonwebtoken::decode::<serde_json::Map<String, serde_json::Value>>(token, &key, &validation) {
        Ok(data) => Ok(data.claims.into_iter().map(|(k, v)| (k, v.to_string())).collect()),
        Err(e) => Err(e.to_string()),
    }
}

/// What holds of every outcome of the decoder on `token` with `key`: a
/// token with fewer than two dots is refused as `InvalidToken`; an accepted
/// one is well signed under `key`, its claims hold `exp`, and, with the
/// audience check on, it has no string `aud` claim.
pub open spec fn hs256_outcome(
    token: Seq<char>,
    key: Seq<char>,
    validate_aud: bool,
    r: Result<Vec<(String, String)>, String>,
) -> bool {
    match r {
        Ok(v) => has_two_dots(token) && hs256_signature_ok(token, key) && claim_lookup(v@, "exp"@) is Some
            && (validate_aud ==> !aud_is_string(v@)),
        Err(e) => has_two_dots(token) || e@ == "InvalidToken"@,
    }
}

/// The claims of a decoder result.
pub open spec fn as_claims(r: Result<Vec<(String, String)>, String>) -> Result<Claims, String> {
    match r {
        Ok(v) => Ok(Claims { entries: v }),
        Err(e) => Err(e),
    }
}

pub open spec fn opt_view(p: Option<&str>) -> Option<Seq<char>> {
    match p {
        Some(s) => Some(s@),
        None => None,
    }
}

/// `r` is what checking `token` under rotation gives, for some outcomes of
/// the two decoder calls: the first with `secret`; the second, with the
/// previous secret, made exactly when the first fails and a previous secret
/// is given; the result is the first that accepts, else the first error.
pub open spec fn rotation_outcome(
    token: Seq<char>,
    secret: Seq<char>,
    prev: Option<Seq<char>>,
    validate_aud: bool,
    r: Result<Claims, String>,
) -> bool {
    exists|a: Result<Vec<(String, String)>, String>, b: Option<Result<Vec<(String, String)>, String>>|
        #![trigger first_accepted(a, b)]
        {
            &&& hs256_outcome(token, secret, validate_aud, a)
            &&& (b is Some <==> (a is Err && prev is Some))
            &&& (b matches Some(bb) ==> hs256_outcome(token, prev->0, validate_aud, bb))
            &&& r == as_claims(first_accepted(a, b))
        }
}

/// The claims of an accepted token, `None` for a refused one.
pub open spec fn accepted_claims(d: Result<Claims, String>) -> Option<Claims> {
    match d {
        Ok(c) => Some(c),
        Err(_) => None,
    }
}

/// Signed with `secret`, or with the previous secret where one is given.
pub open spec fn signed_by_either(token: Seq<char>, secret: Seq<char>, prev: Option<Seq<char>>) -> bool {
    hs256_signature_ok(token, secret) || (prev matches Some(p) && hs256_signature_ok(token, p))
}

/// The outcome of checking a token against the current secret and, where
/// that fails and a previous secret is given, against the previous one: the
/// first success, else the current secret's error.
pub open spec fn first_accepted<C>(current: Result<C, String>, previous: Option<Result<C, String>>) -> Result<C, String> {
    match current {
        Ok(c) => Ok(c),
        Err(e) => match previous {
            Some(Ok(c)) => Ok(c),
            _ => Err(e),
        },
    }
}

/// Combines the two checks (see [`first_accepted`]).
pub fn pick_accepted<C>(current: Result<C, String>, previous: Option<Result<C, String>>) -> (r: Result<C, String>)
    ensures
        r == first_accepted(current, previous),
{
    match current {
        Ok(c) => Ok(c),
        Err(e) => match previous {
            Some(Ok(c)) => Ok(c),
            _ => Err(e),
        },
    }
}

/// Checks `token` with `secret`, then with `prev_secret` where the first
/// check fails; `leeway` (at most `MAX_LEEWAY_SECS`) and `validate_aud` as
/// for the decoder. The second
/// check is made only when the first fails and a previous secret is given.
/// A token with fewer than two dots is refused as `InvalidToken`; an
/// accepted token is signed with one of the two secrets and its claims hold
/// `exp`.
pub fn decode_with_rotation(token: &str, secret: &str, prev_secret: Option<&str>, leeway: u64, validate_aud: bool) -> (r: Result<Claims, String>)
    requires
        leeway <= MAX_LEEWAY_SECS,
    ensures
        rotation_outcome(token@, secret@, opt_view(prev_secret), validate_aud, r),
        !has_two_dots(token@) ==> (r matches Err(e) && e@ == "InvalidToken"@),
        r matches Ok(c) ==> signed_by_either(token@, secret@, opt_view(prev_secret)) && claim_lookup(
            c.entries@,
            "exp"@,
        ) is Some,
{
    let first = hs256_decode(token, secret, leeway, validate_aud);
    let second = match (&first, prev_secret) {
        (Err(_), Some(p)) => Some(hs256_decode(token, p, leeway, validate_aud)),
        _ => None,
    };
    let ghost (a, b) = (first, second);
    let picked = pick_accepted(first, second);
    let r = match picked {
        Ok(entries) => Ok(Claims { entries }),
        Err(e) => Err(e),
    };
    assert(r == as_claims(first_accepted(a, b)));
    r
}

/// Is `token` a valid HS256 token for `secret`, with an `exp` claim that has
/// not passed (no leeway)? A token with fewer than two dots never is, and
/// one that is carries a valid signature under `secret`.
pub fn validate_hs256(token: &str, secret: &str) -> (ok: bool)
    ensures
        exists|a: Result<Vec<(String, String)>, String>| #[trigger] hs256_outcome(token@, secret@, true, a) && ok == a is Ok,
        !has_two_dots(token@) ==> !ok,
        ok ==> hs256_signature_ok(token@, secret@),
{
    let a = hs256_decode(token, secret, 0, true);
    let ok = a.is_ok();
    assert(hs256_outcome(token@, secret@, true, a) && ok == a is Ok);
    ok
}

/// The claims of `token`, checked with `secret` and then with `prev_secret`
/// (no leeway); `None` when neither accepts it, and always for a token with
/// fewer than two dots. Claims handed back come from a token signed with
/// one of the two secrets, and always hold `exp`.
pub fn decode_hs256_map_claims(token: &str, secret: &str, prev_secret: Option<&str>) -> (r: Option<Claims>)
    ensures
        exists|d: Result<Claims, String>|
            #[trigger] rotation_outcome(token@, secret@, opt_view(prev_secret), true, d) && r == accepted_claims(d),
        !has_two_dots(token@) ==> r is None,
        r matches Some(c) ==> signed_by_either(token@, secret@, opt_view(prev_secret)) && claim_lookup(
            c.entries@,
            "exp"@,
        ) is Some,
{
    let d = decode_with_rotation(token, secret, prev_secret, 0, true);
    let r = match d {
        Ok(c) => Some(c),
        Err(_) => None,
    };
    assert(rotation_outcome(token@, secret@, opt_view(prev_secret), true, d) && r == accepted_claims(d));
    r
}

} // verus!
