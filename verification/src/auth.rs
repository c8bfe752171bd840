//! The verifiable part of authentication: extracting the bearer token from an
//! authorization header, and the claims a login issues. Signing and checking
//! the credential itself is the token library's work, outside this crate.

use vstd::prelude::*;
use crate::text::{str_chars, slice_chars, chars_to_string};
use crate::wal_format::{at_lit, eat_lit};

verus! {

/// What a signed credential asserts: the subject and the expiry, in Unix
/// seconds.
pub struct Claims {
    pub email: String,
    pub exp: u64,
}

/// The token of an authorization header: everything after the `Bearer `
/// prefix, or nothing when the header does not carry one.
pub fn extract_bearer_token(header_value: &str) -> (r: Option<String>)
    ensures
        match r {
            Some(t) => at_lit(header_value@, "Bearer "@) && t@ == header_value@.skip(
                "Bearer "@.len() as int,
            ),
            None => !at_lit(header_value@, "Bearer "@),
        },
{
    let hc = str_chars(header_value);
    proof {
        assert(hc@.skip(0) =~= hc@);
    }
    match eat_lit(&hc, 0, "Bearer ") {
        Some(p) => {
            let rest = slice_chars(&hc, p, hc.len());
            proof {
                assert(rest@ =~= header_value@.skip("Bearer "@.len() as int));
            }
            Some(chars_to_string(&rest))
        },
        None => None,
    }
}

/// The claims a login issues: the given subject, expiring five hours
/// (18000 seconds) after `now`.
pub fn login_claims(email: String, now_unix_seconds: i64) -> (r: Claims)
    requires
        0 <= now_unix_seconds,
        now_unix_seconds + 18000 <= i64::MAX,
    ensures
        r.email == email,
        r.exp == now_unix_seconds + 18000,
{
    Claims { email, exp: (now_unix_seconds as u64) + 18000 }
}

} // verus!
