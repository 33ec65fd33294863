//! The claims carried by an authorization token. Encoding and decoding the
//! token itself, and reading the clock, belong to the surrounding service;
//! the library only fixes what a fresh set of claims holds.

use vstd::prelude::*;

verus! {

/// A token is valid for one week from the moment it is issued.
pub const ONE_WEEK: i64 = 60 * 60 * 24 * 7;

/// Claims of an authorization token: issue time, expiry time (both as Unix
/// timestamps in seconds) and the user they authenticate.
#[derive(Debug, Clone, Copy)]
pub struct UserToken {
    pub iat: i64,
    pub exp: i64,
    pub user_id: u64,
}

impl UserToken {
    /// Fresh claims for `user_id`, issued at `now` and expiring one week later.
    pub fn new(user_id: u64, now: i64) -> (t: UserToken)
        requires
            now + ONE_WEEK <= i64::MAX,
        ensures
            t.iat == now,
            t.exp == now + ONE_WEEK,
            t.user_id == user_id,
    {
        UserToken { iat: now, exp: now + ONE_WEEK, user_id }
    }

    /// Whether these claims are still valid at time `now`.
    pub fn is_current(&self, now: i64) -> (r: bool)
        ensures
            r == (now < self.exp),
    {
        now < self.exp
    }
}

} // verus!
