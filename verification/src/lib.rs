//! Core logic of a tournament backend: round-robin fixture generation
//! (Berger tables) and league standings aggregation, together with the
//! plain data types the service layer exchanges with it.

use vstd::prelude::*;

pub mod auth;
pub mod fixture;
pub mod league;
pub mod responses;
pub mod scheduler;
pub mod standings;
pub mod team;
pub mod tournament;
pub mod user;

verus! {

/// Greeting served at the root route.
pub fn index() -> (r: &'static str)
    ensures
        r@ == "Hello, world!"@,
{
    "Hello, world!"
}

} // verus!
