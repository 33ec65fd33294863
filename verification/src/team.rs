//! Team entities as the scheduler and the standings calculator consume them.

use vstd::prelude::*;
use vstd::string::StrSliceExecFns;

verus! {

/// The longest team name the service accepts.
pub const MAX_TEAM_NAME_LEN: usize = 40;

/// A team registered in a tournament. Identifiers are unique within a roster;
/// the scheduler requires that and rejects duplicates.
#[derive(Debug)]
pub struct Team {
    pub id: u64,
    pub name: String,
    pub tournament_id: u64,
}

/// Payload for registering a new team.
#[derive(Debug)]
pub struct TeamRegisterDTO {
    pub name: String,
}

/// Identifier and display name of a team, as returned to callers.
#[derive(Debug)]
pub struct TeamInfoDTO {
    pub id: u64,
    pub name: String,
}

impl Team {
    /// Whether a proposed team name is short enough to store.
    pub fn name_is_valid(name: &String) -> (r: bool)
        ensures
            r == (name@.len() <= MAX_TEAM_NAME_LEN),
    {
        name.as_str().unicode_len() <= MAX_TEAM_NAME_LEN
    }

    /// A copy of this team; field-by-field so the copy is known to carry
    /// the same identifier and name.
    pub fn duplicate(&self) -> (r: Team)
        ensures
            r.id == self.id,
            r.name@ == self.name@,
            r.tournament_id == self.tournament_id,
    {
        Team { id: self.id, name: self.name.clone(), tournament_id: self.tournament_id }
    }
}

} // verus!
