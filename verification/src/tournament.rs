//! Tournament entities and the shapes the service layer exchanges for them.

use vstd::prelude::*;
use vstd::string::StrSliceExecFns;

verus! {

/// The longest tournament name the service accepts.
pub const MAX_TOURNAMENT_NAME_LEN: usize = 20;

/// A tournament: the owning user, a display name, and whether anyone may view it.
#[derive(Debug)]
pub struct Tournament {
    pub id: u64,
    pub user_id: u64,
    pub name: String,
    pub public: bool,
}

/// Payload for creating a tournament.
#[derive(Debug)]
pub struct TournamentRegisterDTO {
    pub name: String,
    pub public: bool,
}

/// Payload for editing a tournament; absent fields stay unchanged.
#[derive(Debug)]
pub struct TournamentEditDTO {
    pub name: Option<String>,
    pub public: Option<bool>,
}

impl Tournament {
    /// Whether a proposed tournament name is short enough to store.
    pub fn name_is_valid(name: &String) -> (r: bool)
        ensures
            r == (name@.len() <= MAX_TOURNAMENT_NAME_LEN),
    {
        name.as_str().unicode_len() <= MAX_TOURNAMENT_NAME_LEN
    }
}

impl TournamentEditDTO {
    /// Whether this edit changes anything; an edit that names no field is
    /// rejected before it reaches the store.
    pub fn has_changes(&self) -> (r: bool)
        ensures
            r == (self.name is Some || self.public is Some),
    {
        self.name.is_some() || self.public.is_some()
    }
}

/// League summary listed inside a tournament's information.
#[derive(Debug)]
pub struct LeagueInformationData {
    pub id: u64,
    pub name: String,
    pub completed: bool,
}

/// Team summary listed inside a tournament's information.
#[derive(Debug)]
pub struct TeamInformationData {
    pub id: u64,
    pub name: String,
}

/// Everything a caller sees of one tournament.
#[derive(Debug)]
pub struct TournamentInformationData {
    pub id: u64,
    pub name: String,
    pub leagues: Vec<LeagueInformationData>,
    pub teams: Vec<TeamInformationData>,
}

} // verus!
