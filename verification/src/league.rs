//! Leagues, the standings table rows they are ranked into, and the two
//! admission rules the service applies before touching a league.

use vstd::prelude::*;
use vstd::string::StrSliceExecFns;

verus! {

/// The longest league name the service accepts, in bytes.
pub const MAX_LEAGUE_NAME_LEN: usize = 20;

/// The most teams a league may hold. A service-level policy, not a limit of
/// the scheduler itself.
pub const MAX_TEAMS_PER_LEAGUE: i64 = 24;

/// A league of one tournament.
#[derive(Debug)]
pub struct League {
    pub id: u64,
    pub tournament_id: u64,
    pub name: String,
    pub completed: bool,
}

/// Payload for creating or editing a league.
#[derive(Debug)]
pub struct LeagueRegisterDTO {
    pub name: String,
    pub completed: bool,
}

/// Everything a caller sees of one league.
#[derive(Debug)]
pub struct LeagueInformationDTO {
    pub id: u64,
    pub name: String,
    pub tournament_id: u64,
    pub completed: bool,
}

/// One row of a league's standings table. Counts and goals are totals over
/// every played fixture of the team; `goal_difference` is goals scored minus
/// goals conceded, and may be negative.
#[derive(Debug, Clone, PartialEq, Eq)]
pub struct TeamStandingTable {
    pub team_id: u64,
    pub team_name: String,
    pub total_points: u64,
    pub win: u64,
    pub draw: u64,
    pub loss: u64,
    pub goals_scored: u64,
    pub goals_against: u64,
    pub goal_difference: i64,
}

/// A whole standings table, best team first.
#[derive(Debug)]
pub struct LeagueStandingsTable {
    pub standings_table: Vec<TeamStandingTable>,
}

impl League {
    /// Whether a proposed league name is short enough to store.
    pub fn name_is_valid(name: &String) -> (r: bool)
        ensures
            r == (name@.len() <= MAX_LEAGUE_NAME_LEN),
    {
        name.as_str().unicode_len() <= MAX_LEAGUE_NAME_LEN
    }

    /// Whether a league holding `teams_quantity` teams may not take one more.
    pub fn is_full(teams_quantity: i64) -> (r: bool)
        ensures
            r == (teams_quantity >= MAX_TEAMS_PER_LEAGUE),
    {
        teams_quantity >= MAX_TEAMS_PER_LEAGUE
    }
}

} // verus!
