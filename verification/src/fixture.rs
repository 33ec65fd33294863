//! Fixtures: one scheduled pairing of two teams in a round.

use vstd::prelude::*;
use crate::team::TeamInfoDTO;

verus! {

/// One scheduled game: the two team identifiers, the recorded score, whether
/// the game has been played, and the 1-based round it belongs to.
#[derive(Debug, PartialEq, Eq, Structural, Clone, Copy)]
pub struct FixtureObject {
    pub home_team_id: u64,
    pub away_team_id: u64,
    pub home_score: u8,
    pub away_score: u8,
    pub played: bool,
    pub round: u16,
}

/// A whole schedule: the rounds in order, each round its games in order.
pub type FixturesList = Vec<Vec<FixtureObject>>;

/// A fixture as the store keeps it. The scheduled kick-off, when one is set,
/// is carried as a Unix timestamp in seconds; reading the clock or formatting
/// the date belongs to the surrounding service.
#[derive(Debug)]
pub struct Fixture {
    pub id: u64,
    pub home_team_id: u64,
    pub away_team_id: u64,
    pub league_id: u64,
    pub playing_data: Option<i64>,
    pub home_score: u8,
    pub away_score: u8,
    pub played: bool,
    pub round: u16,
}

/// A stored fixture joined with the names of both teams.
#[derive(Debug)]
pub struct FixtureDataDTO {
    pub id: u64,
    pub home_team: TeamInfoDTO,
    pub away_team: TeamInfoDTO,
    pub home_score: u8,
    pub away_score: u8,
    pub played: bool,
    pub round: u16,
}

/// Payload for recording a result on a fixture.
#[derive(Debug)]
pub struct EditFixtureDTO {
    pub home_score: u8,
    pub away_score: u8,
    pub played: bool,
}

} // verus!
