use league_core::fixture::FixtureObject;
use league_core::league::TeamStandingTable;
use league_core::standings::{compute, StandingsError};
use league_core::team::Team;

fn team(id: u64, name: &str) -> Team {
    Team { id, name: String::from(name), tournament_id: 1 }
}

fn result(home: u64, away: u64, home_score: u8, away_score: u8, played: bool) -> FixtureObject {
    FixtureObject { home_team_id: home, away_team_id: away, home_score, away_score, played, round: 1 }
}

fn row(e: &TeamStandingTable) -> (u64, u64, u64, u64, u64, u64, u64, i64) {
    (
        e.team_id,
        e.total_points,
        e.win,
        e.draw,
        e.loss,
        e.goals_scored,
        e.goals_against,
        e.goal_difference,
    )
}

#[test]
fn zero_results_gives_all_zero_rows_in_roster_order() {
    let roster = vec![team(3, "c"), team(1, "a"), team(2, "b")];
    let results: Vec<FixtureObject> = Vec::new();
    let table = compute(&results, &roster).unwrap();
    assert_eq!(table.len(), 3);
    assert_eq!(row(&table[0]), (3, 0, 0, 0, 0, 0, 0, 0));
    assert_eq!(row(&table[1]), (1, 0, 0, 0, 0, 0, 0, 0));
    assert_eq!(row(&table[2]), (2, 0, 0, 0, 0, 0, 0, 0));
    assert_eq!(table[0].team_name, "c");
    assert_eq!(table[1].team_name, "a");
    assert_eq!(table[2].team_name, "b");
}

#[test]
fn scenario_win_and_draw() {
    // A beats B 3-1, A draws C 1-1: A on 4 points, C on 1, B on 0.
    let roster = vec![team(1, "A"), team(2, "B"), team(3, "C")];
    let results = vec![result(1, 2, 3, 1, true), result(1, 3, 1, 1, true)];
    let table = compute(&results, &roster).unwrap();
    assert_eq!(table.len(), 3);
    assert_eq!(row(&table[0]), (1, 4, 1, 1, 0, 4, 2, 2));
    assert_eq!(row(&table[1]), (3, 1, 0, 1, 0, 1, 1, 0));
    assert_eq!(row(&table[2]), (2, 0, 0, 0, 1, 1, 3, -2));
}

#[test]
fn unknown_team_reference_is_an_error() {
    let roster = vec![team(1, "A"), team(2, "B")];
    let results = vec![result(1, 9, 1, 0, true)];
    assert_eq!(compute(&results, &roster), Err(StandingsError::UnknownTeamReference));
}

#[test]
fn unknown_home_team_is_an_error_even_when_unplayed() {
    let roster = vec![team(1, "A"), team(2, "B")];
    let results = vec![result(9, 2, 0, 0, false)];
    assert_eq!(compute(&results, &roster), Err(StandingsError::UnknownTeamReference));
}

#[test]
fn unplayed_results_contribute_nothing() {
    let roster = vec![team(1, "A"), team(2, "B")];
    let results = vec![result(1, 2, 5, 0, false)];
    let table = compute(&results, &roster).unwrap();
    assert_eq!(row(&table[0]), (1, 0, 0, 0, 0, 0, 0, 0));
    assert_eq!(row(&table[1]), (2, 0, 0, 0, 0, 0, 0, 0));
}

#[test]
fn away_side_accumulates_symmetrically() {
    // B wins away 0-2: three points for B, a home loss for A.
    let roster = vec![team(1, "A"), team(2, "B")];
    let results = vec![result(1, 2, 0, 2, true)];
    let table = compute(&results, &roster).unwrap();
    assert_eq!(row(&table[0]), (2, 3, 1, 0, 0, 2, 0, 2));
    assert_eq!(row(&table[1]), (1, 0, 0, 0, 1, 0, 2, -2));
}

#[test]
fn goal_difference_breaks_point_ties() {
    // Both win once 1-0 and 3-0: equal points, the bigger difference leads.
    let roster = vec![team(1, "A"), team(2, "B"), team(3, "C"), team(4, "D")];
    let results = vec![result(1, 3, 1, 0, true), result(2, 4, 3, 0, true)];
    let table = compute(&results, &roster).unwrap();
    assert_eq!(table[0].team_id, 2);
    assert_eq!(table[1].team_id, 1);
}

#[test]
fn goals_scored_breaks_difference_ties() {
    // 2-1 and 1-0 wins have the same difference; more goals scored leads.
    let roster = vec![team(1, "A"), team(2, "B"), team(3, "C"), team(4, "D")];
    let results = vec![result(1, 3, 1, 0, true), result(2, 4, 2, 1, true)];
    let table = compute(&results, &roster).unwrap();
    assert_eq!(table[0].team_id, 2);
    assert_eq!(table[1].team_id, 1);
}

#[test]
fn accumulates_over_several_results() {
    // A: win 4-1, loss 1-2 -> 3 pts, GF5 GA3, GD2.
    // B: win 3-0, draw 2-2 (plus one unplayed game) -> 4 pts, GF5 GA2, GD3.
    // D: away win 2-1, home draw 2-2 -> 4 pts, GF4 GA3, GD1.
    // C: two losses -> 0 pts, GF1 GA7, GD-6.
    let roster = vec![team(1, "A"), team(2, "B"), team(3, "C"), team(4, "D")];
    let results = vec![
        result(1, 3, 4, 1, true),
        result(1, 4, 1, 2, true),
        result(2, 3, 3, 0, true),
        result(2, 4, 2, 2, false),
        result(4, 2, 2, 2, true),
    ];
    let table = compute(&results, &roster).unwrap();
    assert_eq!(row(&table[0]), (2, 4, 1, 1, 0, 5, 2, 3));
    assert_eq!(row(&table[1]), (4, 4, 1, 1, 0, 4, 3, 1));
    assert_eq!(row(&table[2]), (1, 3, 1, 0, 1, 5, 3, 2));
    assert_eq!(row(&table[3]), (3, 0, 0, 0, 2, 1, 7, -6));
}

#[test]
fn full_ties_keep_roster_order() {
    // Two pairs of identical records: roster order decides inside each tie.
    let roster = vec![team(5, "E"), team(6, "F"), team(7, "G"), team(8, "H")];
    let results = vec![result(5, 6, 1, 1, true), result(7, 8, 1, 1, true)];
    let table = compute(&results, &roster).unwrap();
    let ids: Vec<u64> = table.iter().map(|e| e.team_id).collect();
    assert_eq!(ids, vec![5, 6, 7, 8]);
}

#[test]
fn compute_is_idempotent() {
    let roster = vec![team(1, "A"), team(2, "B"), team(3, "C")];
    let results = vec![result(1, 2, 3, 1, true), result(1, 3, 1, 1, true)];
    let first = compute(&results, &roster).unwrap();
    let second = compute(&results, &roster).unwrap();
    assert_eq!(first, second);
}

#[test]
fn standings_from_generated_fixtures() {
    // End to end: schedule four teams, play out the first round only.
    let roster = vec![team(1, "A"), team(2, "B"), team(3, "C"), team(4, "D")];
    let mut fixtures: Vec<FixtureObject> =
        league_core::scheduler::berger_table(&roster).into_iter().flatten().collect();
    fixtures[0].home_score = 2;
    fixtures[0].away_score = 0;
    fixtures[0].played = true;
    let table = compute(&fixtures, &roster).unwrap();
    // Fixture 0 is team 1 at home to team 3.
    assert_eq!(row(&table[0]), (1, 3, 1, 0, 0, 2, 0, 2));
    assert_eq!(row(&table[3]), (3, 0, 0, 0, 1, 0, 2, -2));
}
