use league_core::fixture::FixtureObject;
use league_core::scheduler::{berger_table, generate, SchedulerError};
use league_core::team::Team;

fn team(id: u64, name: &str) -> Team {
    Team { id, name: String::from(name), tournament_id: 1 }
}

fn roster(ids: &[u64]) -> Vec<Team> {
    let mut teams = Vec::new();
    for id in ids {
        teams.push(team(*id, &format!("team {}", id)));
    }
    teams
}

/// The unordered id pairs of every emitted match, as (min, max).
fn all_pairs(fixtures: &Vec<Vec<FixtureObject>>) -> Vec<(u64, u64)> {
    let mut pairs = Vec::new();
    for round in fixtures {
        for game in round {
            let lo = game.home_team_id.min(game.away_team_id);
            let hi = game.home_team_id.max(game.away_team_id);
            pairs.push((lo, hi));
        }
    }
    pairs
}

fn assert_schedule_shape(fixtures: &Vec<Vec<FixtureObject>>, ids: &[u64]) {
    let n = ids.len();
    let expected_rounds = if n % 2 == 0 { n - 1 } else { n };
    assert_eq!(fixtures.len(), expected_rounds);
    for (r, round) in fixtures.iter().enumerate() {
        assert_eq!(round.len(), n / 2, "round {} has the wrong size", r);
        let mut seen: Vec<u64> = Vec::new();
        for game in round {
            assert_ne!(game.home_team_id, game.away_team_id);
            assert!(ids.contains(&game.home_team_id));
            assert!(ids.contains(&game.away_team_id));
            assert!(!seen.contains(&game.home_team_id), "team plays twice in round {}", r);
            assert!(!seen.contains(&game.away_team_id), "team plays twice in round {}", r);
            seen.push(game.home_team_id);
            seen.push(game.away_team_id);
            assert_eq!(game.round as usize, r + 1);
            assert_eq!(game.home_score, 0);
            assert_eq!(game.away_score, 0);
            assert!(!game.played);
        }
    }
    // every unordered pair exactly once
    let mut pairs = all_pairs(fixtures);
    pairs.sort();
    let mut expected = Vec::new();
    for (i, a) in ids.iter().enumerate() {
        for b in ids.iter().skip(i + 1) {
            expected.push((*a.min(b), *a.max(b)));
        }
    }
    expected.sort();
    assert_eq!(pairs, expected);
}

#[test]
fn four_teams_three_rounds_all_pairs() {
    let teams = roster(&[1, 2, 3, 4]);
    let fixtures = berger_table(&teams);
    assert_eq!(fixtures.len(), 3);
    for round in &fixtures {
        assert_eq!(round.len(), 2);
    }
    assert_schedule_shape(&fixtures, &[1, 2, 3, 4]);
}

#[test]
fn four_teams_exact_circle_order() {
    // The circle method anchors the first team and rotates the rest: with
    // columns [1, 2] over [3, 4] the rounds are fixed.
    let teams = roster(&[1, 2, 3, 4]);
    let fixtures = berger_table(&teams);
    let flat: Vec<(u64, u64, u16)> = fixtures
        .iter()
        .flatten()
        .map(|g| (g.home_team_id, g.away_team_id, g.round))
        .collect();
    assert_eq!(
        flat,
        vec![(1, 3, 1), (2, 4, 1), (1, 4, 2), (3, 2, 2), (1, 2, 3), (4, 3, 3)]
    );
}

#[test]
fn three_teams_three_rounds_one_bye() {
    let teams = roster(&[1, 2, 3]);
    let fixtures = berger_table(&teams);
    assert_eq!(fixtures.len(), 3);
    for round in &fixtures {
        assert_eq!(round.len(), 1);
    }
    assert_schedule_shape(&fixtures, &[1, 2, 3]);
}

#[test]
fn two_teams_single_round() {
    let teams = roster(&[7, 9]);
    let fixtures = berger_table(&teams);
    assert_eq!(fixtures.len(), 1);
    assert_eq!(fixtures[0].len(), 1);
    assert_eq!(fixtures[0][0].home_team_id, 7);
    assert_eq!(fixtures[0][0].away_team_id, 9);
    assert_eq!(fixtures[0][0].round, 1);
}

#[test]
fn larger_even_roster() {
    let ids: Vec<u64> = (1..=8).collect();
    let teams = roster(&ids);
    let fixtures = berger_table(&teams);
    assert_eq!(fixtures.len(), 7);
    assert_schedule_shape(&fixtures, &ids);
}

#[test]
fn larger_odd_roster() {
    let ids: Vec<u64> = (10..=20).collect();
    let teams = roster(&ids);
    let fixtures = berger_table(&teams);
    assert_eq!(fixtures.len(), 11);
    assert_schedule_shape(&fixtures, &ids);
}

#[test]
fn team_id_zero_is_a_real_team() {
    // The bye is a padding position, not a reserved identifier: a team whose
    // id is 0 plays like any other.
    let teams = roster(&[0, 1, 2]);
    let fixtures = berger_table(&teams);
    assert_eq!(fixtures.len(), 3);
    for round in &fixtures {
        assert_eq!(round.len(), 1);
    }
    assert_schedule_shape(&fixtures, &[0, 1, 2]);
}

#[test]
fn generate_rejects_empty_roster() {
    let teams: Vec<Team> = Vec::new();
    assert_eq!(generate(&teams), Err(SchedulerError::InsufficientParticipants));
}

#[test]
fn generate_rejects_single_team() {
    let teams = roster(&[1]);
    assert_eq!(generate(&teams), Err(SchedulerError::InsufficientParticipants));
}

#[test]
fn generate_rejects_duplicate_ids() {
    let teams = roster(&[1, 2, 1]);
    assert_eq!(generate(&teams), Err(SchedulerError::InvalidRoster));
}

#[test]
fn generate_accepts_valid_roster() {
    let teams = roster(&[1, 2, 3, 4, 5]);
    let fixtures = generate(&teams).expect("valid roster must schedule");
    assert_eq!(fixtures.len(), 5);
    assert_schedule_shape(&fixtures, &[1, 2, 3, 4, 5]);
}

#[test]
fn generate_is_deterministic() {
    let teams = roster(&[4, 8, 15, 16, 23, 42]);
    let first = generate(&teams).unwrap();
    let second = generate(&teams).unwrap();
    assert_eq!(first, second);
}

#[test]
fn reordered_roster_changes_pairing_order_not_coverage() {
    let a = berger_table(&roster(&[1, 2, 3, 4]));
    let b = berger_table(&roster(&[4, 3, 2, 1]));
    let mut pairs_a = all_pairs(&a);
    let mut pairs_b = all_pairs(&b);
    pairs_a.sort();
    pairs_b.sort();
    assert_eq!(pairs_a, pairs_b);
}
