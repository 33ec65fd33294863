//! League standings: folding recorded results into one row per roster team
//! and ranking the rows.
//!
//! Each team's record is accumulated independently from its home and its away
//! appearances over the played results: a win is worth three points, a draw
//! one. Rows are then ordered by points, then goal difference, then goals
//! scored, all descending, then goals conceded ascending; teams tied on all
//! four keys keep their roster order (a stable ranking). The whole
//! computation is a pure function of the result list and the roster.

use vstd::prelude::*;
use crate::fixture::FixtureObject;
use crate::league::TeamStandingTable;
use crate::team::Team;

verus! {

/// Why standings could not be computed.
#[derive(Debug, Clone, Copy, PartialEq, Eq, Structural)]
pub enum StandingsError {
    /// A result references a team that is not in the roster.
    UnknownTeamReference,
}

/// Largest result list the calculator takes; keeps every accumulated total
/// far below the range of a `u64` (scores are `u8`, so goal totals stay
/// under `255` times this bound).
pub const MAX_RESULTS: usize = 0x4000_0000;

/// The accumulated record of one team: points, win/draw/loss counts, and
/// goals scored and conceded.
pub ghost struct TeamStats {
    pub points: int,
    pub win: int,
    pub draw: int,
    pub loss: int,
    pub goals_scored: int,
    pub goals_against: int,
}

/// The empty record.
pub open spec fn zero_stats() -> TeamStats {
    TeamStats { points: 0, win: 0, draw: 0, loss: 0, goals_scored: 0, goals_against: 0 }
}

/// Component-wise sum of two records.
pub open spec fn stats_plus(a: TeamStats, b: TeamStats) -> TeamStats {
    TeamStats {
        points: a.points + b.points,
        win: a.win + b.win,
        draw: a.draw + b.draw,
        loss: a.loss + b.loss,
        goals_scored: a.goals_scored + b.goals_scored,
        goals_against: a.goals_against + b.goals_against,
    }
}

/// What one result contributes to the record of team `tid` as the home side.
pub open spec fn home_delta(tid: u64, f: FixtureObject) -> TeamStats {
    if f.played && f.home_team_id == tid {
        TeamStats {
            points: if f.home_score > f.away_score {
                3
            } else if f.home_score == f.away_score {
                1
            } else {
                0
            },
            win: if f.home_score > f.away_score {
                1
            } else {
                0
            },
            draw: if f.home_score == f.away_score {
                1
            } else {
                0
            },
            loss: if f.home_score < f.away_score {
                1
            } else {
                0
            },
            goals_scored: f.home_score as int,
            goals_against: f.away_score as int,
        }
    } else {
        zero_stats()
    }
}

/// What one result contributes to the record of team `tid` as the away side.
pub open spec fn away_delta(tid: u64, f: FixtureObject) -> TeamStats {
    if f.played && f.away_team_id == tid {
        TeamStats {
            points: if f.away_score > f.home_score {
                3
            } else if f.away_score == f.home_score {
                1
            } else {
                0
            },
            win: if f.away_score > f.home_score {
                1
            } else {
                0
            },
            draw: if f.away_score == f.home_score {
                1
            } else {
                0
            },
            loss: if f.away_score < f.home_score {
                1
            } else {
                0
            },
            goals_scored: f.away_score as int,
            goals_against: f.home_score as int,
        }
    } else {
        zero_stats()
    }
}

/// What one result contributes to the record of team `tid`. An unplayed
/// result contributes nothing.
pub open spec fn game_delta(tid: u64, f: FixtureObject) -> TeamStats {
    stats_plus(home_delta(tid, f), away_delta(tid, f))
}

/// The record of team `tid` over a list of results.
pub open spec fn team_stats(tid: u64, results: Seq<FixtureObject>) -> TeamStats
    decreases results.len(),
{
    if results.len() == 0 {
        zero_stats()
    } else {
        stats_plus(team_stats(tid, results.drop_last()), game_delta(tid, results.last()))
    }
}

/// Whether `e` is the standings row of team `t` over `results`.
pub open spec fn entry_matches(e: TeamStandingTable, t: Team, results: Seq<FixtureObject>) -> bool {
    let st = team_stats(t.id, results);
    &&& e.team_id == t.id
    &&& e.team_name@ == t.name@
    &&& e.total_points == st.points
    &&& e.win == st.win
    &&& e.draw == st.draw
    &&& e.loss == st.loss
    &&& e.goals_scored == st.goals_scored
    &&& e.goals_against == st.goals_against
    &&& e.goal_difference == st.goals_scored - st.goals_against
}

/// Whether record `a` ranks strictly above record `b`: more points, then
/// better goal difference, then more goals scored, then fewer conceded.
pub open spec fn stats_beats(a: TeamStats, b: TeamStats) -> bool {
    ||| a.points > b.points
    ||| (a.points == b.points && a.goals_scored - a.goals_against > b.goals_scored
        - b.goals_against)
    ||| (a.points == b.points && a.goals_scored - a.goals_against == b.goals_scored
        - b.goals_against && a.goals_scored > b.goals_scored)
    ||| (a.points == b.points && a.goals_scored - a.goals_against == b.goals_scored
        - b.goals_against && a.goals_scored == b.goals_scored && a.goals_against
        < b.goals_against)
}

/// `stats_beats`, read off two standings rows.
pub open spec fn spec_beats(a: TeamStandingTable, b: TeamStandingTable) -> bool {
    ||| a.total_points > b.total_points
    ||| (a.total_points == b.total_points && a.goal_difference > b.goal_difference)
    ||| (a.total_points == b.total_points && a.goal_difference == b.goal_difference
        && a.goals_scored > b.goals_scored)
    ||| (a.total_points == b.total_points && a.goal_difference == b.goal_difference
        && a.goals_scored == b.goals_scored && a.goals_against < b.goals_against)
}

/// Whether some roster team carries the identifier `tid`.
pub open spec fn roster_has_id(roster: Seq<Team>, tid: u64) -> bool {
    exists|k: int| 0 <= k < roster.len() && #[trigger] roster[k].id == tid
}

/// Whether every result references roster teams on both sides.
pub open spec fn all_results_known(results: Seq<FixtureObject>, roster: Seq<Team>) -> bool {
    forall|j: int|
        0 <= j < results.len() ==> roster_has_id(roster, (#[trigger] results[j]).home_team_id)
            && roster_has_id(roster, results[j].away_team_id)
}

/// Each stat of a record over `results` is bounded by the number of results:
/// counts by one each, points by three, goals by the largest score.
proof fn lemma_team_stats_bounds(tid: u64, results: Seq<FixtureObject>)
    ensures
        0 <= team_stats(tid, results).points <= 3 * results.len(),
        0 <= team_stats(tid, results).win <= results.len(),
        0 <= team_stats(tid, results).draw <= 2 * results.len(),
        0 <= team_stats(tid, results).loss <= results.len(),
        0 <= team_stats(tid, results).goals_scored <= 510 * results.len(),
        0 <= team_stats(tid, results).goals_against <= 510 * results.len(),
    decreases results.len(),
{
    if results.len() > 0 {
        lemma_team_stats_bounds(tid, results.drop_last());
    }
}

/// The record of the team at roster position `k`.
pub open spec fn stats_at(roster: Seq<Team>, results: Seq<FixtureObject>, k: int) -> TeamStats {
    team_stats(roster[k].id, results)
}

/// Roster position `k` inserted into the ranked position list `ord`: it goes
/// in front of the first listed position whose record it strictly beats, and
/// so behind every earlier position it ties with — a stable insertion.
pub open spec fn insert_ranked(
    ord: Seq<int>,
    k: int,
    roster: Seq<Team>,
    results: Seq<FixtureObject>,
) -> Seq<int>
    decreases ord.len(),
{
    if ord.len() == 0 {
        seq![k]
    } else if stats_beats(stats_at(roster, results, k), stats_at(roster, results, ord[0])) {
        seq![k] + ord
    } else {
        seq![ord[0]] + insert_ranked(ord.drop_first(), k, roster, results)
    }
}

/// Roster positions of the first `j` teams, in ranking order.
pub open spec fn rank_order_upto(roster: Seq<Team>, results: Seq<FixtureObject>, j: int) -> Seq<int>
    decreases j,
{
    if j <= 0 {
        Seq::empty()
    } else {
        insert_ranked(rank_order_upto(roster, results, j - 1), j - 1, roster, results)
    }
}

/// All roster positions, in ranking order.
pub open spec fn rank_order(roster: Seq<Team>, results: Seq<FixtureObject>) -> Seq<int> {
    rank_order_upto(roster, results, roster.len() as int)
}

proof fn lemma_beats_asymmetric(a: TeamStats, b: TeamStats)
    ensures
        !(stats_beats(a, b) && stats_beats(b, a)),
{
}

proof fn lemma_beats_trans(a: TeamStats, b: TeamStats, c: TeamStats)
    ensures
        stats_beats(a, b) && stats_beats(b, c) ==> stats_beats(a, c),
{
}

/// `stats_beats` is a strict weak order: a strict comparison spans every
/// intermediate record.
proof fn lemma_beats_almost_trans(a: TeamStats, b: TeamStats, c: TeamStats)
    ensures
        stats_beats(a, c) ==> stats_beats(a, b) || stats_beats(b, c),
{
}

/// Ranked position lists are sorted: no later entry beats an earlier one.
spec fn ord_sorted(ord: Seq<int>, roster: Seq<Team>, results: Seq<FixtureObject>) -> bool {
    forall|a: int, b: int|
        0 <= a < b < ord.len() ==> !stats_beats(
            #[trigger] stats_at(roster, results, ord[b]),
            #[trigger] stats_at(roster, results, ord[a]),
        )
}

/// Ranked position lists are stable: positions whose records tie stay in
/// roster order.
spec fn ord_stable(ord: Seq<int>, roster: Seq<Team>, results: Seq<FixtureObject>) -> bool {
    forall|a: int, b: int|
        0 <= a < b < ord.len() && !stats_beats(
            #[trigger] stats_at(roster, results, ord[a]),
            #[trigger] stats_at(roster, results, ord[b]),
        ) ==> ord[a] < ord[b]
}

/// What one stable insertion does to a ranked position list that holds
/// positions below `k`: the result keeps length, order, sortedness and
/// stability, holds exactly the old positions and `k`, and repeats none.
proof fn lemma_insert_ranked(ord: Seq<int>, k: int, roster: Seq<Team>, results: Seq<FixtureObject>)
    requires
        0 <= k,
        ord_sorted(ord, roster, results),
        ord_stable(ord, roster, results),
        forall|a: int| 0 <= a < ord.len() ==> 0 <= #[trigger] ord[a] < k,
    ensures
        ({
            let res = insert_ranked(ord, k, roster, results);
            &&& res.len() == ord.len() + 1
            &&& forall|a: int| 0 <= a < res.len() ==> 0 <= #[trigger] res[a] <= k
            &&& forall|v: int| #[trigger] res.contains(v) <==> (v == k || ord.contains(v))
            &&& forall|a: int, b: int|
                0 <= a < b < res.len() ==> #[trigger] res[a] != #[trigger] res[b]
            &&& ord_sorted(res, roster, results)
            &&& ord_stable(res, roster, results)
        }),
    decreases ord.len(),
{
    let res = insert_ranked(ord, k, roster, results);
    let sk = stats_at(roster, results, k);
    if ord.len() == 0 {
        assert(res =~= seq![k]);
        assert(res[0] == k);
    } else if stats_beats(sk, stats_at(roster, results, ord[0])) {
        assert(res =~= seq![k] + ord);
        assert(res[0] == k);
        assert(forall|a: int| 0 <= a < ord.len() ==> res[a + 1] == #[trigger] ord[a]);
        // Sorted: nothing after the front beats the front.
        assert forall|b: int| 1 <= b < res.len() implies !stats_beats(
            stats_at(roster, results, res[b]),
            sk,
        ) by {
            if stats_beats(stats_at(roster, results, ord[b - 1]), sk) {
                lemma_beats_trans(
                    stats_at(roster, results, ord[b - 1]),
                    sk,
                    stats_at(roster, results, ord[0]),
                );
                if b - 1 == 0 {
                    lemma_beats_asymmetric(sk, stats_at(roster, results, ord[0]));
                }
            }
        }
        // Stable: the front strictly beats everything behind it, so no pair
        // behind the front ties with it.
        assert forall|b: int| 1 <= b < res.len() implies stats_beats(
            sk,
            stats_at(roster, results, res[b]),
        ) by {
            lemma_beats_almost_trans(
                sk,
                stats_at(roster, results, ord[b - 1]),
                stats_at(roster, results, ord[0]),
            );
        }
    } else {
        let rest = ord.drop_first();
        assert(forall|a: int| 0 <= a < rest.len() ==> #[trigger] rest[a] == ord[a + 1]);
        lemma_insert_ranked(rest, k, roster, results);
        let res2 = insert_ranked(rest, k, roster, results);
        assert(res =~= seq![ord[0]] + res2);
        assert(res[0] == ord[0]);
        assert(forall|a: int| 0 <= a < res2.len() ==> res[a + 1] == #[trigger] res2[a]);
        // Every element behind the front is `k` or some later element of `ord`.
        assert forall|b: int| 1 <= b < res.len() implies (res[b] == k || exists|c: int|
            1 <= c < ord.len() && #[trigger] ord[c] == res[b]) by {
            let v = res2[b - 1];
            assert(res2.contains(v));
            if v != k {
                assert(rest.contains(v));
                let a0 = choose|a: int| 0 <= a < rest.len() && rest[a] == v;
                assert(ord[a0 + 1] == v);
            }
        }
        // Sorted and stable against the front.
        assert forall|b: int| 1 <= b < res.len() implies {
            &&& !stats_beats(stats_at(roster, results, res[b]), stats_at(roster, results, ord[0]))
            &&& (!stats_beats(stats_at(roster, results, ord[0]), stats_at(roster, results, res[b]))
                ==> ord[0] < res[b])
            &&& ord[0] != res[b]
        } by {
            if res[b] == k {
                // The front does not lose to k (the case branch), and lies
                // below k in roster order.
            } else {
                let c = choose|c: int| 1 <= c < ord.len() && #[trigger] ord[c] == res[b];
                assert(!stats_beats(
                    stats_at(roster, results, ord[c]),
                    stats_at(roster, results, ord[0]),
                ));
            }
        }
        // The content equivalence for the whole list.
        assert forall|v: int| #[trigger] res.contains(v) implies (v == k || ord.contains(v)) by {
            let a0 = choose|a: int| 0 <= a < res.len() && res[a] == v;
            if a0 == 0 {
                assert(ord[0] == v);
            } else {
                assert(res2[a0 - 1] == v);
                assert(res2.contains(v));
                if v != k {
                    assert(rest.contains(v));
                    let a1 = choose|a: int| 0 <= a < rest.len() && rest[a] == v;
                    assert(ord[a1 + 1] == v);
                }
            }
        }
        assert forall|v: int| (v == k || ord.contains(v)) implies #[trigger] res.contains(v) by {
            if v == k {
                assert(res2.contains(v));
                let a0 = choose|a: int| 0 <= a < res2.len() && res2[a] == v;
                assert(res[a0 + 1] == v);
            } else {
                let a0 = choose|a: int| 0 <= a < ord.len() && ord[a] == v;
                if a0 == 0 {
                    assert(res[0] == v);
                } else {
                    assert(rest[a0 - 1] == v);
                    assert(rest.contains(v));
                    assert(res2.contains(v));
                    let a1 = choose|a: int| 0 <= a < res2.len() && res2[a] == v;
                    assert(res[a1 + 1] == v);
                }
            }
        }
    }
}

/// The ranking of the first `j` roster positions is a sorted, stable
/// arrangement of exactly the positions below `j`.
proof fn lemma_rank_order_upto(roster: Seq<Team>, results: Seq<FixtureObject>, j: int)
    requires
        0 <= j,
    ensures
        ({
            let ord = rank_order_upto(roster, results, j);
            &&& ord.len() == j
            &&& forall|a: int| 0 <= a < j ==> 0 <= #[trigger] ord[a] < j
            &&& forall|a: int, b: int| 0 <= a < b < j ==> #[trigger] ord[a] != #[trigger] ord[b]
            &&& forall|v: int| #[trigger] ord.contains(v) <==> 0 <= v < j
            &&& ord_sorted(ord, roster, results)
            &&& ord_stable(ord, roster, results)
        }),
    decreases j,
{
    if j > 0 {
        lemma_rank_order_upto(roster, results, j - 1);
        let prev = rank_order_upto(roster, results, j - 1);
        lemma_insert_ranked(prev, j - 1, roster, results);
    }
}

/// Stable insertion is insertion at the first position the new record beats.
proof fn lemma_insert_ranked_at(
    ord: Seq<int>,
    k: int,
    roster: Seq<Team>,
    results: Seq<FixtureObject>,
    p: int,
)
    requires
        0 <= p <= ord.len(),
        forall|a: int|
            0 <= a < p ==> !stats_beats(
                stats_at(roster, results, k),
                #[trigger] stats_at(roster, results, ord[a]),
            ),
        p < ord.len() ==> stats_beats(
            stats_at(roster, results, k),
            stats_at(roster, results, ord[p]),
        ),
    ensures
        insert_ranked(ord, k, roster, results) == ord.insert(p, k),
    decreases ord.len(),
{
    let res = insert_ranked(ord, k, roster, results);
    ord.insert_ensures(p, k);
    if ord.len() == 0 {
        assert(res =~= ord.insert(0, k));
    } else if stats_beats(stats_at(roster, results, k), stats_at(roster, results, ord[0])) {
        assert(p == 0);
        assert(res =~= ord.insert(0, k));
    } else {
        assert(p >= 1);
        let rest = ord.drop_first();
        assert(forall|a: int| 0 <= a < rest.len() ==> #[trigger] rest[a] == ord[a + 1]);
        lemma_insert_ranked_at(rest, k, roster, results, p - 1);
        rest.insert_ensures(p - 1, k);
        assert(res =~= ord.insert(p, k));
    }
}

/// When the new position ties with every listed one, stable insertion
/// appends it.
proof fn lemma_insert_ranked_all_tied(
    ord: Seq<int>,
    k: int,
    roster: Seq<Team>,
    results: Seq<FixtureObject>,
)
    requires
        forall|a: int|
            0 <= a < ord.len() ==> !stats_beats(
                stats_at(roster, results, k),
                #[trigger] stats_at(roster, results, ord[a]),
            ),
    ensures
        insert_ranked(ord, k, roster, results) == ord.push(k),
    decreases ord.len(),
{
    if ord.len() == 0 {
        assert(insert_ranked(ord, k, roster, results) =~= ord.push(k));
    } else {
        let rest = ord.drop_first();
        assert(forall|a: int| 0 <= a < rest.len() ==> #[trigger] rest[a] == ord[a + 1]);
        lemma_insert_ranked_all_tied(rest, k, roster, results);
        assert(insert_ranked(ord, k, roster, results) =~= ord.push(k));
    }
}

/// With no results every record is empty, so the ranking keeps roster order.
proof fn lemma_rank_order_empty(roster: Seq<Team>, results: Seq<FixtureObject>, j: int)
    requires
        results.len() == 0,
        0 <= j,
    ensures
        rank_order_upto(roster, results, j).len() == j,
        forall|a: int| 0 <= a < j ==> #[trigger] rank_order_upto(roster, results, j)[a] == a,
    decreases j,
{
    if j > 0 {
        lemma_rank_order_empty(roster, results, j - 1);
        let prev = rank_order_upto(roster, results, j - 1);
        assert(results =~= Seq::<FixtureObject>::empty());
        assert forall|a: int| 0 <= a < prev.len() implies !stats_beats(
            stats_at(roster, results, j - 1),
            #[trigger] stats_at(roster, results, prev[a]),
        ) by {
            assert(stats_at(roster, results, j - 1) == zero_stats());
            assert(stats_at(roster, results, prev[a]) == zero_stats());
        }
        lemma_insert_ranked_all_tied(prev, j - 1, roster, results);
    }
}

/// Comparing two rows is comparing the records they were built from.
proof fn lemma_beats_bridge(
    e1: TeamStandingTable,
    t1: Team,
    e2: TeamStandingTable,
    t2: Team,
    results: Seq<FixtureObject>,
)
    requires
        entry_matches(e1, t1, results),
        entry_matches(e2, t2, results),
    ensures
        spec_beats(e1, e2) == stats_beats(team_stats(t1.id, results), team_stats(t2.id, results)),
{
}

/// Whether two standings rows show the same team and the same numbers.
pub open spec fn rows_equal(a: TeamStandingTable, b: TeamStandingTable) -> bool {
    &&& a.team_id == b.team_id
    &&& a.team_name@ == b.team_name@
    &&& a.total_points == b.total_points
    &&& a.win == b.win
    &&& a.draw == b.draw
    &&& a.loss == b.loss
    &&& a.goals_scored == b.goals_scored
    &&& a.goals_against == b.goals_against
    &&& a.goal_difference == b.goal_difference
}

/// Whether `tid` occurs in the roster.
fn roster_contains(roster: &Vec<Team>, tid: u64) -> (r: bool)
    ensures
        r == roster_has_id(roster@, tid),
{
    let mut k: usize = 0;
    while k < roster.len()
        invariant
            k <= roster@.len(),
            forall|a: int| 0 <= a < k ==> #[trigger] roster@[a].id != tid,
        decreases roster@.len() - k,
    {
        if roster[k].id == tid {
            return true;
        }
        k = k + 1;
    }
    false
}

/// Whether row `a` ranks strictly above row `b`.
fn beats(a: &TeamStandingTable, b: &TeamStandingTable) -> (r: bool)
    ensures
        r == spec_beats(*a, *b),
{
    if a.total_points != b.total_points {
        a.total_points > b.total_points
    } else if a.goal_difference != b.goal_difference {
        a.goal_difference > b.goal_difference
    } else if a.goals_scored != b.goals_scored {
        a.goals_scored > b.goals_scored
    } else {
        a.goals_against < b.goals_against
    }
}

/// The standings row of one team: its record folded over the result list.
fn entry_for_team(team: &Team, results: &Vec<FixtureObject>) -> (e: TeamStandingTable)
    requires
        results@.len() <= MAX_RESULTS,
    ensures
        entry_matches(e, *team, results@),
{
    let tid = team.id;
    let mut points: u64 = 0;
    let mut win: u64 = 0;
    let mut draw: u64 = 0;
    let mut loss: u64 = 0;
    let mut goals_scored: u64 = 0;
    let mut goals_against: u64 = 0;
    let mut j: usize = 0;
    while j < results.len()
        invariant
            results@.len() <= MAX_RESULTS,
            j <= results@.len(),
            points == team_stats(tid, results@.take(j as int)).points,
            win == team_stats(tid, results@.take(j as int)).win,
            draw == team_stats(tid, results@.take(j as int)).draw,
            loss == team_stats(tid, results@.take(j as int)).loss,
            goals_scored == team_stats(tid, results@.take(j as int)).goals_scored,
            goals_against == team_stats(tid, results@.take(j as int)).goals_against,
        decreases results@.len() - j,
    {
        proof {
            lemma_team_stats_bounds(tid, results@.take(j as int));
            assert(results@.take(j as int + 1).drop_last() =~= results@.take(j as int));
            assert(results@.take(j as int + 1).last() == results@[j as int]);
        }
        let f = &results[j];
        if f.played {
            if f.home_team_id == tid {
                if f.home_score > f.away_score {
                    points = points + 3;
                    win = win + 1;
                } else if f.home_score == f.away_score {
                    points = points + 1;
                    draw = draw + 1;
                } else {
                    loss = loss + 1;
                }
                goals_scored = goals_scored + f.home_score as u64;
                goals_against = goals_against + f.away_score as u64;
            }
            if f.away_team_id == tid {
                if f.away_score > f.home_score {
                    points = points + 3;
                    win = win + 1;
                } else if f.away_score == f.home_score {
                    points = points + 1;
                    draw = draw + 1;
                } else {
                    loss = loss + 1;
                }
                goals_scored = goals_scored + f.away_score as u64;
                goals_against = goals_against + f.home_score as u64;
            }
        }
        j = j + 1;
    }
    proof {
        assert(results@.take(results@.len() as int) =~= results@);
        lemma_team_stats_bounds(tid, results@);
    }
    TeamStandingTable {
        team_id: tid,
        team_name: team.name.clone(),
        total_points: points,
        win,
        draw,
        loss,
        goals_scored,
        goals_against,
        goal_difference: goals_scored as i64 - goals_against as i64,
    }
}

/// The first position of the table that `e` outranks, or the table length
/// when `e` outranks none.
fn find_rank_position(t: &Vec<TeamStandingTable>, e: &TeamStandingTable) -> (p: usize)
    ensures
        p <= t@.len(),
        forall|a: int| 0 <= a < p ==> !spec_beats(*e, #[trigger] t@[a]),
        p < t@.len() ==> spec_beats(*e, t@[p as int]),
{
    let mut p: usize = 0;
    while p < t.len()
        invariant
            p <= t@.len(),
            forall|a: int| 0 <= a < p ==> !spec_beats(*e, #[trigger] t@[a]),
        decreases t@.len() - p,
    {
        if beats(e, &t[p]) {
            return p;
        }
        p = p + 1;
    }
    p
}

/// Standings over a roster: one ranked row per roster team with every played
/// result folded in. Rows are ordered by points, then goal difference, then
/// goals scored, all descending, then goals conceded ascending; teams tied on
/// all four keys keep their roster order. `Ok` comes back exactly when every
/// result references roster teams on both sides; otherwise nothing is ranked
/// and the unknown reference is reported.
pub fn compute(results: &Vec<FixtureObject>, roster: &Vec<Team>) -> (table: Result<
    Vec<TeamStandingTable>,
    StandingsError,
>)
    requires
        results@.len() <= MAX_RESULTS,
    ensures
        match table {
            Ok(t) => {
                let ord = rank_order(roster@, results@);
                &&& all_results_known(results@, roster@)
                &&& t@.len() == roster@.len()
                &&& ord.len() == roster@.len()
                &&& forall|j: int| 0 <= j < t@.len() ==> 0 <= #[trigger] ord[j] < roster@.len()
                &&& forall|j1: int, j2: int|
                    0 <= j1 < j2 < t@.len() ==> #[trigger] ord[j1] != #[trigger] ord[j2]
                &&& forall|k: int| #[trigger] ord.contains(k) <==> 0 <= k < roster@.len()
                &&& forall|j: int|
                    0 <= j < t@.len() ==> entry_matches(#[trigger] t@[j], roster@[ord[j]], results@)
                &&& forall|j1: int, j2: int|
                    0 <= j1 < j2 < t@.len() ==> !spec_beats(#[trigger] t@[j2], #[trigger] t@[j1])
                &&& forall|j1: int, j2: int|
                    0 <= j1 < j2 < t@.len() && !spec_beats(#[trigger] t@[j1], #[trigger] t@[j2])
                        ==> ord[j1] < ord[j2]
                &&& (results@.len() == 0 ==> forall|j: int|
                    0 <= j < t@.len() ==> #[trigger] ord[j] == j)
            },
            Err(e) => {
                &&& e == StandingsError::UnknownTeamReference
                &&& !all_results_known(results@, roster@)
            },
        },
{
    let mut j: usize = 0;
    while j < results.len()
        invariant
            j <= results@.len(),
            forall|a: int|
                0 <= a < j ==> roster_has_id(roster@, (#[trigger] results@[a]).home_team_id)
                    && roster_has_id(roster@, results@[a].away_team_id),
        decreases results@.len() - j,
    {
        let home_known = roster_contains(roster, results[j].home_team_id);
        let away_known = roster_contains(roster, results[j].away_team_id);
        if !home_known || !away_known {
            proof {
                assert(!(roster_has_id(roster@, results@[j as int].home_team_id) && roster_has_id(
                    roster@,
                    results@[j as int].away_team_id,
                )));
                assert(!all_results_known(results@, roster@));
            }
            return Err(StandingsError::UnknownTeamReference);
        }
        j = j + 1;
    }
    let mut t: Vec<TeamStandingTable> = Vec::new();
    let mut k: usize = 0;
    while k < roster.len()
        invariant
            results@.len() <= MAX_RESULTS,
            k <= roster@.len(),
            t@.len() == k,
            forall|a: int|
                0 <= a < k ==> entry_matches(
                    #[trigger] t@[a],
                    roster@[rank_order_upto(roster@, results@, k as int)[a]],
                    results@,
                ),
        decreases roster@.len() - k,
    {
        let ghost ordk = rank_order_upto(roster@, results@, k as int);
        proof {
            lemma_rank_order_upto(roster@, results@, k as int);
        }
        let e = entry_for_team(&roster[k], results);
        let p = find_rank_position(&t, &e);
        proof {
            assert forall|a: int| 0 <= a < p implies !stats_beats(
                stats_at(roster@, results@, k as int),
                #[trigger] stats_at(roster@, results@, ordk[a]),
            ) by {
                lemma_beats_bridge(e, roster@[k as int], t@[a], roster@[ordk[a]], results@);
            }
            if (p as int) < ordk.len() {
                lemma_beats_bridge(
                    e,
                    roster@[k as int],
                    t@[p as int],
                    roster@[ordk[p as int]],
                    results@,
                );
            }
            lemma_insert_ranked_at(ordk, k as int, roster@, results@, p as int);
            ordk.insert_ensures(p as int, k as int);
            t@.insert_ensures(p as int, e);
        }
        t.insert(p, e);
        proof {
            let ordk1 = rank_order_upto(roster@, results@, k as int + 1);
            assert(ordk1 == ordk.insert(p as int, k as int));
            assert forall|a: int| 0 <= a < k + 1 implies entry_matches(
                #[trigger] t@[a],
                roster@[ordk1[a]],
                results@,
            ) by {
                if a < p {
                    assert(t@[a] == t@.subrange(0, p as int)[a]);
                } else if a == p {
                    assert(t@[a] == e);
                    assert(ordk1[a] == k as int);
                }
            }
        }
        k = k + 1;
    }
    proof {
        let ord = rank_order(roster@, results@);
        lemma_rank_order_upto(roster@, results@, roster@.len() as int);
        assert forall|j1: int, j2: int| 0 <= j1 < j2 < t@.len() implies !spec_beats(
            #[trigger] t@[j2],
            #[trigger] t@[j1],
        ) by {
            assert(stats_at(roster@, results@, ord[j1]) == team_stats(
                roster@[ord[j1]].id,
                results@,
            ));
            assert(stats_at(roster@, results@, ord[j2]) == team_stats(
                roster@[ord[j2]].id,
                results@,
            ));
            lemma_beats_bridge(t@[j2], roster@[ord[j2]], t@[j1], roster@[ord[j1]], results@);
        }
        assert forall|j1: int, j2: int|
            0 <= j1 < j2 < t@.len() && !spec_beats(
                #[trigger] t@[j1],
                #[trigger] t@[j2],
            ) implies ord[j1] < ord[j2] by {
            assert(stats_at(roster@, results@, ord[j1]) == team_stats(
                roster@[ord[j1]].id,
                results@,
            ));
            assert(stats_at(roster@, results@, ord[j2]) == team_stats(
                roster@[ord[j2]].id,
                results@,
            ));
            lemma_beats_bridge(t@[j1], roster@[ord[j1]], t@[j2], roster@[ord[j2]], results@);
        }
        if results@.len() == 0 {
            lemma_rank_order_empty(roster@, results@, roster@.len() as int);
        }
    }
    Ok(t)
}

/// The standings are a function of the results and the roster alone: any two
/// tables meeting `compute`'s contract agree, row by row and field by field.
pub proof fn lemma_compute_deterministic(
    roster: Seq<Team>,
    results: Seq<FixtureObject>,
    t1: Seq<TeamStandingTable>,
    t2: Seq<TeamStandingTable>,
)
    requires
        t1.len() == roster.len(),
        forall|j: int|
            0 <= j < t1.len() ==> entry_matches(
                #[trigger] t1[j],
                roster[rank_order(roster, results)[j]],
                results,
            ),
        t2.len() == roster.len(),
        forall|j: int|
            0 <= j < t2.len() ==> entry_matches(
                #[trigger] t2[j],
                roster[rank_order(roster, results)[j]],
                results,
            ),
    ensures
        t1.len() == t2.len(),
        forall|j: int| 0 <= j < t1.len() ==> rows_equal(#[trigger] t1[j], #[trigger] t2[j]),
{
}

} // verus!
