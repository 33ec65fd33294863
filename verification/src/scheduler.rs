//! Round-robin fixture generation by the circle (Berger table) method.
//!
//! A roster of `n` teams is padded with one bye slot when `n` is odd, giving
//! `np` working positions: position `0` is anchored, and the remaining
//! `np - 1` positions rotate one step between rounds. In round `r`, the
//! first half of the positions supplies the home teams and the second half,
//! read backwards, the away teams. Games touching the bye slot are dropped.
//!
//! Instead of mutating two working columns, the implementation computes each
//! position's occupant directly: the rotation is a cyclic shift, so the team
//! seen at rotation slot `k` after `r` rounds is the team that started at
//! slot `k - r` modulo `np - 1`. The specification below is that closed
//! form, and every scheduling property is proved against it.

use vstd::prelude::*;
use crate::fixture::{FixtureObject, FixturesList};
use crate::team::Team;

verus! {

/// Largest roster the scheduler takes: round numbers are stored in a `u16`,
/// and an odd roster of this size already needs 65535 rounds.
pub const MAX_ROSTER: usize = 65535;

/// Why a schedule could not be generated.
#[derive(Debug, Clone, Copy, PartialEq, Eq, Structural)]
pub enum SchedulerError {
    /// Fewer than two teams: there is nothing to pair.
    InsufficientParticipants,
    /// Two teams in the roster share an identifier.
    InvalidRoster,
}

/// No two teams of the roster share an identifier.
pub open spec fn distinct_team_ids(teams: Seq<Team>) -> bool {
    forall|x: int, y: int| 0 <= x < y < teams.len() ==> teams[x].id != teams[y].id
}

/// Number of working positions: the roster size, padded to even by one bye slot.
pub open spec fn padded_size(n: int) -> int {
    if n % 2 == 0 {
        n
    } else {
        n + 1
    }
}

/// Number of rounds of a full single round robin over `n` teams.
pub open spec fn num_rounds(n: int) -> int {
    padded_size(n) - 1
}

/// Pairings formed per round, the possible bye pairing included.
pub open spec fn pairings_per_round(n: int) -> int {
    padded_size(n) / 2
}

/// The padded roster position that starts in rotation slot `k`.
///
/// The rotating positions, in the order the rotation advances them, are the
/// home column below the anchor (positions `1 .. g`) followed by the away
/// column read from its far end back to its front (positions
/// `2g - 1, 2g - 2, .., g`).
pub open spec fn slot_start(g: int, k: int) -> int {
    if k <= g - 2 {
        k + 1
    } else {
        3 * g - 2 - k
    }
}

/// The padded roster position occupying rotation slot `k` after `r` rounds:
/// the one that started `r` slots earlier along the cycle of length `2g - 1`.
pub open spec fn occupant(g: int, r: int, k: int) -> int {
    if k >= r {
        slot_start(g, k - r)
    } else {
        slot_start(g, k - r + 2 * g - 1)
    }
}

/// Padded roster position of the home side of pairing `i` in round `r`.
pub open spec fn home_pos(g: int, r: int, i: int) -> int {
    if i == 0 {
        0
    } else {
        occupant(g, r, i - 1)
    }
}

/// Padded roster position of the away side of pairing `i` in round `r`.
pub open spec fn away_pos(g: int, r: int, i: int) -> int {
    occupant(g, r, 2 * g - 2 - i)
}

/// Whether pairing `i` of round `r` is a real game: neither side is the bye
/// slot that padding may have added past the end of the roster.
pub open spec fn game_is_real(n: int, r: int, i: int) -> bool {
    let g = pairings_per_round(n);
    home_pos(g, r, i) < n && away_pos(g, r, i) < n
}

/// The fixture emitted for pairing `i` of round `r`, with 1-based round number.
pub open spec fn game_at(teams: Seq<Team>, r: int, i: int) -> FixtureObject {
    let g = pairings_per_round(teams.len() as int);
    FixtureObject {
        home_team_id: teams[home_pos(g, r, i)].id,
        away_team_id: teams[away_pos(g, r, i)].id,
        home_score: 0,
        away_score: 0,
        played: false,
        round: (r + 1) as u16,
    }
}

/// The games of round `r` among the first `i` pairings, in pairing order.
pub open spec fn round_games_upto(teams: Seq<Team>, r: int, i: int) -> Seq<FixtureObject>
    decreases i,
{
    if i <= 0 {
        Seq::empty()
    } else if game_is_real(teams.len() as int, r, i - 1) {
        round_games_upto(teams, r, i - 1) + seq![game_at(teams, r, i - 1)]
    } else {
        round_games_upto(teams, r, i - 1)
    }
}

/// All games of round `r`, in pairing order.
pub open spec fn spec_round(teams: Seq<Team>, r: int) -> Seq<FixtureObject> {
    round_games_upto(teams, r, pairings_per_round(teams.len() as int))
}

/// Whether fixture `f` is the game between the two teams with ids `x` and `y`,
/// in either home/away orientation.
pub open spec fn game_pairs(f: FixtureObject, x: u64, y: u64) -> bool {
    (f.home_team_id == x && f.away_team_id == y) || (f.home_team_id == y && f.away_team_id == x)
}

/// Whether two fixtures have no team in common.
pub open spec fn games_share_no_team(f1: FixtureObject, f2: FixtureObject) -> bool {
    &&& f1.home_team_id != f2.home_team_id
    &&& f1.home_team_id != f2.away_team_id
    &&& f1.away_team_id != f2.home_team_id
    &&& f1.away_team_id != f2.away_team_id
}

/// Shape of every emitted fixture of round `r` (0-based): 1-based round
/// number, no result yet, and two different teams of the roster.
pub open spec fn game_wf(teams: Seq<Team>, f: FixtureObject, r: int) -> bool {
    &&& f.round == r + 1
    &&& !f.played
    &&& f.home_score == 0
    &&& f.away_score == 0
    &&& f.home_team_id != f.away_team_id
    &&& exists|x: int| 0 <= x < teams.len() && #[trigger] teams[x].id == f.home_team_id
    &&& exists|y: int| 0 <= y < teams.len() && #[trigger] teams[y].id == f.away_team_id
}

/// The rotation slot in which padded position `p` starts: inverse of
/// `slot_start`.
pub open spec fn start_slot(g: int, p: int) -> int {
    if p <= g - 1 {
        p - 1
    } else {
        3 * g - 2 - p
    }
}

proof fn lemma_slot_start_range(g: int, k: int)
    requires
        1 <= g,
        0 <= k < 2 * g - 1,
    ensures
        1 <= slot_start(g, k) <= 2 * g - 1,
        start_slot(g, slot_start(g, k)) == k,
{
}

proof fn lemma_start_slot_range(g: int, p: int)
    requires
        1 <= g,
        1 <= p <= 2 * g - 1,
    ensures
        0 <= start_slot(g, p) < 2 * g - 1,
        slot_start(g, start_slot(g, p)) == p,
{
}

proof fn lemma_occupant_range(g: int, r: int, k: int)
    requires
        1 <= g,
        0 <= r < 2 * g - 1,
        0 <= k < 2 * g - 1,
    ensures
        1 <= occupant(g, r, k) <= 2 * g - 1,
{
    if k >= r {
        lemma_slot_start_range(g, k - r);
    } else {
        lemma_slot_start_range(g, k - r + 2 * g - 1);
    }
}

proof fn lemma_occupant_injective(g: int, r: int, k1: int, k2: int)
    requires
        1 <= g,
        0 <= r < 2 * g - 1,
        0 <= k1 < 2 * g - 1,
        0 <= k2 < 2 * g - 1,
    ensures
        (occupant(g, r, k1) == occupant(g, r, k2)) <==> (k1 == k2),
{
    let b1 = if k1 >= r {
        k1 - r
    } else {
        k1 - r + 2 * g - 1
    };
    let b2 = if k2 >= r {
        k2 - r
    } else {
        k2 - r + 2 * g - 1
    };
    lemma_slot_start_range(g, b1);
    lemma_slot_start_range(g, b2);
}

/// The two sides of one pairing sit at different padded positions, the home
/// side of pairing 0 being the anchored position 0.
proof fn lemma_game_sides(g: int, r: int, i: int)
    requires
        1 <= g,
        0 <= r < 2 * g - 1,
        0 <= i < g,
    ensures
        home_pos(g, r, i) != away_pos(g, r, i),
        0 <= home_pos(g, r, i) <= 2 * g - 1,
        1 <= away_pos(g, r, i) <= 2 * g - 1,
        i == 0 ==> home_pos(g, r, i) == 0,
        i >= 1 ==> 1 <= home_pos(g, r, i),
{
    lemma_occupant_range(g, r, 2 * g - 2 - i);
    if i >= 1 {
        lemma_occupant_range(g, r, i - 1);
        lemma_occupant_injective(g, r, i - 1, 2 * g - 2 - i);
    }
}

/// Different pairings of one round touch four different padded positions.
proof fn lemma_games_positions_disjoint(g: int, r: int, i1: int, i2: int)
    requires
        1 <= g,
        0 <= r < 2 * g - 1,
        0 <= i1 < g,
        0 <= i2 < g,
        i1 != i2,
    ensures
        home_pos(g, r, i1) != home_pos(g, r, i2),
        home_pos(g, r, i1) != away_pos(g, r, i2),
        away_pos(g, r, i1) != home_pos(g, r, i2),
        away_pos(g, r, i1) != away_pos(g, r, i2),
{
    lemma_occupant_range(g, r, 2 * g - 2 - i1);
    lemma_occupant_range(g, r, 2 * g - 2 - i2);
    if i1 >= 1 {
        lemma_occupant_range(g, r, i1 - 1);
        lemma_occupant_injective(g, r, i1 - 1, 2 * g - 2 - i2);
        if i2 >= 1 {
            lemma_occupant_injective(g, r, i1 - 1, i2 - 1);
        }
    }
    if i2 >= 1 {
        lemma_occupant_range(g, r, i2 - 1);
        lemma_occupant_injective(g, r, 2 * g - 2 - i1, i2 - 1);
    }
    lemma_occupant_injective(g, r, 2 * g - 2 - i1, 2 * g - 2 - i2);
}

/// Positions of the roster hold pairwise different ids, so a position is
/// recoverable from its id.
proof fn lemma_id_injective(teams: Seq<Team>, x: int, y: int)
    requires
        distinct_team_ids(teams),
        0 <= x < teams.len(),
        0 <= y < teams.len(),
        teams[x].id == teams[y].id,
    ensures
        x == y,
{
}

/// Every element of a round prefix is the game of some real pairing below `i`.
proof fn lemma_round_upto_origin(teams: Seq<Team>, r: int, i: int, j: int)
    requires
        0 <= j < round_games_upto(teams, r, i).len(),
    ensures
        exists|i0: int|
            0 <= i0 < i && game_is_real(teams.len() as int, r, i0) && round_games_upto(teams, r, i)[j]
                == #[trigger] game_at(teams, r, i0),
    decreases i,
{
    let s = round_games_upto(teams, r, i);
    let prev = round_games_upto(teams, r, i - 1);
    if i <= 0 {
        // empty prefix: no such j
    } else if j < prev.len() {
        lemma_round_upto_origin(teams, r, i - 1, j);
        let i0 = choose|i0: int|
            0 <= i0 < i - 1 && game_is_real(teams.len() as int, r, i0) && prev[j]
                == #[trigger] game_at(teams, r, i0);
        assert(s[j] == game_at(teams, r, i0));
    } else {
        assert(game_is_real(teams.len() as int, r, i - 1));
        assert(s[j] == game_at(teams, r, i - 1));
    }
}

/// Every real pairing below `i` appears in the round prefix.
proof fn lemma_round_upto_contains(teams: Seq<Team>, r: int, i: int, i0: int)
    requires
        0 <= i0 < i,
        game_is_real(teams.len() as int, r, i0),
    ensures
        exists|j: int|
            0 <= j < round_games_upto(teams, r, i).len() && #[trigger] round_games_upto(
                teams,
                r,
                i,
            )[j] == game_at(teams, r, i0),
    decreases i,
{
    let s = round_games_upto(teams, r, i);
    let prev = round_games_upto(teams, r, i - 1);
    if i0 < i - 1 {
        lemma_round_upto_contains(teams, r, i - 1, i0);
        let j = choose|j: int|
            0 <= j < prev.len() && #[trigger] prev[j] == game_at(teams, r, i0);
        assert(s[j] == game_at(teams, r, i0));
    } else {
        assert(s[s.len() - 1] == game_at(teams, r, i0));
    }
}

/// A real game of round `r` is well-formed.
proof fn lemma_game_at_wf(teams: Seq<Team>, r: int, i: int)
    requires
        distinct_team_ids(teams),
        2 <= teams.len() <= MAX_ROSTER,
        0 <= r < num_rounds(teams.len() as int),
        0 <= i < pairings_per_round(teams.len() as int),
        game_is_real(teams.len() as int, r, i),
    ensures
        game_wf(teams, game_at(teams, r, i), r),
{
    let n = teams.len() as int;
    let g = pairings_per_round(n);
    lemma_game_sides(g, r, i);
    let h = home_pos(g, r, i);
    let a = away_pos(g, r, i);
    assert(teams[h].id != teams[a].id) by {
        if teams[h].id == teams[a].id {
            lemma_id_injective(teams, h, a);
        }
    }
    assert(0 <= r + 1 <= u16::MAX);
    assert(teams[h].id == game_at(teams, r, i).home_team_id);
    assert(teams[a].id == game_at(teams, r, i).away_team_id);
}

/// Two different real pairings of one round have no team in common.
proof fn lemma_games_disjoint_real(teams: Seq<Team>, r: int, i1: int, i2: int)
    requires
        distinct_team_ids(teams),
        2 <= teams.len() <= MAX_ROSTER,
        0 <= r < num_rounds(teams.len() as int),
        0 <= i1 < pairings_per_round(teams.len() as int),
        0 <= i2 < pairings_per_round(teams.len() as int),
        i1 != i2,
        game_is_real(teams.len() as int, r, i1),
        game_is_real(teams.len() as int, r, i2),
    ensures
        games_share_no_team(game_at(teams, r, i1), game_at(teams, r, i2)),
{
    let n = teams.len() as int;
    let g = pairings_per_round(n);
    lemma_games_positions_disjoint(g, r, i1, i2);
    let h1 = home_pos(g, r, i1);
    let a1 = away_pos(g, r, i1);
    let h2 = home_pos(g, r, i2);
    let a2 = away_pos(g, r, i2);
    assert(teams[h1].id != teams[h2].id) by {
        if teams[h1].id == teams[h2].id {
            lemma_id_injective(teams, h1, h2);
        }
    }
    assert(teams[h1].id != teams[a2].id) by {
        if teams[h1].id == teams[a2].id {
            lemma_id_injective(teams, h1, a2);
        }
    }
    assert(teams[a1].id != teams[h2].id) by {
        if teams[a1].id == teams[h2].id {
            lemma_id_injective(teams, a1, h2);
        }
    }
    assert(teams[a1].id != teams[a2].id) by {
        if teams[a1].id == teams[a2].id {
            lemma_id_injective(teams, a1, a2);
        }
    }
}

/// Two different entries of a round prefix have no team in common.
proof fn lemma_round_upto_distinct(teams: Seq<Team>, r: int, i: int, j1: int, j2: int)
    requires
        distinct_team_ids(teams),
        2 <= teams.len() <= MAX_ROSTER,
        0 <= r < num_rounds(teams.len() as int),
        i <= pairings_per_round(teams.len() as int),
        0 <= j1 < j2 < round_games_upto(teams, r, i).len(),
    ensures
        games_share_no_team(round_games_upto(teams, r, i)[j1], round_games_upto(teams, r, i)[j2]),
    decreases i,
{
    let n = teams.len() as int;
    let s = round_games_upto(teams, r, i);
    let prev = round_games_upto(teams, r, i - 1);
    if j2 < prev.len() {
        lemma_round_upto_distinct(teams, r, i - 1, j1, j2);
    } else {
        // j2 is the game of pairing i - 1; j1 came from an earlier pairing.
        assert(game_is_real(n, r, i - 1));
        assert(s[j2] == game_at(teams, r, i - 1));
        lemma_round_upto_origin(teams, r, i - 1, j1);
        let i0 = choose|i0: int|
            0 <= i0 < i - 1 && game_is_real(n, r, i0) && prev[j1] == #[trigger] game_at(
                teams,
                r,
                i0,
            );
        lemma_games_disjoint_real(teams, r, i0, i - 1);
    }
}

/// The rotation slot occupied by the bye position in round `r` of an
/// odd-sized roster: the slot whose occupant started in slot `g - 1`.
spec fn bye_slot(g: int, r: int) -> int {
    if g - 1 + r < 2 * g - 1 {
        g - 1 + r
    } else {
        g - 1 + r - (2 * g - 1)
    }
}

/// The one pairing of round `r` that touches the bye position.
spec fn bye_pairing(g: int, r: int) -> int {
    if bye_slot(g, r) <= g - 2 {
        bye_slot(g, r) + 1
    } else {
        2 * g - 2 - bye_slot(g, r)
    }
}

/// For an odd roster, pairing `i` of round `r` is real exactly when it is not
/// the bye pairing.
proof fn lemma_bye_pairing(n: int, r: int, i: int)
    requires
        n % 2 == 1,
        2 <= n,
        0 <= r < num_rounds(n),
        0 <= i < pairings_per_round(n),
    ensures
        0 <= bye_pairing(pairings_per_round(n), r) < pairings_per_round(n),
        game_is_real(n, r, i) <==> i != bye_pairing(pairings_per_round(n), r),
{
    let g = pairings_per_round(n);
    let kb = bye_slot(g, r);
    lemma_game_sides(g, r, i);
    // Position n (the padded bye) sits in slot kb and nowhere else.
    assert forall|k: int| 0 <= k < 2 * g - 1 implies (occupant(g, r, k) == n <==> k == kb) by {
        lemma_occupant_injective(g, r, k, kb);
        assert(occupant(g, r, kb) == slot_start(g, g - 1));
    }
    if i == 0 {
        assert(home_pos(g, r, i) == 0);
        assert(away_pos(g, r, i) == occupant(g, r, 2 * g - 2));
    }
}

/// Length of a round prefix over an even roster: every pairing is real.
proof fn lemma_round_upto_len_even(teams: Seq<Team>, r: int, i: int)
    requires
        teams.len() % 2 == 0,
        2 <= teams.len() <= MAX_ROSTER,
        0 <= r < num_rounds(teams.len() as int),
        0 <= i <= pairings_per_round(teams.len() as int),
    ensures
        round_games_upto(teams, r, i).len() == i,
    decreases i,
{
    let n = teams.len() as int;
    let g = pairings_per_round(n);
    if i > 0 {
        lemma_round_upto_len_even(teams, r, i - 1);
        lemma_game_sides(g, r, i - 1);
        assert(game_is_real(n, r, i - 1));
    }
}

/// Length of a round prefix over an odd roster: one pairing is skipped.
proof fn lemma_round_upto_len_odd(teams: Seq<Team>, r: int, i: int)
    requires
        teams.len() % 2 == 1,
        2 <= teams.len() <= MAX_ROSTER,
        0 <= r < num_rounds(teams.len() as int),
        0 <= i <= pairings_per_round(teams.len() as int),
    ensures
        round_games_upto(teams, r, i).len() == if bye_pairing(
            pairings_per_round(teams.len() as int),
            r,
        ) < i {
            i - 1
        } else {
            i
        },
    decreases i,
{
    let n = teams.len() as int;
    if i > 0 {
        lemma_round_upto_len_odd(teams, r, i - 1);
        lemma_bye_pairing(n, r, i - 1);
    }
}

/// Every round schedules `⌊n/2⌋` real games.
pub proof fn lemma_round_length(teams: Seq<Team>, r: int)
    requires
        2 <= teams.len() <= MAX_ROSTER,
        0 <= r < num_rounds(teams.len() as int),
    ensures
        spec_round(teams, r).len() == teams.len() as int / 2,
{
    let n = teams.len() as int;
    let g = pairings_per_round(n);
    if n % 2 == 0 {
        lemma_round_upto_len_even(teams, r, g);
    } else {
        lemma_round_upto_len_odd(teams, r, g);
        lemma_bye_pairing(n, r, 0);
    }
}

/// Every game of a round is well-formed: 1-based round number, not yet
/// played, and two different teams drawn from the roster.
pub proof fn lemma_round_games_wf(teams: Seq<Team>, r: int)
    requires
        distinct_team_ids(teams),
        2 <= teams.len() <= MAX_ROSTER,
        0 <= r < num_rounds(teams.len() as int),
    ensures
        forall|j: int|
            0 <= j < spec_round(teams, r).len() ==> game_wf(
                teams,
                #[trigger] spec_round(teams, r)[j],
                r,
            ),
{
    let n = teams.len() as int;
    let g = pairings_per_round(n);
    assert forall|j: int| 0 <= j < spec_round(teams, r).len() implies game_wf(
        teams,
        #[trigger] spec_round(teams, r)[j],
        r,
    ) by {
        lemma_round_upto_origin(teams, r, g, j);
        let i0 = choose|i0: int|
            0 <= i0 < g && game_is_real(n, r, i0) && spec_round(teams, r)[j]
                == #[trigger] game_at(teams, r, i0);
        lemma_game_at_wf(teams, r, i0);
    }
}

/// No team appears in two games of the same round.
pub proof fn lemma_round_no_team_twice(teams: Seq<Team>, r: int)
    requires
        distinct_team_ids(teams),
        2 <= teams.len() <= MAX_ROSTER,
        0 <= r < num_rounds(teams.len() as int),
    ensures
        forall|j1: int, j2: int|
            0 <= j1 < j2 < spec_round(teams, r).len() ==> games_share_no_team(
                #[trigger] spec_round(teams, r)[j1],
                #[trigger] spec_round(teams, r)[j2],
            ),
{
    let g = pairings_per_round(teams.len() as int);
    assert forall|j1: int, j2: int| 0 <= j1 < j2 < spec_round(teams, r).len() implies
        games_share_no_team(
            #[trigger] spec_round(teams, r)[j1],
            #[trigger] spec_round(teams, r)[j2],
        ) by {
        lemma_round_upto_distinct(teams, r, g, j1, j2);
    }
}

/// At most one pairing of the whole schedule puts a given unordered pair of
/// padded positions together.
proof fn lemma_pairing_unique_pos(g: int, r1: int, i1: int, r2: int, i2: int)
    requires
        1 <= g,
        0 <= r1 < 2 * g - 1,
        0 <= i1 < g,
        0 <= r2 < 2 * g - 1,
        0 <= i2 < g,
        (home_pos(g, r1, i1) == home_pos(g, r2, i2) && away_pos(g, r1, i1) == away_pos(g, r2, i2))
            || (home_pos(g, r1, i1) == away_pos(g, r2, i2) && away_pos(g, r1, i1) == home_pos(
            g,
            r2,
            i2,
        )),
    ensures
        r1 == r2,
        i1 == i2,
{
    let m = 2 * g - 1;
    lemma_game_sides(g, r1, i1);
    lemma_game_sides(g, r2, i2);
    if i1 == 0 && i2 == 0 {
        // Both pair the anchor with the occupant of the last rotation slot.
        assert(occupant(g, r1, 2 * g - 2) == occupant(g, r2, 2 * g - 2));
        lemma_slot_start_range(g, 2 * g - 2 - r1);
        lemma_slot_start_range(g, 2 * g - 2 - r2);
    } else if i1 == 0 || i2 == 0 {
        // One game holds the anchor position 0, the other only rotating
        // positions, which are at least 1.
        assert(false);
    } else {
        // Rotation slots of the four sides.
        let bh1 = if i1 - 1 >= r1 {
            i1 - 1 - r1
        } else {
            i1 - 1 - r1 + m
        };
        let ba1 = if 2 * g - 2 - i1 >= r1 {
            2 * g - 2 - i1 - r1
        } else {
            2 * g - 2 - i1 - r1 + m
        };
        let bh2 = if i2 - 1 >= r2 {
            i2 - 1 - r2
        } else {
            i2 - 1 - r2 + m
        };
        let ba2 = if 2 * g - 2 - i2 >= r2 {
            2 * g - 2 - i2 - r2
        } else {
            2 * g - 2 - i2 - r2 + m
        };
        assert(home_pos(g, r1, i1) == slot_start(g, bh1));
        assert(away_pos(g, r1, i1) == slot_start(g, ba1));
        assert(home_pos(g, r2, i2) == slot_start(g, bh2));
        assert(away_pos(g, r2, i2) == slot_start(g, ba2));
        lemma_slot_start_range(g, bh1);
        lemma_slot_start_range(g, ba1);
        lemma_slot_start_range(g, bh2);
        lemma_slot_start_range(g, ba2);
        // Equal positions come from equal slots, so the slot sets agree, and
        // the two slot sums agree. Each sum is 2g - 3 - 2r plus 0, 1 or 2
        // multiples of m, so 2 * (r1 - r2) is a multiple of m; since m is odd
        // and the rounds lie below m, the rounds are equal.
        assert((bh1 == bh2 && ba1 == ba2) || (bh1 == ba2 && ba1 == bh2));
        assert(bh1 + ba1 == bh2 + ba2);
        assert(r1 == r2);
        // Within one round, slots determine the pairing, and a home slot can
        // never equal an away slot: home slots lie below g - 1, away slots at
        // or above it.
        assert(i1 == i2);
    }
}

/// Some pairing of the schedule puts the padded positions `p` and `q`
/// together; the returned pair is its round and pairing index.
proof fn lemma_pair_exists_pos(g: int, p: int, q: int) -> (w: (int, int))
    requires
        1 <= g,
        0 <= p < q <= 2 * g - 1,
    ensures
        ({
            let (r, i) = w;
            &&& 0 <= r < 2 * g - 1
            &&& 0 <= i < g
            &&& ((home_pos(g, r, i) == p && away_pos(g, r, i) == q) || (home_pos(g, r, i) == q
                && away_pos(g, r, i) == p))
        }),
{
    let m = 2 * g - 1;
    if p == 0 {
        // The anchor meets the team of starting slot `start_slot(q)` in the
        // round that shifts that slot onto the last rotation slot.
        let kq = start_slot(g, q);
        lemma_start_slot_range(g, q);
        let r = 2 * g - 2 - kq;
        assert(away_pos(g, r, 0) == slot_start(g, kq));
        (r, 0)
    } else {
        let kp = start_slot(g, p);
        let kq = start_slot(g, q);
        lemma_start_slot_range(g, p);
        lemma_start_slot_range(g, q);
        assert(kp != kq);
        // Pick the round in which the slot sum kp + kq lands on the fixed
        // pairing sum m - 2: solve 2r = m - 2 - kp - kq modulo the odd m.
        let s = m - 2 - kp - kq;
        let t = if s < 0 {
            s + m
        } else {
            s
        };
        assert(0 <= t < m);
        let r = if t % 2 == 0 {
            t / 2
        } else {
            (t + m) / 2
        };
        assert(2 * r == t || 2 * r == t + m);
        assert(0 <= r < m);
        // Slots of p and q in round r.
        let u = if kp + r < m {
            kp + r
        } else {
            kp + r - m
        };
        let v = if kq + r < m {
            kq + r
        } else {
            kq + r - m
        };
        assert(0 <= u < m && 0 <= v < m);
        assert(occupant(g, r, u) == slot_start(g, kp));
        assert(occupant(g, r, v) == slot_start(g, kq));
        assert(u != v);
        assert(u + v == m - 2) by {
            assert(1 <= u + v <= 2 * m - 3);
            assert(2 * r == t || 2 * r == t + m);
        }
        if u < v {
            let i = u + 1;
            assert(2 * u <= u + v - 1);
            (r, i)
        } else {
            let i = v + 1;
            assert(2 * v <= u + v - 1);
            (r, i)
        }
    }
}

/// Every unordered pair of roster teams meets in some game of the schedule.
pub proof fn lemma_pair_covered(teams: Seq<Team>, p: int, q: int)
    requires
        distinct_team_ids(teams),
        2 <= teams.len() <= MAX_ROSTER,
        0 <= p < q < teams.len(),
    ensures
        exists|r: int, j: int|
            0 <= r < num_rounds(teams.len() as int) && 0 <= j < spec_round(teams, r).len()
                && game_pairs(#[trigger] spec_round(teams, r)[j], teams[p].id, teams[q].id),
{
    let n = teams.len() as int;
    let g = pairings_per_round(n);
    let (r, i) = lemma_pair_exists_pos(g, p, q);
    assert(game_is_real(n, r, i));
    lemma_round_upto_contains(teams, r, g, i);
    let j = choose|j: int|
        0 <= j < spec_round(teams, r).len() && #[trigger] spec_round(teams, r)[j] == game_at(
            teams,
            r,
            i,
        );
    assert(game_pairs(spec_round(teams, r)[j], teams[p].id, teams[q].id));
}

/// No unordered pair of roster teams meets in two different games of the
/// schedule.
#[verifier::rlimit(50)]
pub proof fn lemma_pair_unique(teams: Seq<Team>, p: int, q: int, r1: int, j1: int, r2: int, j2: int)
    requires
        distinct_team_ids(teams),
        2 <= teams.len() <= MAX_ROSTER,
        0 <= p < q < teams.len(),
        0 <= r1 < num_rounds(teams.len() as int),
        0 <= j1 < spec_round(teams, r1).len(),
        0 <= r2 < num_rounds(teams.len() as int),
        0 <= j2 < spec_round(teams, r2).len(),
        game_pairs(spec_round(teams, r1)[j1], teams[p].id, teams[q].id),
        game_pairs(spec_round(teams, r2)[j2], teams[p].id, teams[q].id),
    ensures
        r1 == r2,
        j1 == j2,
{
    let n = teams.len() as int;
    let g = pairings_per_round(n);
    lemma_round_upto_origin(teams, r1, g, j1);
    let i1 = choose|i0: int|
        0 <= i0 < g && game_is_real(n, r1, i0) && spec_round(teams, r1)[j1] == #[trigger] game_at(
            teams,
            r1,
            i0,
        );
    lemma_round_upto_origin(teams, r2, g, j2);
    let i2 = choose|i0: int|
        0 <= i0 < g && game_is_real(n, r2, i0) && spec_round(teams, r2)[j2] == #[trigger] game_at(
            teams,
            r2,
            i0,
        );
    let h1 = home_pos(g, r1, i1);
    let a1 = away_pos(g, r1, i1);
    let h2 = home_pos(g, r2, i2);
    let a2 = away_pos(g, r2, i2);
    // Recover positions from ids: the game of (r1, i1) pairs ids of p and q,
    // and ids are injective over positions.
    if teams[h1].id == teams[p].id {
        lemma_id_injective(teams, h1, p);
        lemma_id_injective(teams, a1, q);
    } else {
        lemma_id_injective(teams, h1, q);
        lemma_id_injective(teams, a1, p);
    }
    if teams[h2].id == teams[p].id {
        lemma_id_injective(teams, h2, p);
        lemma_id_injective(teams, a2, q);
    } else {
        lemma_id_injective(teams, h2, q);
        lemma_id_injective(teams, a2, p);
    }
    lemma_pairing_unique_pos(g, r1, i1, r2, i2);
    if j1 != j2 {
        if j1 < j2 {
            lemma_round_upto_distinct(teams, r1, g, j1, j2);
        } else {
            lemma_round_upto_distinct(teams, r1, g, j2, j1);
        }
        assert(false);
    }
}

/// The padded roster position occupying rotation slot `k` after `r` rounds.
fn rotation_occupant(g: usize, r: usize, k: usize) -> (p: usize)
    requires
        1 <= g <= 32768,
        r < 2 * g - 1,
        k < 2 * g - 1,
    ensures
        p == occupant(g as int, r as int, k as int),
        1 <= p <= 2 * g - 1,
{
    let kk = if k >= r {
        k - r
    } else {
        k + 2 * g - 1 - r
    };
    if kk + 2 <= g {
        kk + 1
    } else {
        3 * g - 2 - kk
    }
}

/// Generates the full single round-robin schedule for the given roster by the
/// circle method, one `Vec` of fixtures per round.
///
/// The output is pinned exactly: round `r` (0-based) equals
/// `spec_round(teams@, r)`, so two calls on rosters with equal ids give
/// schedules that pair the same teams in the same order.
pub fn berger_table(teams: &Vec<Team>) -> (fixtures: FixturesList)
    requires
        2 <= teams@.len() <= MAX_ROSTER,
        distinct_team_ids(teams@),
    ensures
        fixtures@.len() == num_rounds(teams@.len() as int),
        forall|r: int|
            0 <= r < fixtures@.len() ==> #[trigger] fixtures@[r]@ == spec_round(teams@, r),
        forall|r: int|
            0 <= r < fixtures@.len() ==> #[trigger] fixtures@[r]@.len() == teams@.len() as int / 2,
        forall|r: int, j: int|
            0 <= r < fixtures@.len() && 0 <= j < fixtures@[r]@.len() ==> game_wf(
                teams@,
                #[trigger] fixtures@[r]@[j],
                r,
            ),
        forall|r: int, j1: int, j2: int|
            0 <= r < fixtures@.len() && 0 <= j1 < j2 < fixtures@[r]@.len()
                ==> games_share_no_team(
                #[trigger] fixtures@[r]@[j1],
                #[trigger] fixtures@[r]@[j2],
            ),
{
    let n = teams.len();
    let np = if n % 2 == 0 {
        n
    } else {
        n + 1
    };
    let g = np / 2;
    let m = np - 1;
    let mut fixtures: FixturesList = Vec::new();
    let mut r: usize = 0;
    while r < m
        invariant
            2 <= n <= MAX_ROSTER,
            n == teams@.len(),
            np == padded_size(n as int),
            g == pairings_per_round(n as int),
            1 <= g <= 32768,
            m == num_rounds(n as int),
            m == 2 * g - 1,
            r <= m,
            distinct_team_ids(teams@),
            fixtures@.len() == r,
            forall|rr: int|
                0 <= rr < r ==> #[trigger] fixtures@[rr]@ == spec_round(teams@, rr),
        decreases m - r,
    {
        let mut week: Vec<FixtureObject> = Vec::new();
        let mut i: usize = 0;
        while i < g
            invariant
                2 <= n <= MAX_ROSTER,
                n == teams@.len(),
                g == pairings_per_round(n as int),
                1 <= g <= 32768,
                m == 2 * g - 1,
                r < m,
                i <= g,
                week@ == round_games_upto(teams@, r as int, i as int),
            decreases g - i,
        {
            let h: usize = if i == 0 {
                0
            } else {
                rotation_occupant(g, r, i - 1)
            };
            let a: usize = rotation_occupant(g, r, 2 * g - 2 - i);
            proof {
                assert(h == home_pos(g as int, r as int, i as int));
                assert(a == away_pos(g as int, r as int, i as int));
            }
            if h < n && a < n {
                let fx = FixtureObject {
                    home_team_id: teams[h].id,
                    away_team_id: teams[a].id,
                    home_score: 0,
                    away_score: 0,
                    played: false,
                    round: (r + 1) as u16,
                };
                proof {
                    assert(fx == game_at(teams@, r as int, i as int));
                }
                week.push(fx);
                proof {
                    assert(week@ =~= round_games_upto(teams@, r as int, i as int + 1));
                }
            } else {
                proof {
                    assert(!game_is_real(n as int, r as int, i as int));
                    assert(week@ =~= round_games_upto(teams@, r as int, i as int + 1));
                }
            }
            i = i + 1;
        }
        fixtures.push(week);
        r = r + 1;
    }
    proof {
        assert forall|rr: int| 0 <= rr < fixtures@.len() implies #[trigger] fixtures@[rr]@.len()
            == teams@.len() as int / 2 by {
            lemma_round_length(teams@, rr);
        }
        assert forall|rr: int, j: int|
            0 <= rr < fixtures@.len() && 0 <= j < fixtures@[rr]@.len() implies game_wf(
            teams@,
            #[trigger] fixtures@[rr]@[j],
            rr,
        ) by {
            lemma_round_games_wf(teams@, rr);
        }
        assert forall|rr: int, j1: int, j2: int|
            0 <= rr < fixtures@.len() && 0 <= j1 < j2 < fixtures@[rr]@.len() implies
            games_share_no_team(
            #[trigger] fixtures@[rr]@[j1],
            #[trigger] fixtures@[rr]@[j2],
        ) by {
            lemma_round_no_team_twice(teams@, rr);
        }
    }
    fixtures
}

/// Full scheduling entry point: checks the roster and returns its Berger
/// table, or reports why none can be generated. `Ok` comes back exactly when
/// the roster has at least two teams and no duplicated identifier.
pub fn generate(teams: &Vec<Team>) -> (result: Result<FixturesList, SchedulerError>)
    requires
        teams@.len() <= MAX_ROSTER,
    ensures
        match result {
            Ok(fixtures) => {
                &&& teams@.len() >= 2
                &&& distinct_team_ids(teams@)
                &&& fixtures@.len() == num_rounds(teams@.len() as int)
                &&& forall|r: int|
                    0 <= r < fixtures@.len() ==> #[trigger] fixtures@[r]@ == spec_round(teams@, r)
                &&& forall|r: int|
                    0 <= r < fixtures@.len() ==> #[trigger] fixtures@[r]@.len() == teams@.len() as int
                        / 2
                &&& forall|r: int, j: int|
                    0 <= r < fixtures@.len() && 0 <= j < fixtures@[r]@.len() ==> game_wf(
                        teams@,
                        #[trigger] fixtures@[r]@[j],
                        r,
                    )
                &&& forall|r: int, j1: int, j2: int|
                    0 <= r < fixtures@.len() && 0 <= j1 < j2 < fixtures@[r]@.len()
                        ==> games_share_no_team(
                        #[trigger] fixtures@[r]@[j1],
                        #[trigger] fixtures@[r]@[j2],
                    )
            },
            Err(SchedulerError::InsufficientParticipants) => teams@.len() < 2,
            Err(SchedulerError::InvalidRoster) => teams@.len() >= 2 && !distinct_team_ids(teams@),
        },
{
    let n = teams.len();
    if n < 2 {
        return Err(SchedulerError::InsufficientParticipants);
    }
    let mut x: usize = 0;
    while x < n
        invariant
            n == teams@.len(),
            x <= n,
            forall|a: int, b: int|
                0 <= a < b < teams@.len() && a < x ==> #[trigger] teams@[a].id
                    != #[trigger] teams@[b].id,
        decreases n - x,
    {
        let mut y = x + 1;
        while y < n
            invariant
                n == teams@.len(),
                x < n,
                x + 1 <= y <= n,
                forall|b: int| x < b < y ==> teams@[x as int].id != #[trigger] teams@[b].id,
            decreases n - y,
        {
            if teams[x].id == teams[y].id {
                proof {
                    assert(teams@[x as int].id == teams@[y as int].id);
                    assert(!distinct_team_ids(teams@));
                }
                return Err(SchedulerError::InvalidRoster);
            }
            y = y + 1;
        }
        x = x + 1;
    }
    assert(distinct_team_ids(teams@));
    Ok(berger_table(teams))
}

/// Over a whole schedule meeting `berger_table`'s contract, every unordered
/// pair of roster teams meets in exactly one game.
pub proof fn lemma_schedule_pairs_once(
    teams: Seq<Team>,
    s: Seq<Vec<FixtureObject>>,
    p: int,
    q: int,
)
    requires
        distinct_team_ids(teams),
        2 <= teams.len() <= MAX_ROSTER,
        s.len() == num_rounds(teams.len() as int),
        forall|r: int| 0 <= r < s.len() ==> #[trigger] s[r]@ == spec_round(teams, r),
        0 <= p < q < teams.len(),
    ensures
        exists|r: int, j: int|
            0 <= r < s.len() && 0 <= j < s[r]@.len() && game_pairs(
                #[trigger] s[r]@[j],
                teams[p].id,
                teams[q].id,
            ),
        forall|r1: int, j1: int, r2: int, j2: int|
            0 <= r1 < s.len() && 0 <= j1 < s[r1]@.len() && 0 <= r2 < s.len() && 0 <= j2
                < s[r2]@.len() && game_pairs(#[trigger] s[r1]@[j1], teams[p].id, teams[q].id)
                && game_pairs(#[trigger] s[r2]@[j2], teams[p].id, teams[q].id) ==> r1 == r2 && j1
                == j2,
{
    lemma_pair_covered(teams, p, q);
    let (r, j) = choose|r: int, j: int|
        0 <= r < num_rounds(teams.len() as int) && 0 <= j < spec_round(teams, r).len()
            && game_pairs(#[trigger] spec_round(teams, r)[j], teams[p].id, teams[q].id);
    assert(s[r]@ == spec_round(teams, r));
    assert(game_pairs(s[r]@[j], teams[p].id, teams[q].id));
    assert forall|r1: int, j1: int, r2: int, j2: int|
        0 <= r1 < s.len() && 0 <= j1 < s[r1]@.len() && 0 <= r2 < s.len() && 0 <= j2 < s[r2]@.len()
            && game_pairs(#[trigger] s[r1]@[j1], teams[p].id, teams[q].id) && game_pairs(
            #[trigger] s[r2]@[j2],
            teams[p].id,
            teams[q].id,
        ) implies r1 == r2 && j1 == j2 by {
        assert(s[r1]@ == spec_round(teams, r1));
        assert(s[r2]@ == spec_round(teams, r2));
        lemma_pair_unique(teams, p, q, r1, j1, r2, j2);
    }
}

/// The scheduler is deterministic: any two schedules meeting `berger_table`'s
/// contract for one roster agree, round by round and game by game.
pub proof fn lemma_generate_deterministic(
    teams: Seq<Team>,
    s1: Seq<Vec<FixtureObject>>,
    s2: Seq<Vec<FixtureObject>>,
)
    requires
        s1.len() == num_rounds(teams.len() as int),
        forall|r: int| 0 <= r < s1.len() ==> #[trigger] s1[r]@ == spec_round(teams, r),
        s2.len() == num_rounds(teams.len() as int),
        forall|r: int| 0 <= r < s2.len() ==> #[trigger] s2[r]@ == spec_round(teams, r),
    ensures
        s1.len() == s2.len(),
        forall|r: int| 0 <= r < s1.len() ==> #[trigger] s1[r]@ == #[trigger] s2[r]@,
{
}

} // verus!
