//! A tournament: every entry of a roster plays every other, and each result
//! counts once for each copy of the opponent in the population.

use crate::automaton::{well_formed, CompressedState};
use crate::contest::{lemma_simulate_symmetric, lemma_standing_bounds, simulate, spec_simulate};
use crate::error::RosterError;
use vstd::prelude::*;

verus! {

/// The longest roster that [`simulate_nvn`] takes. Up to this length no
/// total can leave the range of `i64`, whatever the weights and the number
/// of turns; the table of pairwise scores of a longer roster would not fit
/// in memory.
pub const MAX_ROSTER: usize = 0xFFFF_FFFF;

/// Every entry of `roster` stands for at least one member of the
/// population.
pub open spec fn weights_valid(roster: Seq<(String, Vec<CompressedState>, u16)>) -> bool {
    forall|i: int| 0 <= i < roster.len() ==> (#[trigger] roster[i]).2 >= 1
}

/// Every automaton of `roster` can be run.
pub open spec fn all_well_formed(roster: Seq<(String, Vec<CompressedState>, u16)>) -> bool {
    forall|i: int| 0 <= i < roster.len() ==> well_formed((#[trigger] roster[i]).1@)
}

/// What entry `player` scores in one match of `turns` turns against entry
/// `opponent`.
pub open spec fn pair_score(
    roster: Seq<(String, Vec<CompressedState>, u16)>,
    turns: nat,
    player: int,
    opponent: int,
) -> int {
    spec_simulate(roster[player].1@, roster[opponent].1@, turns).0
}

/// How many members of the population entry `player` meets as entry
/// `opponent`: all of them, but not itself.
pub open spec fn effective_count(
    roster: Seq<(String, Vec<CompressedState>, u16)>,
    player: int,
    opponent: int,
) -> int {
    if player == opponent {
        roster[opponent].2 - 1
    } else {
        roster[opponent].2 as int
    }
}

/// What entry `player` scores against the first `n` entries of `roster`.
pub open spec fn total_over(
    roster: Seq<(String, Vec<CompressedState>, u16)>,
    turns: nat,
    player: int,
    n: nat,
) -> int
    decreases n,
{
    if n == 0 {
        0
    } else {
        total_over(roster, turns, player, (n - 1) as nat) + pair_score(
            roster,
            turns,
            player,
            n - 1,
        ) * effective_count(roster, player, n - 1)
    }
}

/// The tournament total of entry `player`.
pub open spec fn spec_total(
    roster: Seq<(String, Vec<CompressedState>, u16)>,
    turns: nat,
    player: int,
) -> int {
    total_over(roster, turns, player, roster.len())
}

/// The greatest distance from 0 of what one opponent adds to a total.
pub open spec fn term_bound() -> int {
    116_979_975
}

/// One match moves a score by at most 7 a turn.
pub proof fn lemma_pair_score_bounds(
    roster: Seq<(String, Vec<CompressedState>, u16)>,
    turns: nat,
    player: int,
    opponent: int,
)
    requires
        turns > 0 ==> all_well_formed(roster),
        0 <= player < roster.len(),
        0 <= opponent < roster.len(),
    ensures
        -3 * turns <= pair_score(roster, turns, player, opponent) <= 7 * turns,
{
    if turns > 0 {
        lemma_standing_bounds(roster[player].1@, roster[opponent].1@, turns);
    }
}

/// One match serves both of its entries: what `player` scores against
/// `opponent` is the second score of the match in which `opponent` is the
/// first player.
pub proof fn lemma_pair_score_mirrored(
    roster: Seq<(String, Vec<CompressedState>, u16)>,
    turns: nat,
    player: int,
    opponent: int,
)
    ensures
        pair_score(roster, turns, player, opponent) == spec_simulate(
            roster[opponent].1@,
            roster[player].1@,
            turns,
        ).1,
{
    lemma_simulate_symmetric(roster[opponent].1@, roster[player].1@, turns);
}

/// What one opponent adds to a total stays within `term_bound`.
proof fn lemma_term_bounds(score: int, count: int)
    requires
        -1785 <= score <= 1785,
        0 <= count <= 65535,
    ensures
        -term_bound() <= score * count <= term_bound(),
{
    assert(-1785 * 65535 <= score * count <= 1785 * 65535) by (nonlinear_arith)
        requires
            -1785 <= score <= 1785,
            0 <= count <= 65535,
    ;
}

/// A total over `n` opponents stays within `n` times `term_bound`.
pub proof fn lemma_total_bounds(
    roster: Seq<(String, Vec<CompressedState>, u16)>,
    turns: nat,
    player: int,
    n: nat,
)
    requires
        turns <= 255,
        turns > 0 ==> all_well_formed(roster),
        weights_valid(roster),
        0 <= player < roster.len(),
        n <= roster.len(),
    ensures
        -n * term_bound() <= total_over(roster, turns, player, n) <= n * term_bound(),
    decreases n,
{
    if n > 0 {
        lemma_total_bounds(roster, turns, player, (n - 1) as nat);
        lemma_pair_score_bounds(roster, turns, player, n - 1);
        lemma_term_bounds(
            pair_score(roster, turns, player, n - 1),
            effective_count(roster, player, n - 1),
        );
    }
}

/// The cell of `player` against `opponent` has been filled when the pair
/// loops stand at `(row, column)`.
spec fn filled(player: int, opponent: int, row: int, column: int) -> bool {
    let low = if player <= opponent { player } else { opponent };
    let high = if player <= opponent { opponent } else { player };
    low < row || (low == row && high < column)
}

/// `points` is a square table over `roster` whose filled cells hold the
/// scores of their pairs.
spec fn table_holds(
    points: Seq<Vec<i64>>,
    roster: Seq<(String, Vec<CompressedState>, u16)>,
    turns: nat,
    row: int,
    column: int,
) -> bool {
    &&& points.len() == roster.len()
    &&& forall|p: int| 0 <= p < points.len() ==> (#[trigger] points[p]).len() == roster.len()
    &&& forall|p: int, o: int|
        0 <= p < roster.len() && 0 <= o < roster.len() && filled(p, o, row, column)
            ==> #[trigger] points[p]@[o] == pair_score(roster, turns, p, o)
}

/// Scores a tournament of `turns` turns a match. Entry `p` of the result is
/// the sum, over every entry `o` of the roster, of what `p` scores against
/// `o` times the weight of `o`, where `p` counts one less of itself. A
/// roster with a weight of 0 is refused before any match is played.
pub fn simulate_nvn(states: &Vec<(String, Vec<CompressedState>, u16)>, turns: u8) -> (totals:
    Result<Vec<i64>, RosterError>)
    requires
        states.len() <= MAX_ROSTER,
        turns > 0 ==> all_well_formed(states@),
    ensures
        match totals {
            Ok(scores) => {
                &&& weights_valid(states@)
                &&& scores.len() == states.len()
                &&& forall|player: int|
                    0 <= player < scores.len() ==> #[trigger] scores@[player] == spec_total(
                        states@,
                        turns as nat,
                        player,
                    )
            },
            Err(e) => !weights_valid(states@) && e == RosterError::InvalidWeight,
        },
{
    let n: usize = states.len();
    let mut checked: usize = 0;
    while checked < n
        invariant
            n == states.len(),
            checked <= n,
            forall|i: int| 0 <= i < checked ==> (#[trigger] states@[i]).2 >= 1,
        decreases n - checked,
    {
        if states[checked].2 == 0 {
            return Err(RosterError::InvalidWeight);
        }
        checked += 1;
    }
    // points[player1][player2] is the score of player1 when playing against player2.
    let mut points: Vec<Vec<i64>> = Vec::new();
    while points.len() < n
        invariant
            points.len() <= n,
            forall|p: int| 0 <= p < points.len() ==> (#[trigger] points@[p]).len() == n,
        decreases n - points.len(),
    {
        points.push(vec![0i64; n]);
    }
    let mut player1: usize = 0;
    while player1 < n
        invariant
            n == states.len(),
            player1 <= n,
            turns > 0 ==> all_well_formed(states@),
            table_holds(points@, states@, turns as nat, player1 as int, player1 as int),
        decreases n - player1,
    {
        let mut player2: usize = player1;
        while player2 < n
            invariant
                n == states.len(),
                player1 < n,
                player1 <= player2 <= n,
                turns > 0 ==> all_well_formed(states@),
                table_holds(points@, states@, turns as nat, player1 as int, player2 as int),
            decreases n - player2,
        {
            let scores: (i64, i64) = simulate(&states[player1].1, &states[player2].1, turns);
            proof {
                lemma_pair_score_mirrored(states@, turns as nat, player2 as int, player1 as int);
            }
            points[player1][player2] = scores.0;
            points[player2][player1] = scores.1;
            player2 += 1;
        }
        player1 += 1;
    }
    let mut ret: Vec<i64> = Vec::new();
    let mut player: usize = 0;
    while player < n
        invariant
            n == states.len(),
            n <= MAX_ROSTER,
            player <= n,
            ret.len() == player,
            weights_valid(states@),
            turns > 0 ==> all_well_formed(states@),
            table_holds(points@, states@, turns as nat, n as int, n as int),
            forall|p: int|
                0 <= p < player ==> #[trigger] ret@[p] == spec_total(states@, turns as nat, p),
        decreases n - player,
    {
        let mut total: i64 = 0;
        let mut opponent: usize = 0;
        while opponent < n
            invariant
                n == states.len(),
                n <= MAX_ROSTER,
                player < n,
                opponent <= n,
                weights_valid(states@),
                turns > 0 ==> all_well_formed(states@),
                table_holds(points@, states@, turns as nat, n as int, n as int),
                total == total_over(states@, turns as nat, player as int, opponent as nat),
            decreases n - opponent,
        {
            let mut number_of_opponents: i64 = states[opponent].2 as i64;
            if player == opponent {
                number_of_opponents -= 1;
            }
            proof {
                assert(filled(player as int, opponent as int, n as int, n as int));
                lemma_pair_score_bounds(states@, turns as nat, player as int, opponent as int);
                lemma_term_bounds(points@[player as int]@[opponent as int] as int, number_of_opponents as int);
                lemma_total_bounds(states@, turns as nat, player as int, opponent as nat);
                assert(opponent * term_bound() <= MAX_ROSTER * term_bound()) by (nonlinear_arith)
                    requires
                        opponent <= MAX_ROSTER,
                ;
            }
            total += points[player][opponent] * number_of_opponents;
            opponent += 1;
        }
        ret.push(total);
        player += 1;
    }
    Ok(ret)
}

} // verus!
