//! A match between two automata.

use crate::automaton::{next_state, spec_next_state, well_formed, Action, CompressedState};
use vstd::prelude::*;

verus! {

/// What one turn adds to the two scores, the first player's action first.
pub open spec fn payoff(action1: Action, action2: Action) -> (int, int) {
    match (action1, action2) {
        (Action::Go, Action::Go) => (-1, -1),
        (Action::Go, Action::Wait) => (7, -3),
        (Action::Wait, Action::Go) => (-3, 7),
        (Action::Wait, Action::Wait) => (1, 1),
    }
}

/// A match between two turns: where each automaton stands and what each
/// player has scored.
pub struct Standing {
    pub state1: usize,
    pub state2: usize,
    pub score1: int,
    pub score2: int,
}

/// The standing with the two players' roles exchanged.
pub open spec fn mirrored(standing: Standing) -> Standing {
    Standing {
        state1: standing.state2,
        state2: standing.state1,
        score1: standing.score2,
        score2: standing.score1,
    }
}

/// The standing one turn after `standing`. Both players move at once, each
/// from its own current state; each then follows the successor that the
/// other's move selects.
pub open spec fn after_turn(
    player1: Seq<CompressedState>,
    player2: Seq<CompressedState>,
    standing: Standing,
) -> Standing {
    let state1 = player1[standing.state1 as int];
    let state2 = player2[standing.state2 as int];
    let gain = payoff(state1.action, state2.action);
    Standing {
        state1: spec_next_state(state1, state2.action),
        state2: spec_next_state(state2, state1.action),
        score1: standing.score1 + gain.0,
        score2: standing.score2 + gain.1,
    }
}

/// The standing after `turns` turns of a match that both automata begin at
/// position 0 with no score.
pub open spec fn standing_after(
    player1: Seq<CompressedState>,
    player2: Seq<CompressedState>,
    turns: nat,
) -> Standing
    decreases turns,
{
    if turns == 0 {
        Standing { state1: 0, state2: 0, score1: 0, score2: 0 }
    } else {
        after_turn(player1, player2, standing_after(player1, player2, (turns - 1) as nat))
    }
}

/// The two scores after `turns` turns, the first player's first.
pub open spec fn spec_simulate(
    player1: Seq<CompressedState>,
    player2: Seq<CompressedState>,
    turns: nat,
) -> (int, int) {
    let standing = standing_after(player1, player2, turns);
    (standing.score1, standing.score2)
}

/// Well-formed automata never leave their states, and a turn moves a score
/// by no less than -3 and no more than 7.
pub proof fn lemma_standing_bounds(
    player1: Seq<CompressedState>,
    player2: Seq<CompressedState>,
    turns: nat,
)
    requires
        well_formed(player1),
        well_formed(player2),
    ensures
        standing_after(player1, player2, turns).state1 < player1.len(),
        standing_after(player1, player2, turns).state2 < player2.len(),
        -3 * turns <= standing_after(player1, player2, turns).score1 <= 7 * turns,
        -3 * turns <= standing_after(player1, player2, turns).score2 <= 7 * turns,
    decreases turns,
{
    if turns > 0 {
        lemma_standing_bounds(player1, player2, (turns - 1) as nat);
    }
}

/// A match of no turns leaves both scores at 0, whatever the automata.
pub proof fn lemma_simulate_no_turns(
    player1: Seq<CompressedState>,
    player2: Seq<CompressedState>,
)
    ensures
        spec_simulate(player1, player2, 0) == (0int, 0int),
{
}

/// The scores of a match depend on the automata's states and the number of
/// turns alone: equal inputs give equal scores.
pub proof fn lemma_simulate_deterministic(
    player1: Seq<CompressedState>,
    player2: Seq<CompressedState>,
    other1: Seq<CompressedState>,
    other2: Seq<CompressedState>,
    turns: nat,
)
    requires
        player1 =~= other1,
        player2 =~= other2,
    ensures
        spec_simulate(player1, player2, turns) == spec_simulate(other1, other2, turns),
{
}

/// Exchanging the two players exchanges their scores.
pub proof fn lemma_simulate_symmetric(
    player1: Seq<CompressedState>,
    player2: Seq<CompressedState>,
    turns: nat,
)
    ensures
        standing_after(player2, player1, turns) == mirrored(
            standing_after(player1, player2, turns),
        ),
        spec_simulate(player2, player1, turns).0 == spec_simulate(player1, player2, turns).1,
        spec_simulate(player2, player1, turns).1 == spec_simulate(player1, player2, turns).0,
    decreases turns,
{
    if turns > 0 {
        lemma_simulate_symmetric(player1, player2, (turns - 1) as nat);
    }
}

/// Plays `turns` turns of `player1` against `player2` and returns the two
/// scores, the first player's first.
pub fn simulate(player1: &Vec<CompressedState>, player2: &Vec<CompressedState>, turns: u8) -> (scores:
    (i64, i64))
    requires
        turns > 0 ==> well_formed(player1@) && well_formed(player2@),
    ensures
        (scores.0 as int, scores.1 as int) == spec_simulate(player1@, player2@, turns as nat),
        turns == 0 ==> scores == (0i64, 0i64),
        -3 * turns <= scores.0 <= 7 * turns,
        -3 * turns <= scores.1 <= 7 * turns,
{
    let mut scores: (i64, i64) = (0, 0);
    let mut state: (usize, usize) = (0, 0);
    let mut played: u8 = 0;
    while played < turns
        invariant
            played <= turns,
            turns > 0 ==> well_formed(player1@) && well_formed(player2@),
            standing_after(player1@, player2@, played as nat) == (Standing {
                state1: state.0,
                state2: state.1,
                score1: scores.0 as int,
                score2: scores.1 as int,
            }),
        decreases turns - played,
    {
        proof {
            lemma_standing_bounds(player1@, player2@, played as nat);
        }
        let player1_state: &CompressedState = &player1[state.0];
        let player2_state: &CompressedState = &player2[state.1];
        let diff: (i64, i64) = match (player1_state.action, player2_state.action) {
            (Action::Go, Action::Go) => (-1, -1),
            (Action::Go, Action::Wait) => (7, -3),
            (Action::Wait, Action::Go) => (-3, 7),
            (Action::Wait, Action::Wait) => (1, 1),
        };
        scores.0 += diff.0;
        scores.1 += diff.1;
        state.0 = next_state(player1_state, &player2_state.action);
        state.1 = next_state(player2_state, &player1_state.action);
        played += 1;
    }
    proof {
        if turns > 0 {
            lemma_standing_bounds(player1@, player2@, turns as nat);
        }
    }
    scores
}

} // verus!
