//! The data that the compiler produces and the contest engine reads.

use vstd::prelude::*;

verus! {

/// What a player does in one turn. In the text notation `g` stands for
/// [`Action::Go`] and `w` for [`Action::Wait`].
#[derive(Debug, Clone, Copy, PartialEq, Eq, Structural)]
pub enum Action {
    Wait,
    Go,
}

/// One line of an automaton's source: a state as it was declared, with its
/// own label and the labels of its two successors.
#[derive(Debug, Clone, Copy, PartialEq, Eq, Structural)]
pub struct State {
    /// The label under which other states refer to this one.
    pub index: u16,
    /// What the state plays.
    pub action: Action,
    /// Label of the next state when the opponent played [`Action::Go`].
    pub go: u16,
    /// Label of the next state when the opponent played [`Action::Wait`].
    pub wait: u16,
}

/// One state of a compiled automaton. Its successors are positions in the
/// automaton that holds it.
#[derive(Debug, Clone, Copy, PartialEq, Eq, Structural)]
pub struct CompressedState {
    /// What the state plays.
    pub action: Action,
    /// Position of the next state when the opponent played [`Action::Go`].
    pub go: usize,
    /// Position of the next state when the opponent played [`Action::Wait`].
    pub wait: usize,
}

/// An automaton that can be run: it has an initial state at position 0 and no
/// successor points outside it.
pub open spec fn well_formed(dfa: Seq<CompressedState>) -> bool {
    &&& dfa.len() > 0
    &&& forall|i: int|
        0 <= i < dfa.len() ==> (#[trigger] dfa[i]).go < dfa.len() && dfa[i].wait < dfa.len()
}

/// The position that `state` moves to after the opponent played
/// `opponent_action`.
pub open spec fn spec_next_state(state: CompressedState, opponent_action: Action) -> usize {
    match opponent_action {
        Action::Go => state.go,
        Action::Wait => state.wait,
    }
}

/// The position that `state` moves to after the opponent played
/// `opponent_action`.
pub fn next_state(state: &CompressedState, opponent_action: &Action) -> (next: usize)
    ensures
        next == spec_next_state(*state, *opponent_action),
{
    match opponent_action {
        Action::Go => state.go,
        Action::Wait => state.wait,
    }
}

/// Tells whether `dfa` is well formed.
pub fn is_well_formed(dfa: &Vec<CompressedState>) -> (ok: bool)
    ensures
        ok == well_formed(dfa@),
{
    if dfa.len() == 0 {
        return false;
    }
    let mut i: usize = 0;
    while i < dfa.len()
        invariant
            i <= dfa.len(),
            forall|j: int| 0 <= j < i ==> (#[trigger] dfa@[j]).go < dfa.len() && dfa@[j].wait < dfa.len(),
        decreases dfa.len() - i,
    {
        if dfa[i].go >= dfa.len() || dfa[i].wait >= dfa.len() {
            return false;
        }
        i += 1;
    }
    true
}

} // verus!
