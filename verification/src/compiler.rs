//! From declared states to a compiled automaton: labels become positions.

use crate::automaton::{well_formed, CompressedState, State};
use crate::error::CompileError;
use std::collections::BTreeMap;
use vstd::prelude::*;

verus! {

/// Line `i` of `states` declares `label`.
pub open spec fn declares(states: Seq<State>, i: int, label: u16) -> bool {
    0 <= i < states.len() && states[i].index == label
}

/// Some line of `states` declares `label`.
pub open spec fn declared(states: Seq<State>, label: u16) -> bool {
    exists|i: int| #[trigger] declares(states, i, label)
}

/// The position that references to `label` lead to: that of the last line
/// of `states` that declares it, or -1 where none does.
pub open spec fn position_of(states: Seq<State>, label: u16) -> int
    decreases states.len(),
{
    if states.len() == 0 {
        -1
    } else if states.last().index == label {
        states.len() - 1
    } else {
        position_of(states.drop_last(), label)
    }
}

/// Both successors that line `i` of `states` names are declared in `states`.
pub open spec fn resolved_at(states: Seq<State>, i: int) -> bool {
    declared(states, states[i].go) && declared(states, states[i].wait)
}

/// Every successor that a state of `states` names is declared in `states`.
pub open spec fn all_resolved(states: Seq<State>) -> bool {
    forall|i: int| 0 <= i < states.len() ==> #[trigger] resolved_at(states, i)
}

/// The declared state `state` with its successor labels looked up in
/// `states`.
pub open spec fn resolve(states: Seq<State>, state: State) -> CompressedState {
    CompressedState {
        action: state.action,
        go: position_of(states, state.go) as usize,
        wait: position_of(states, state.wait) as usize,
    }
}

/// What [`pack`] returns for `states`: one compiled state per declared
/// state, in the same order, or the failure to resolve a label.
pub open spec fn spec_pack(states: Seq<State>) -> Result<Seq<CompressedState>, CompileError> {
    if all_resolved(states) {
        Ok(Seq::new(states.len(), |i: int| resolve(states, states[i])))
    } else {
        Err(CompileError::UnresolvedLabel)
    }
}

/// `position_of` finds the last declaration of a label, and finds none
/// exactly where the label is not declared.
pub proof fn lemma_position_of(states: Seq<State>, label: u16)
    ensures
        declared(states, label) <==> position_of(states, label) >= 0,
        !declared(states, label) ==> position_of(states, label) == -1,
        declared(states, label) ==> {
            let p = position_of(states, label);
            &&& 0 <= p < states.len()
            &&& states[p].index == label
            &&& forall|j: int| p < j ==> !#[trigger] declares(states, j, label)
        },
    decreases states.len(),
{
    if states.len() == 0 {
    } else if states.last().index == label {
        assert(declares(states, states.len() - 1, label));
    } else {
        let front = states.drop_last();
        lemma_position_of(front, label);
        if declared(states, label) {
            let i = choose|i: int| #[trigger] declares(states, i, label);
            assert(declares(front, i, label));
        }
        if declared(front, label) {
            let i = choose|i: int| #[trigger] declares(front, i, label);
            assert(declares(states, i, label));
            let p = position_of(front, label);
            assert forall|j: int| p < j implies !#[trigger] declares(states, j, label) by {
                if j < front.len() {
                    assert(!declares(front, j, label));
                }
            }
        }
    }
}

/// Whatever [`pack`] compiles can be run, and holds one state per declared
/// state: the state at position 0 is the first one declared, and every
/// successor is a position of the automaton.
pub proof fn lemma_pack_well_formed(states: Seq<State>)
    requires
        states.len() > 0,
        all_resolved(states),
    ensures
        spec_pack(states) is Ok,
        spec_pack(states)->Ok_0.len() == states.len(),
        spec_pack(states)->Ok_0[0].action == states[0].action,
        well_formed(spec_pack(states)->Ok_0),
{
    let dfa = spec_pack(states)->Ok_0;
    assert forall|i: int| 0 <= i < dfa.len() implies (#[trigger] dfa[i]).go < dfa.len()
        && dfa[i].wait < dfa.len() by {
        assert(resolved_at(states, i));
        lemma_position_of(states, states[i].go);
        lemma_position_of(states, states[i].wait);
    }
}

/// A successor label that no line declares is reported as unresolved: the
/// states are not compiled.
pub proof fn lemma_undeclared_label_unresolved(states: Seq<State>, i: int)
    requires
        0 <= i < states.len(),
        !declared(states, states[i].go) || !declared(states, states[i].wait),
    ensures
        spec_pack(states) == Err::<Seq<CompressedState>, CompileError>(
            CompileError::UnresolvedLabel,
        ),
{
    assert(!resolved_at(states, i));
}

/// `lookup` holds, for each label declared in the first `n` states, the
/// position of its last declaration among them.
spec fn lookup_covers(lookup: Map<u16, usize>, states: Seq<State>, n: int) -> bool {
    forall|label: u16|
        {
            &&& #[trigger] lookup.contains_key(label) <==> position_of(states.take(n), label) >= 0
            &&& lookup.contains_key(label) ==> lookup[label] == position_of(states.take(n), label)
        }
}

/// Replaces the successor labels of `states` by positions. A label that is
/// declared more than once leads to its last declaration; each line keeps
/// its own position.
pub fn pack(states: Vec<State>) -> (packed: Result<Vec<CompressedState>, CompileError>)
    ensures
        match packed {
            Ok(dfa) => spec_pack(states@) == Ok::<Seq<CompressedState>, CompileError>(dfa@),
            Err(e) => spec_pack(states@) == Err::<Seq<CompressedState>, CompileError>(e),
        },
        packed is Ok && states.len() > 0 ==> well_formed(packed->Ok_0@),
{
    let mut index_lookup: BTreeMap<u16, usize> = BTreeMap::new();
    let mut n: usize = 0;
    while n < states.len()
        invariant
            n <= states.len(),
            lookup_covers(index_lookup@, states@, n as int),
        decreases states.len() - n,
    {
        index_lookup.insert(states[n].index, n);
        proof {
            assert(states@.take(n + 1).drop_last() =~= states@.take(n as int));
        }
        n += 1;
    }
    proof {
        assert(states@.take(n as int) =~= states@);
    }
    let mut dfa: Vec<CompressedState> = Vec::new();
    let mut i: usize = 0;
    while i < states.len()
        invariant
            i <= states.len(),
            dfa.len() == i,
            lookup_covers(index_lookup@, states@, states.len() as int),
            states@.take(states.len() as int) == states@,
            forall|j: int| 0 <= j < i ==> #[trigger] resolved_at(states@, j),
            forall|j: int| 0 <= j < i ==> #[trigger] dfa@[j] == resolve(states@, states@[j]),
        decreases states.len() - i,
    {
        let state: &State = &states[i];
        proof {
            lemma_position_of(states@, state.go);
            lemma_position_of(states@, state.wait);
        }
        let go: usize = match index_lookup.get(&state.go) {
            Some(position) => *position,
            None => {
                proof {
                    assert(!resolved_at(states@, i as int));
                }
                return Err(CompileError::UnresolvedLabel);
            },
        };
        let wait: usize = match index_lookup.get(&state.wait) {
            Some(position) => *position,
            None => {
                proof {
                    assert(!resolved_at(states@, i as int));
                }
                return Err(CompileError::UnresolvedLabel);
            },
        };
        dfa.push(CompressedState { action: state.action, go, wait });
        i += 1;
    }
    proof {
        assert(dfa@ =~= spec_pack(states@)->Ok_0);
        if states.len() > 0 {
            lemma_pack_well_formed(states@);
        }
    }
    Ok(dfa)
}

} // verus!
