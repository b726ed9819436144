//! What the library reports when it refuses an input.

use vstd::prelude::*;

verus! {

/// Why a source text is not an automaton.
#[derive(Debug, Clone, Copy, PartialEq, Eq, Structural)]
pub enum CompileError {
    /// A line does not have the shape `label:move,label,label`. `line` counts
    /// the lines before it, so the first line of the text is line 0.
    MalformedSyntax { line: usize },
    /// The text declares no state at all.
    EmptySource,
    /// A state names a successor label that no line declares.
    UnresolvedLabel,
}

/// Why a roster cannot enter a tournament.
#[derive(Debug, Clone, Copy, PartialEq, Eq, Structural)]
pub enum RosterError {
    /// An entry has a population weight of 0.
    InvalidWeight,
}

} // verus!
