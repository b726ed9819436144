//! Strategies for a repeated, simultaneous two-choice game, each written as a
//! small deterministic automaton.
//!
//! [`parse_dfa`] turns the text notation of an automaton into its dense,
//! index-based form, [`simulate`] plays two automata against each other and
//! [`simulate_nvn`] scores a weighted population of them.

pub mod automaton;
pub mod compiler;
pub mod contest;
pub mod error;
pub mod grammar;
pub mod parser;
pub mod tournament;

pub use crate::automaton::{is_well_formed, next_state, Action, CompressedState, State};
pub use crate::compiler::pack;
pub use crate::contest::simulate;
pub use crate::error::{CompileError, RosterError};
pub use crate::parser::{parse_dfa, parse_states};
pub use crate::tournament::{simulate_nvn, MAX_ROSTER};
