//! Reads the text notation of an automaton.

use crate::automaton::{well_formed, Action, CompressedState, State};
use crate::compiler::{
    declared, lemma_pack_well_formed, lemma_position_of, lemma_undeclared_label_unresolved, pack,
    position_of, resolved_at, spec_pack,
};
use crate::error::CompileError;
use crate::grammar::{
    decimal_value, digits_len, is_digit, lemma_decimal_value_prefix, lemma_digits_len,
    lemma_line_consumes, lemma_lines_count, spec_action, spec_byte, spec_eol, spec_line,
    spec_lines, spec_number, spec_state, spec_states, COLON, COMMA, MOVE_GO, MOVE_WAIT,
};
use vstd::prelude::*;
use vstd::slice::slice_subrange;
use vstd::string::StringSliceAdditionalSpecFns;

verus! {

/// Calls `nom::digit1` on `input` taken as complete. Trusted: it succeeds
/// exactly where `input` begins with a digit, and then returns what follows
/// the leading digits and, second, those digits.
#[verifier::external_body]
fn digit1<'a>(input: &'a [u8]) -> (found: Option<(&'a [u8], &'a [u8])>)
    ensures
        match found {
            Some((rest, digits)) => {
                &&& digits_len(input@) > 0
                &&& digits@ == input@.take(digits_len(input@) as int)
                &&& rest@ == input@.skip(digits_len(input@) as int)
            },
            None => digits_len(input@) == 0,
        },
{
    match nom::digit1(nom::types::CompleteByteSlice(input)) {
        Ok((rest, digits)) => Some((rest.0, digits.0)),
        Err(_) => None,
    }
}

/// Calls `nom::eol` on `input` taken as complete. Trusted: it succeeds
/// exactly where `input` begins with a line feed or with a carriage return
/// and a line feed, and then returns what follows them.
#[verifier::external_body]
fn eol<'a>(input: &'a [u8]) -> (found: Option<&'a [u8]>)
    ensures
        match found {
            Some(rest) => spec_eol(input@) == Some(rest@),
            None => spec_eol(input@) is None,
        },
{
    match nom::eol(nom::types::CompleteByteSlice(input)) {
        Ok((rest, _)) => Some(rest.0),
        Err(_) => None,
    }
}

/// The number that `digits` write in base ten, unless it is greater than
/// 65535.
fn parse_number(digits: &[u8]) -> (number: Option<u16>)
    requires
        forall|i: int| 0 <= i < digits@.len() ==> is_digit(#[trigger] digits@[i]),
    ensures
        number == if decimal_value(digits@) <= u16::MAX {
            Some(decimal_value(digits@) as u16)
        } else {
            None
        },
{
    let mut value: u32 = 0;
    let mut i: usize = 0;
    while i < digits.len()
        invariant
            i <= digits.len(),
            forall|j: int| 0 <= j < digits@.len() ==> is_digit(#[trigger] digits@[j]),
            value == decimal_value(digits@.take(i as int)),
            value <= u16::MAX,
        decreases digits.len() - i,
    {
        let digit: u8 = digits[i] - 0x30;
        proof {
            assert(digits@.take(i + 1).drop_last() =~= digits@.take(i as int));
            lemma_decimal_value_prefix(digits@, i + 1);
        }
        value = value * 10 + digit as u32;
        if value > 0xFFFF {
            return None;
        }
        i += 1;
    }
    proof {
        assert(digits@.take(i as int) =~= digits@);
    }
    Some(value as u16)
}

/// Reads a label from the front of `input`.
fn state_number<'a>(input: &'a [u8]) -> (found: Option<(u16, &'a [u8])>)
    ensures
        match found {
            Some((number, rest)) => spec_number(input@) == Some((number, rest@)),
            None => spec_number(input@) is None,
        },
{
    proof {
        lemma_digits_len(input@);
    }
    match digit1(input) {
        Some((rest, digits)) => match parse_number(digits) {
            Some(number) => Some((number, rest)),
            None => None,
        },
        None => None,
    }
}

/// Reads the byte `expected` from the front of `input`.
fn byte<'a>(input: &'a [u8], expected: u8) -> (found: Option<&'a [u8]>)
    ensures
        match found {
            Some(rest) => spec_byte(input@, expected) == Some(rest@),
            None => spec_byte(input@, expected) is None,
        },
{
    if input.len() > 0 && input[0] == expected {
        Some(slice_subrange(input, 1, input.len()))
    } else {
        None
    }
}

/// Reads a move from the front of `input`.
fn action<'a>(input: &'a [u8]) -> (found: Option<(Action, &'a [u8])>)
    ensures
        match found {
            Some((action, rest)) => spec_action(input@) == Some((action, rest@)),
            None => spec_action(input@) is None,
        },
{
    match byte(input, MOVE_WAIT) {
        Some(rest) => Some((Action::Wait, rest)),
        None => match byte(input, MOVE_GO) {
            Some(rest) => Some((Action::Go, rest)),
            None => None,
        },
    }
}

/// Reads a declared state from the front of `input`.
fn state<'a>(input: &'a [u8]) -> (found: Option<(State, &'a [u8])>)
    ensures
        match found {
            Some((state, rest)) => spec_state(input@) == Some((state, rest@)),
            None => spec_state(input@) is None,
        },
{
    let (index, input) = match state_number(input) {
        Some(found) => found,
        None => {
            return None;
        },
    };
    let input = match byte(input, COLON) {
        Some(rest) => rest,
        None => {
            return None;
        },
    };
    let (action, input) = match action(input) {
        Some(found) => found,
        None => {
            return None;
        },
    };
    let input = match byte(input, COMMA) {
        Some(rest) => rest,
        None => {
            return None;
        },
    };
    let (go, input) = match state_number(input) {
        Some(found) => found,
        None => {
            return None;
        },
    };
    let input = match byte(input, COMMA) {
        Some(rest) => rest,
        None => {
            return None;
        },
    };
    let (wait, input) = match state_number(input) {
        Some(found) => found,
        None => {
            return None;
        },
    };
    Some((State { index, action, go, wait }, input))
}

/// Reads a line from the front of `input`: a declared state and the end of
/// the line.
fn line<'a>(input: &'a [u8]) -> (found: Option<(State, &'a [u8])>)
    ensures
        match found {
            Some((state, rest)) => spec_line(input@) == Some((state, rest@)),
            None => spec_line(input@) is None,
        },
{
    match state(input) {
        Some((state, rest)) => if rest.len() == 0 {
            Some((state, rest))
        } else {
            match eol(rest) {
                Some(rest) => Some((state, rest)),
                None => None,
            }
        },
        None => None,
    }
}

/// `lines` with the states `before` put in front of what it holds.
spec fn after(before: Seq<State>, lines: Result<Seq<State>, CompileError>) -> Result<
    Seq<State>,
    CompileError,
> {
    match lines {
        Ok(states) => Ok(before + states),
        Err(e) => Err(e),
    }
}

/// Reads the declared states of a whole source text, in the order of its
/// lines. A text without any byte is an empty source; otherwise the first
/// line that is no declared state is reported as malformed.
pub fn parse_states(input: &[u8]) -> (parsed: Result<Vec<State>, CompileError>)
    ensures
        match parsed {
            Ok(states) => spec_states(input@) == Ok::<Seq<State>, CompileError>(states@),
            Err(e) => spec_states(input@) == Err::<Seq<State>, CompileError>(e),
        },
        parsed matches Ok(states) ==> states.len() > 0,
{
    if input.len() == 0 {
        return Err(CompileError::EmptySource);
    }
    let mut states: Vec<State> = Vec::new();
    let mut rest: &[u8] = input;
    proof {
        assert(Seq::<State>::empty() + spec_lines(input@, 0)->Ok_0 =~= spec_lines(input@, 0)->Ok_0);
    }
    while rest.len() > 0
        invariant
            spec_lines(input@, 0) == after(states@, spec_lines(rest@, states.len() as nat)),
        decreases rest@.len(),
    {
        proof {
            lemma_line_consumes(rest@);
        }
        match line(rest) {
            Some((state, next)) => {
                proof {
                    let tail = spec_lines(next@, (states.len() + 1) as nat);
                    if tail is Ok {
                        assert(states@ + (seq![state] + tail->Ok_0) =~= states@.push(state)
                            + tail->Ok_0);
                    }
                }
                states.push(state);
                rest = next;
            },
            None => {
                return Err(CompileError::MalformedSyntax { line: states.len() });
            },
        }
    }
    proof {
        assert(states@ + Seq::<State>::empty() =~= states@);
        lemma_lines_count(input@, 0);
    }
    Ok(states)
}

/// What [`parse_dfa`] returns for the bytes `text`.
pub open spec fn spec_parse_dfa(text: Seq<u8>) -> Result<Seq<CompressedState>, CompileError> {
    match spec_states(text) {
        Ok(states) => spec_pack(states),
        Err(e) => Err(e),
    }
}

/// Whatever a text compiles to can be run. It holds one state per line of
/// the text, in the order of the lines, so that the first line is the
/// initial state at position 0, and every successor is a position of the
/// automaton: that of the last line that declares the successor's label.
pub proof fn lemma_compiled_well_formed(text: Seq<u8>)
    requires
        text.len() <= usize::MAX,
        spec_parse_dfa(text) is Ok,
    ensures
        spec_states(text) is Ok,
        ({
            let states = spec_states(text)->Ok_0;
            let dfa = spec_parse_dfa(text)->Ok_0;
            &&& dfa.len() == states.len()
            &&& dfa.len() > 0
            &&& forall|i: int|
                0 <= i < dfa.len() ==> {
                    &&& (#[trigger] dfa[i]).action == states[i].action
                    &&& dfa[i].go < dfa.len()
                    &&& dfa[i].wait < dfa.len()
                    &&& dfa[i].go == position_of(states, states[i].go)
                    &&& dfa[i].wait == position_of(states, states[i].wait)
                }
            &&& well_formed(dfa)
        }),
{
    let states = spec_states(text)->Ok_0;
    let dfa = spec_parse_dfa(text)->Ok_0;
    lemma_lines_count(text, 0);
    lemma_pack_well_formed(states);
    assert forall|i: int| 0 <= i < dfa.len() implies {
        &&& (#[trigger] dfa[i]).go == position_of(states, states[i].go)
        &&& dfa[i].wait == position_of(states, states[i].wait)
    } by {
        assert(resolved_at(states, i));
        lemma_position_of(states, states[i].go);
        lemma_position_of(states, states[i].wait);
    }
}

/// A text whose lines are all declared states, one of which names a
/// successor label that no line declares, is refused for that label.
pub proof fn lemma_undeclared_successor_refused(text: Seq<u8>, i: int)
    requires
        spec_states(text) is Ok,
        0 <= i < spec_states(text)->Ok_0.len(),
        ({
            let states = spec_states(text)->Ok_0;
            !declared(states, states[i].go) || !declared(states, states[i].wait)
        }),
    ensures
        spec_parse_dfa(text) == Err::<Seq<CompressedState>, CompileError>(
            CompileError::UnresolvedLabel,
        ),
{
    lemma_undeclared_label_unresolved(spec_states(text)->Ok_0, i);
}

/// Compiles the source text of an automaton, read as the bytes of its
/// UTF-8 encoding. The result holds one state per line, in the order of
/// the lines, so that the first line is the initial state at position 0.
pub fn parse_dfa(input: &str) -> (compiled: Result<Vec<CompressedState>, CompileError>)
    ensures
        match compiled {
            Ok(dfa) => spec_parse_dfa(input.spec_bytes()) == Ok::<
                Seq<CompressedState>,
                CompileError,
            >(dfa@),
            Err(e) => spec_parse_dfa(input.spec_bytes()) == Err::<
                Seq<CompressedState>,
                CompileError,
            >(e),
        },
        compiled matches Ok(dfa) ==> well_formed(dfa@),
{
    match parse_states(input.as_bytes()) {
        Ok(states) => pack(states),
        Err(e) => Err(e),
    }
}

} // verus!
