//! The text notation of an automaton, as a function on bytes.
//!
//! A source is one or more lines, each of the shape
//! `label:move,label,label`. A label is a decimal number that fits in 16
//! bits, a move is `w` or `g`, and a line ends with a line feed, with a
//! carriage return and a line feed, or with the text. Every function here
//! reads from the front of its input and gives back what it has read
//! together with the input that is left.

use crate::automaton::{Action, State};
use crate::error::CompileError;
use vstd::prelude::*;

verus! {

/// The byte `:`, which follows a state's own label.
pub const COLON: u8 = 0x3A;

/// The byte `,`, which stands before each successor label.
pub const COMMA: u8 = 0x2C;

/// The byte `w`, the move [`Action::Wait`].
pub const MOVE_WAIT: u8 = 0x77;

/// The byte `g`, the move [`Action::Go`].
pub const MOVE_GO: u8 = 0x67;

/// The line feed.
pub const LINE_FEED: u8 = 0x0A;

/// The carriage return.
pub const CARRIAGE_RETURN: u8 = 0x0D;

/// `byte` is one of the ASCII digits `0` to `9`.
pub open spec fn is_digit(byte: u8) -> bool {
    0x30 <= byte <= 0x39
}

/// How many digits `text` begins with.
pub open spec fn digits_len(text: Seq<u8>) -> nat
    decreases text.len(),
{
    if text.len() > 0 && is_digit(text[0]) {
        1 + digits_len(text.skip(1))
    } else {
        0
    }
}

/// The number that the digits `digits` write in base ten.
pub open spec fn decimal_value(digits: Seq<u8>) -> nat
    decreases digits.len(),
{
    if digits.len() == 0 {
        0
    } else {
        10 * decimal_value(digits.drop_last()) + (digits.last() - 0x30) as nat
    }
}

/// A label: the digits that `text` begins with, if there are any and they
/// write a number of at most 65535.
pub open spec fn spec_number(text: Seq<u8>) -> Option<(u16, Seq<u8>)> {
    let n = digits_len(text) as int;
    let value = decimal_value(text.take(n));
    if n > 0 && value <= u16::MAX {
        Some((value as u16, text.skip(n)))
    } else {
        None
    }
}

/// The single byte `byte`.
pub open spec fn spec_byte(text: Seq<u8>, byte: u8) -> Option<Seq<u8>> {
    if text.len() > 0 && text[0] == byte {
        Some(text.skip(1))
    } else {
        None
    }
}

/// A move: `w` for [`Action::Wait`] or `g` for [`Action::Go`].
pub open spec fn spec_action(text: Seq<u8>) -> Option<(Action, Seq<u8>)> {
    if text.len() > 0 && text[0] == MOVE_WAIT {
        Some((Action::Wait, text.skip(1)))
    } else if text.len() > 0 && text[0] == MOVE_GO {
        Some((Action::Go, text.skip(1)))
    } else {
        None
    }
}

/// A declared state: its label, `:`, its move, `,`, the label to follow
/// after the opponent's `g`, `,`, and the label to follow after the
/// opponent's `w`.
pub open spec fn spec_state(text: Seq<u8>) -> Option<(State, Seq<u8>)> {
    match spec_number(text) {
        Some((index, after_index)) => match spec_byte(after_index, COLON) {
            Some(after_colon) => match spec_action(after_colon) {
                Some((action, after_action)) => match spec_byte(after_action, COMMA) {
                    Some(after_comma) => match spec_number(after_comma) {
                        Some((go, after_go)) => match spec_byte(after_go, COMMA) {
                            Some(after_second_comma) => match spec_number(after_second_comma) {
                                Some((wait, rest)) => Some((State { index, action, go, wait }, rest)),
                                None => None,
                            },
                            None => None,
                        },
                        None => None,
                    },
                    None => None,
                },
                None => None,
            },
            None => None,
        },
        None => None,
    }
}

/// A line break: a line feed, or a carriage return and a line feed.
pub open spec fn spec_eol(text: Seq<u8>) -> Option<Seq<u8>> {
    if text.len() >= 1 && text[0] == LINE_FEED {
        Some(text.skip(1))
    } else if text.len() >= 2 && text[0] == CARRIAGE_RETURN && text[1] == LINE_FEED {
        Some(text.skip(2))
    } else {
        None
    }
}

/// A line: a declared state, then the end of the text or a line break.
pub open spec fn spec_line(text: Seq<u8>) -> Option<(State, Seq<u8>)> {
    match spec_state(text) {
        Some((state, after_state)) => if after_state.len() == 0 {
            Some((state, after_state))
        } else {
            match spec_eol(after_state) {
                Some(rest) => Some((state, rest)),
                None => None,
            }
        },
        None => None,
    }
}

/// The lines of `text`, of which `line` lines have gone before: every line
/// up to the end of the text has to be a declared state, and the first one
/// that is not is reported by its number.
pub open spec fn spec_lines(text: Seq<u8>, line: nat) -> Result<Seq<State>, CompileError>
    decreases text.len(),
    via spec_lines_decreases
{
    if text.len() == 0 {
        Ok(Seq::empty())
    } else {
        match spec_line(text) {
            Some((state, rest)) => match spec_lines(rest, line + 1) {
                Ok(states) => Ok(seq![state] + states),
                Err(e) => Err(e),
            },
            None => Err(CompileError::MalformedSyntax { line: line as usize }),
        }
    }
}

#[via_fn]
proof fn spec_lines_decreases(text: Seq<u8>, line: nat) {
    lemma_line_consumes(text);
}

/// The declared states of a whole source text, in the order of its lines.
pub open spec fn spec_states(text: Seq<u8>) -> Result<Seq<State>, CompileError> {
    if text.len() == 0 {
        Err(CompileError::EmptySource)
    } else {
        spec_lines(text, 0)
    }
}

/// `text` begins with no more digits than it has bytes; they are digits, and
/// what follows them is none.
pub proof fn lemma_digits_len(text: Seq<u8>)
    ensures
        digits_len(text) <= text.len(),
        forall|i: int| 0 <= i < digits_len(text) ==> is_digit(#[trigger] text[i]),
        digits_len(text) < text.len() ==> !is_digit(text[digits_len(text) as int]),
    decreases text.len(),
{
    if text.len() > 0 && is_digit(text[0]) {
        let tail = text.skip(1);
        lemma_digits_len(tail);
        assert forall|i: int| 0 <= i < digits_len(text) implies is_digit(#[trigger] text[i]) by {
            if i > 0 {
                assert(text[i] == tail[i - 1]);
            }
        }
        if digits_len(text) < text.len() {
            assert(text[digits_len(text) as int] == tail[digits_len(tail) as int]);
        }
    }
}

/// A number takes at least one byte and leaves an end of its input.
pub proof fn lemma_number_consumes(text: Seq<u8>)
    ensures
        spec_number(text) matches Some((_, rest)) ==> rest.len() < text.len(),
{
    lemma_digits_len(text);
}

/// A line takes at least one byte.
pub proof fn lemma_line_consumes(text: Seq<u8>)
    ensures
        spec_line(text) matches Some((_, rest)) ==> rest.len() < text.len(),
{
    lemma_number_consumes(text);
    if let Some((_, after_index)) = spec_number(text) {
        if let Some(after_colon) = spec_byte(after_index, COLON) {
            if let Some((_, after_action)) = spec_action(after_colon) {
                if let Some(after_comma) = spec_byte(after_action, COMMA) {
                    lemma_number_consumes(after_comma);
                    if let Some((_, after_go)) = spec_number(after_comma) {
                        if let Some(after_second_comma) = spec_byte(after_go, COMMA) {
                            lemma_number_consumes(after_second_comma);
                        }
                    }
                }
            }
        }
    }
}

/// A text has at least one line where it has a byte, and no more lines than
/// bytes.
pub proof fn lemma_lines_count(text: Seq<u8>, line: nat)
    ensures
        spec_lines(text, line) matches Ok(states) ==> states.len() <= text.len() && (text.len() > 0
            ==> states.len() > 0),
    decreases text.len(),
{
    if text.len() > 0 {
        lemma_line_consumes(text);
        if let Some((_, rest)) = spec_line(text) {
            lemma_lines_count(rest, line + 1);
        }
    }
}

/// A prefix of a run of digits writes no greater a number than the run.
pub proof fn lemma_decimal_value_prefix(digits: Seq<u8>, n: int)
    requires
        0 <= n <= digits.len(),
        forall|i: int| 0 <= i < digits.len() ==> is_digit(#[trigger] digits[i]),
    ensures
        decimal_value(digits.take(n)) <= decimal_value(digits),
    decreases digits.len(),
{
    if n == digits.len() {
        assert(digits.take(n) =~= digits);
    } else {
        let front = digits.drop_last();
        lemma_decimal_value_prefix(front, n);
        assert(front.take(n) =~= digits.take(n));
    }
}

} // verus!
