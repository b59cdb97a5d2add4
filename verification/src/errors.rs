//! The ways a request can fail before any corpus scan: a malformed
//! guess token, no guesses at all, guesses of different lengths, or
//! contradictory fixed letters at one position.

use vstd::prelude::*;

verus! {

/// Failure of parsing or merging, carrying what a caller needs to
/// render a message: the offending token, the two pattern lengths, or
/// the position and the two conflicting letters.
#[derive(Clone, Debug, PartialEq, Eq)]
pub enum ClueError {
    InvalidToken(String),
    EmptyInput,
    PatternLengthMismatch(usize, usize),
    PositionConflict(usize, char, char),
}

} // verus!
