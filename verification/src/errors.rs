//! Construction-time failures: malformed text input, an unsupported board
//! configuration, and the two outcomes of the uniqueness solver that reject
//! a grid (no completion, more than one completion).
use vstd::prelude::*;

verus! {

/// Why a puzzle could not be built or solved.
#[derive(Clone, Copy, Debug, PartialEq, Eq, Structural)]
pub enum PuzzleError {
    /// The textual grid is not exactly 81 characters long.
    BadLength,
    /// The textual grid holds a character outside the accepted set.
    BadChar(char),
    /// The uniqueness solver only accepts exactly three zone tables.
    UnsupportedZones,
    /// The uniqueness solver only accepts edges 4, 9 and 16.
    UnsupportedSize,
    /// The exact-cover search found no completion of the givens.
    NoSolution,
    /// The exact-cover search found more than one completion.
    MultipleSolutions,
}

impl PuzzleError {
    /// A human-readable description of the failure.
    pub fn message(&self) -> (r: String)
        ensures
            *self is BadLength ==> r@ == "text must be 81 characters long"@,
            *self is BadChar ==> r@ == "character can not be present"@,
            *self is UnsupportedZones ==> r@ == "Only traditional sudoku can be solved"@,
            *self is UnsupportedSize ==> r@ == "Board of this size can not be solved"@,
            *self is NoSolution ==> r@ == "Board has no valid solution"@,
            *self is MultipleSolutions ==> r@ == "Board has multiple valid solutions"@,
    {
        match self {
            PuzzleError::BadLength => "text must be 81 characters long".to_owned(),
            PuzzleError::BadChar(_) => "character can not be present".to_owned(),
            PuzzleError::UnsupportedZones => "Only traditional sudoku can be solved".to_owned(),
            PuzzleError::UnsupportedSize => "Board of this size can not be solved".to_owned(),
            PuzzleError::NoSolution => "Board has no valid solution".to_owned(),
            PuzzleError::MultipleSolutions => "Board has multiple valid solutions".to_owned(),
        }
    }
}

} // verus!
