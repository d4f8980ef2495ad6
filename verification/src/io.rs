//! The textual grid boundary: an 81-character string of digits and blanks
//! becomes a solved 9x9 puzzle, or a construction error.
use vstd::prelude::*;

use crate::Puzzle;
use crate::errors::PuzzleError;

verus! {

use vstd::string::StringSliceAdditionalSpecFns;

/// Bytes accepted in the textual grid: `0`, `.`, space, `X`, `x` for a
/// blank cell and `1` through `9` for a given.
pub open spec fn valid_byte(b: u8) -> bool {
    b == 48 || b == 46 || b == 32 || b == 88 || b == 120 || (49 <= b <= 57)
}

/// The cell value a text byte stands for: the digit's value, 0 otherwise.
pub open spec fn byte_value(b: u8) -> u8 {
    if 49 <= b <= 57 {
        (b - 48) as u8
    } else {
        0u8
    }
}

/// The grid encoded by a run of valid text bytes.
pub open spec fn parsed_grid(bytes: Seq<u8>) -> Seq<u8> {
    Seq::new(bytes.len(), |i: int| byte_value(bytes[i]))
}

/// What building a 9x9 puzzle from grid `g` must yield.
pub open spec fn grid_outcome(g: Seq<u8>, r: Result<Puzzle, PuzzleError>) -> bool {
    let k = crate::solver::grid_knowns(g);
    if !crate::solver::givens_consistent(k, 9) {
        r == Err::<Puzzle, PuzzleError>(PuzzleError::NoSolution)
    } else if crate::solver::dlx_solutions(k).len() == 0 {
        r == Err::<Puzzle, PuzzleError>(PuzzleError::NoSolution)
    } else if crate::solver::dlx_solutions(k).len() > 1 {
        r == Err::<Puzzle, PuzzleError>(PuzzleError::MultipleSolutions)
    } else {
        &&& r is Ok
        &&& r->Ok_0.wf()
        &&& r->Ok_0.size == 9
        &&& r->Ok_0.truths@.len() == 81
        &&& forall|i: int| 0 <= i < 81 ==> (#[trigger] r->Ok_0.truths@[i]) as int
            == crate::solver::dlx_solutions(k)[0][i] as int
        &&& forall|i: int| 0 <= i < 81 ==> r->Ok_0.solved@[i] == (g[i] != 0)
        &&& forall|i: int| 0 <= i < 81 ==> (#[trigger] r->Ok_0.values@[i]) == if g[i] != 0 {
            1u16 << ((g[i] - 1) as u16)
        } else {
            0u16
        }
    }
}

/// Parse an 81-character textual grid (`0`, `.`, space, `X`, `x` blank;
/// `1`-`9` given) and build the solved puzzle from it; the wrong length, a
/// foreign character, and every solver rejection fail construction.
pub fn from_81(text: &str) -> (r: Result<Puzzle, PuzzleError>)
    ensures
        text.spec_bytes().len() != 81 ==> r == Err::<Puzzle, PuzzleError>(PuzzleError::BadLength),
        text.spec_bytes().len() == 81 && (exists|k: int|
            0 <= k < 81 && !valid_byte(#[trigger] text.spec_bytes()[k])) ==> exists|k: int|
            {
                &&& 0 <= k < 81
                &&& !valid_byte(#[trigger] text.spec_bytes()[k])
                &&& forall|j: int| 0 <= j < k ==> valid_byte(#[trigger] text.spec_bytes()[j])
                &&& r == Err::<Puzzle, PuzzleError>(
                    PuzzleError::BadChar(text.spec_bytes()[k] as char),
                )
            },
        text.spec_bytes().len() == 81 && (forall|k: int|
            0 <= k < 81 ==> valid_byte(#[trigger] text.spec_bytes()[k])) ==> grid_outcome(
            parsed_grid(text.spec_bytes()),
            r,
        ),
{
    let bytes = text.as_bytes();
    if bytes.len() != 81 {
        return Err(PuzzleError::BadLength);
    }
    let mut truths: Vec<u8> = Vec::new();
    let mut i: usize = 0;
    while i < 81
        invariant
            bytes@ == text.spec_bytes(),
            bytes@.len() == 81,
            i <= 81,
            truths@.len() == i,
            forall|j: int| 0 <= j < i ==> valid_byte(#[trigger] bytes@[j]),
            forall|j: int| 0 <= j < i ==> (#[trigger] truths@[j]) == byte_value(bytes@[j]),
        decreases 81 - i,
    {
        let b = bytes[i];
        if b == 48 || b == 46 || b == 32 || b == 88 || b == 120 {
            truths.push(0);
        } else if 49 <= b && b <= 57 {
            truths.push(b - 48);
        } else {
            return Err(PuzzleError::BadChar(b as char));
        }
        i = i + 1;
    }
    proof {
        assert(truths@ =~= parsed_grid(text.spec_bytes()));
    }
    Puzzle::from_grid(truths.as_slice())
}

} // verus!
