//! The backtracking seed: pick the unsolved cell with the fewest live
//! candidates and propose fixing it to its lowest one.
use vstd::prelude::*;

use crate::Puzzle;
use crate::bits::{ones, low_bit, popcount};
use crate::strategies::{Solution, Strategy};

verus! {

/// The only inputs on which the candidate scan cannot deliver: a cell with
/// an empty mask while no cell anywhere holds exactly two candidates.
pub open spec fn guess_stuck(p: Puzzle) -> bool {
    &&& exists|i: int| 0 <= i < p.values@.len() && p.values@[i] == 0
    &&& forall|j: int| 0 <= j < p.values@.len() ==> ones(#[trigger] p.values@[j]) != 2
}

/// Propose fixing the unsolved cell with the fewest live candidates to its
/// lowest candidate; a cell with exactly two candidates short-circuits the
/// scan. Returns none exactly when every cell holds a single candidate.
pub fn guess(board: &Puzzle) -> (r: Option<Solution>)
    requires
        board.wf(),
        !guess_stuck(*board),
    ensures
        r is None <==> (forall|i: int|
            0 <= i < board.values@.len() ==> ones(#[trigger] board.values@[i]) == 1),
        r matches Some(sol) ==> {
            &&& sol.strategy == Strategy::Guess
            &&& sol.guide_cells@.len() == 0
            &&& sol.values@.len() == 1
            &&& 0 <= sol.values@[0].0 < board.values@.len()
            &&& ones(board.values@[sol.values@[0].0 as int]) >= 2
            &&& sol.values@[0].1 == 1u16 << (low_bit(board.values@[sol.values@[0].0 as int]) as u16)
            &&& (ones(board.values@[sol.values@[0].0 as int]) == 2 || forall|j: int|
                0 <= j < board.values@.len() ==> ones(#[trigger] board.values@[j]) == 1 || ones(
                    board.values@[j],
                ) >= ones(board.values@[sol.values@[0].0 as int]))
            &&& (ones(board.values@[sol.values@[0].0 as int]) == 2 ==> forall|j: int|
                0 <= j < sol.values@[0].0 as int ==> ones(#[trigger] board.values@[j]) != 2)
            &&& (ones(board.values@[sol.values@[0].0 as int]) != 2 ==> {
                &&& forall|j: int| 0 <= j < board.values@.len() ==> ones(
                    #[trigger] board.values@[j],
                ) != 2
                &&& forall|j: int|
                    0 <= j < sol.values@[0].0 as int ==> ones(#[trigger] board.values@[j]) == 1
                        || ones(board.values@[j]) > ones(board.values@[sol.values@[0].0 as int])
            })
        },
{
    let n = board.values.len();
    let sentinel: u32 = board.size as u32 + 1;
    let mut easiest_cell: usize = 0;
    let mut n_values_min: u32 = sentinel;
    let mut i: usize = 0;
    while i < n
        invariant
            board.wf(),
            n == board.values@.len(),
            sentinel == board.size + 1,
            i <= n,
            n_values_min <= sentinel,
            forall|j: int| 0 <= j < i ==> ones(#[trigger] board.values@[j]) != 2,
            n_values_min == sentinel ==> forall|j: int|
                0 <= j < i ==> ones(#[trigger] board.values@[j]) == 1,
            n_values_min < sentinel ==> {
                &&& easiest_cell < i
                &&& ones(board.values@[easiest_cell as int]) == n_values_min
                &&& n_values_min != 1
                &&& n_values_min != 2
                &&& forall|j: int|
                    0 <= j < i ==> ones(#[trigger] board.values@[j]) == 1 || ones(
                        board.values@[j],
                    ) >= n_values_min
                &&& forall|j: int|
                    0 <= j < easiest_cell ==> ones(#[trigger] board.values@[j]) == 1 || ones(
                        board.values@[j],
                    ) > n_values_min
            },
        decreases n - i,
    {
        proof {
            crate::bits::lemma_num_set_split(board.values@[i as int], board.size as int, 16);
            crate::bits::lemma_num_set_bound(board.values@[i as int], board.size as int);
        }
        let n_values = popcount(board.values[i]);
        if n_values == 1 {
            i = i + 1;
            continue ;
        }
        if n_values == 2 {
            proof {
                crate::bits::lemma_num_set_zero(16);
                crate::bits::lemma_low_bit(board.values@[i as int]);
            }
            let tz = board.values[i].trailing_zeros();
            let mut cells: Vec<(usize, u16)> = Vec::new();
            cells.push((i, 1u16 << (tz as u16)));
            return Some(
                Solution { values: cells, strategy: Strategy::Guess, guide_cells: Vec::new() },
            );
        }
        if n_values < n_values_min {
            easiest_cell = i;
            n_values_min = n_values;
        }
        i = i + 1;
    }
    if n_values_min == sentinel {
        return None;
    }
    proof {
        crate::bits::lemma_num_set_zero(16);
        if n_values_min == 0 {
            assert(board.values@[easiest_cell as int] == 0) by {
                crate::bits::lemma_low_bit(board.values@[easiest_cell as int]);
                if board.values@[easiest_cell as int] != 0 {
                    crate::bits::lemma_num_set_ge_one(
                        board.values@[easiest_cell as int],
                        low_bit(board.values@[easiest_cell as int]),
                        16,
                    );
                }
            }
            assert(false);
        }
        crate::bits::lemma_low_bit(board.values@[easiest_cell as int]);
    }
    let tz = board.values[easiest_cell].trailing_zeros();
    let mut cells: Vec<(usize, u16)> = Vec::new();
    cells.push((easiest_cell, 1u16 << (tz as u16)));
    Some(Solution { values: cells, strategy: Strategy::Guess, guide_cells: Vec::new() })
}

} // verus!
