//! The hidden-single strategy: a value that occurs exactly once among the
//! live candidates of a whole zone must go into the cell that holds it.
use vstd::prelude::*;

use crate::Puzzle;
use crate::bits::{has_bit, ones};
use crate::solver::{get_counts, zone_count};
use crate::strategies::{Solution, Strategy};

verus! {

/// A hidden single fires at `(i, c, val)`: cell `i` still has at least two
/// candidates, lies in a real zone of table `c`, holds candidate `val`, and
/// that zone's candidate count of `val` is exactly one.
pub open spec fn hidden_at(p: Puzzle, i: int, c: int, val: int) -> bool {
    &&& ones(p.values@[i]) >= 2
    &&& p.boxes@[c]@[i] != 0
    &&& has_bit(p.values@[i], val)
    &&& zone_count(p, false, c, p.boxes@[c]@[i] as int, val) == 1
}

/// `(i2, c2, val2)` is scanned before `(i, c, val)`.
pub open spec fn scanned_before(i: int, c: int, val: int, i2: int, c2: int, val2: int) -> bool {
    i2 < i || (i2 == i && (c2 < c || (c2 == c && val2 < val)))
}

/// Find the first hidden single in cell / table / value scan order and
/// propose fixing its cell to that value; none when no zone anywhere pins a
/// value to a single cell.
pub fn hidden_single(board: &Puzzle) -> (r: Option<Solution>)
    requires
        board.wf(),
    ensures
        r is None ==> forall|i: int, c: int, val: int|
            0 <= i < board.values@.len() && 0 <= c < board.boxes@.len() && 0 <= val < board.size
                ==> !hidden_at(*board, i, c, val),
        r matches Some(sol) ==> {
            &&& sol.strategy == Strategy::HiddenSingle
            &&& sol.guide_cells@.len() == 0
            &&& sol.values@.len() == 1
            &&& exists|i: int, c: int, val: int|
                {
                    &&& 0 <= i < board.values@.len()
                    &&& 0 <= c < board.boxes@.len()
                    &&& 0 <= val < board.size
                    &&& #[trigger] hidden_at(*board, i, c, val)
                    &&& sol.values@[0].0 as int == i
                    &&& sol.values@[0].1 == 1u16 << (val as u16)
                    &&& forall|i2: int, c2: int, val2: int|
                        0 <= i2 < board.values@.len() && 0 <= c2 < board.boxes@.len() && 0 <= val2
                            < board.size && scanned_before(i, c, val, i2, c2, val2) ==> !hidden_at(
                            *board,
                            i2,
                            c2,
                            val2,
                        )
                }
        },
{
    let counts = get_counts(board, false);
    let n = board.values.len();
    let ncons = board.boxes.len();
    let mut i: usize = 0;
    while i < n
        invariant
            board.wf(),
            n == board.values@.len(),
            n == board.size * board.size,
            ncons == board.boxes@.len(),
            i <= n,
            counts@.len() == ncons,
            forall|c2: int| 0 <= c2 < ncons ==> (#[trigger] counts@[c2])@.len() == board.size,
            forall|c2: int, z: int|
                0 <= c2 < ncons && 0 <= z < board.size ==> (#[trigger] counts@[c2]@[z])@.len()
                    == board.size,
            forall|c2: int, z: int, v: int|
                0 <= c2 < ncons && 0 <= z < board.size && 0 <= v < board.size
                    ==> (#[trigger] counts@[c2]@[z]@[v]) as nat == zone_count(
                    *board,
                    false,
                    c2,
                    z + 1,
                    v,
                ),
            forall|i2: int, c2: int, val2: int|
                0 <= i2 < i && 0 <= c2 < ncons && 0 <= val2 < board.size ==> !hidden_at(
                    *board,
                    i2,
                    c2,
                    val2,
                ),
        decreases n - i,
    {
        proof {
            crate::bits::lemma_num_set_bound(board.values@[i as int], 16);
        }
        let n_guesses = crate::bits::popcount(board.values[i]);
        if n_guesses <= 1 {
            proof {
                assert forall|c2: int, val2: int|
                    0 <= c2 < ncons && 0 <= val2 < board.size implies !hidden_at(
                    *board,
                    i as int,
                    c2,
                    val2,
                ) by {}
            }
            i = i + 1;
            continue ;
        }
        let mut c: usize = 0;
        while c < ncons
            invariant
                board.wf(),
                n == board.values@.len(),
                n == board.size * board.size,
                ncons == board.boxes@.len(),
                i < n,
                c <= ncons,
                ones(board.values@[i as int]) >= 2,
                counts@.len() == ncons,
                forall|c2: int| 0 <= c2 < ncons ==> (#[trigger] counts@[c2])@.len() == board.size,
                forall|c2: int, z: int|
                    0 <= c2 < ncons && 0 <= z < board.size ==> (#[trigger] counts@[c2]@[z])@.len()
                        == board.size,
                forall|c2: int, z: int, v: int|
                    0 <= c2 < ncons && 0 <= z < board.size && 0 <= v < board.size
                        ==> (#[trigger] counts@[c2]@[z]@[v]) as nat == zone_count(
                        *board,
                        false,
                        c2,
                        z + 1,
                        v,
                    ),
                forall|i2: int, c2: int, val2: int|
                    0 <= i2 < i && 0 <= c2 < ncons && 0 <= val2 < board.size ==> !hidden_at(
                        *board,
                        i2,
                        c2,
                        val2,
                    ),
                forall|c2: int, val2: int|
                    0 <= c2 < c && 0 <= val2 < board.size ==> !hidden_at(
                        *board,
                        i as int,
                        c2,
                        val2,
                    ),
            decreases ncons - c,
        {
            let zid = board.boxes[c][i];
            if zid == 0 {
                c = c + 1;
                continue ;
            }
            let mut val: usize = 0;
            while val < board.size
                invariant
                    board.wf(),
                    n == board.values@.len(),
                    n == board.size * board.size,
                    ncons == board.boxes@.len(),
                    i < n,
                    c < ncons,
                    val <= board.size,
                    zid == board.boxes@[c as int]@[i as int],
                    1 <= zid <= board.size,
                    ones(board.values@[i as int]) >= 2,
                    counts@.len() == ncons,
                    forall|c2: int| 0 <= c2 < ncons ==> (#[trigger] counts@[c2])@.len()
                        == board.size,
                    forall|c2: int, z: int|
                        0 <= c2 < ncons && 0 <= z < board.size
                            ==> (#[trigger] counts@[c2]@[z])@.len() == board.size,
                    forall|c2: int, z: int, v: int|
                        0 <= c2 < ncons && 0 <= z < board.size && 0 <= v < board.size
                            ==> (#[trigger] counts@[c2]@[z]@[v]) as nat == zone_count(
                            *board,
                            false,
                            c2,
                            z + 1,
                            v,
                        ),
                    forall|i2: int, c2: int, val2: int|
                        0 <= i2 < i && 0 <= c2 < ncons && 0 <= val2 < board.size ==> !hidden_at(
                            *board,
                            i2,
                            c2,
                            val2,
                        ),
                    forall|c2: int, val2: int|
                        0 <= c2 < c && 0 <= val2 < board.size ==> !hidden_at(
                            *board,
                            i as int,
                            c2,
                            val2,
                        ),
                    forall|val2: int|
                        0 <= val2 < val ==> !hidden_at(*board, i as int, c as int, val2),
                decreases board.size - val,
            {
                proof {
                    crate::bits::lemma_bit01(board.values@[i as int], val as u16);
                }
                if (board.values[i] >> (val as u16)) & 1 == 0 {
                    val = val + 1;
                    continue ;
                }
                if counts[c][zid - 1][val] == 1 {
                    proof {
                        assert(hidden_at(*board, i as int, c as int, val as int));
                    }
                    let mut cells: Vec<(usize, u16)> = Vec::new();
                    cells.push((i, 1u16 << (val as u16)));
                    return Some(
                        Solution {
                            values: cells,
                            strategy: Strategy::HiddenSingle,
                            guide_cells: Vec::new(),
                        },
                    );
                }
                val = val + 1;
            }
            c = c + 1;
        }
        i = i + 1;
    }
    None
}

} // verus!
