//! The constraint counter, the full-board candidate recomputation, the
//! structural validity check and the uniqueness solver. The exact-cover
//! enumeration itself is delegated to an outside dancing-links search; only
//! its classification (no / one / many completions) is this module's logic.
use vstd::prelude::*;

use crate::Puzzle;
use crate::bits::{has_bit, ones, low_bit, popcount};
use crate::errors::PuzzleError;

verus! {

/// Cell `i` contributes an occurrence of value index `val` (0-based): its
/// solved value when only solved cells count, else any live candidate bit.
pub open spec fn contributes(p: Puzzle, only_solved: bool, i: int, val: int) -> bool {
    if only_solved {
        p.solved@[i] && val == low_bit(p.values@[i])
    } else {
        has_bit(p.values@[i], val)
    }
}

/// Occurrences of value index `val` among the cells `0 .. n` lying in zone
/// `z` (1-based) of table `c`. Zone id 0 means "not constrained" and is
/// counted nowhere because `z` ranges over `1 ..= size`.
pub open spec fn count_upto(p: Puzzle, only_solved: bool, c: int, z: int, val: int, n: int) -> nat
    decreases n,
{
    if n <= 0 {
        0
    } else {
        count_upto(p, only_solved, c, z, val, n - 1) + if p.boxes@[c]@[n - 1] as int == z
            && contributes(p, only_solved, n - 1, val) {
            1nat
        } else {
            0nat
        }
    }
}

/// The whole-board occurrence count of `val` in zone `z` of table `c`.
pub open spec fn zone_count(p: Puzzle, only_solved: bool, c: int, z: int, val: int) -> nat {
    count_upto(p, only_solved, c, z, val, (p.size * p.size) as int)
}

/// Count the occurrences of `val` in zone `z` of table `c` over the whole
/// board.
fn count_slot(board: &Puzzle, only_solved: bool, c: usize, z: usize, val: usize) -> (r: u16)
    requires
        board.wf(),
        c < board.boxes@.len(),
        1 <= z <= board.size,
        val < board.size,
    ensures
        r as nat == zone_count(*board, only_solved, c as int, z as int, val as int),
{
    proof {
        crate::lemma_size_bound(board.size as int);
    }
    let n = board.size * board.size;
    let mut r: u16 = 0;
    let mut i: usize = 0;
    while i < n
        invariant
            board.wf(),
            c < board.boxes@.len(),
            1 <= z <= board.size,
            val < board.size,
            n == board.size * board.size,
            n <= 256,
            i <= n,
            r as nat == count_upto(*board, only_solved, c as int, z as int, val as int, i as int),
            r <= i,
        decreases n - i,
    {
        if board.boxes[c][i] == z {
            let hit: bool = if only_solved {
                board.solved[i] && board.values[i].trailing_zeros() as usize == val
            } else {
                (board.values[i] >> (val as u16)) & 1 == 1
            };
            if hit {
                r = r + 1;
            }
        }
        i = i + 1;
    }
    r
}

/// Tally how often each value occurs in each zone of each table: per live
/// candidate of every cell, or, with `only_solved`, once per solved cell.
/// `r[c][z][v]` counts value index `v` in the 1-based zone `z + 1` of table
/// `c`.
pub fn get_counts(board: &Puzzle, only_solved: bool) -> (r: Vec<Vec<Vec<u16>>>)
    requires
        board.wf(),
    ensures
        r@.len() == board.boxes@.len(),
        forall|c: int| 0 <= c < r@.len() ==> (#[trigger] r@[c])@.len() == board.size,
        forall|c: int, z: int|
            0 <= c < r@.len() && 0 <= z < board.size ==> (#[trigger] r@[c]@[z])@.len()
                == board.size,
        forall|c: int, z: int, v: int|
            0 <= c < r@.len() && 0 <= z < board.size && 0 <= v < board.size
                ==> (#[trigger] r@[c]@[z]@[v]) as nat == zone_count(
                *board,
                only_solved,
                c,
                z + 1,
                v,
            ),
{
    let ncons = board.boxes.len();
    let mut counts: Vec<Vec<Vec<u16>>> = Vec::new();
    let mut c: usize = 0;
    while c < ncons
        invariant
            board.wf(),
            ncons == board.boxes@.len(),
            c <= ncons,
            counts@.len() == c,
            forall|c2: int| 0 <= c2 < c ==> (#[trigger] counts@[c2])@.len() == board.size,
            forall|c2: int, z: int|
                0 <= c2 < c && 0 <= z < board.size ==> (#[trigger] counts@[c2]@[z])@.len()
                    == board.size,
            forall|c2: int, z: int, v: int|
                0 <= c2 < c && 0 <= z < board.size && 0 <= v < board.size
                    ==> (#[trigger] counts@[c2]@[z]@[v]) as nat == zone_count(
                    *board,
                    only_solved,
                    c2,
                    z + 1,
                    v,
                ),
        decreases ncons - c,
    {
        let mut table: Vec<Vec<u16>> = Vec::new();
        let mut z: usize = 0;
        while z < board.size
            invariant
                board.wf(),
                ncons == board.boxes@.len(),
                c < ncons,
                z <= board.size,
                table@.len() == z,
                forall|z2: int| 0 <= z2 < z ==> (#[trigger] table@[z2])@.len() == board.size,
                forall|z2: int, v: int|
                    0 <= z2 < z && 0 <= v < board.size ==> (#[trigger] table@[z2]@[v]) as nat
                        == zone_count(*board, only_solved, c as int, z2 + 1, v),
            decreases board.size - z,
        {
            let mut zone: Vec<u16> = Vec::new();
            let mut v: usize = 0;
            while v < board.size
                invariant
                    board.wf(),
                    ncons == board.boxes@.len(),
                    c < ncons,
                    z < board.size,
                    v <= board.size,
                    zone@.len() == v,
                    forall|v2: int|
                        0 <= v2 < v ==> (#[trigger] zone@[v2]) as nat == zone_count(
                            *board,
                            only_solved,
                            c as int,
                            z + 1,
                            v2,
                        ),
                decreases board.size - v,
            {
                zone.push(count_slot(board, only_solved, c, z + 1, v));
                v = v + 1;
            }
            table.push(zone);
            z = z + 1;
        }
        counts.push(table);
        c = c + 1;
    }
    counts
}

/// Value index `val` is open for cell `i`: no zone of `i` (in any table)
/// already holds a solved cell with that value.
pub open spec fn value_open(p: Puzzle, i: int, val: int) -> bool {
    forall|c: int|
        0 <= c < p.boxes@.len() ==> (#[trigger] p.boxes@[c]@[i]) == 0 || zone_count(
            p,
            true,
            c,
            p.boxes@[c]@[i] as int,
            val,
        ) == 0
}

/// Recompute every unsolved cell's full candidate mask from the solved
/// cells alone; solved cells keep their single-bit mask. Previous hand
/// edits of the candidates are not consulted.
pub fn redo_guesses(board: &Puzzle) -> (r: Vec<u16>)
    requires
        board.wf(),
    ensures
        r@.len() == board.size * board.size,
        forall|i: int| 0 <= i < r@.len() && board.solved@[i] ==> (#[trigger] r@[i])
            == board.values@[i],
        forall|i: int, val: int|
            0 <= i < r@.len() && !board.solved@[i] && 0 <= val < board.size
                ==> (#[trigger] has_bit(r@[i], val) <==> value_open(*board, i, val)),
        forall|i: int, b: int|
            0 <= i < r@.len() && board.size <= b < 16 ==> !(#[trigger] has_bit(r@[i], b)),
        forall|i: int| 0 <= i < r@.len() && board.solved@[i] ==> ones(#[trigger] r@[i]) == 1,
{
    proof {
        crate::lemma_size_bound(board.size as int);
    }
    let counts = get_counts(board, true);
    let n = board.size * board.size;
    let ncons = board.boxes.len();
    let mut r: Vec<u16> = Vec::new();
    let mut i: usize = 0;
    while i < n
        invariant
            board.wf(),
            n == board.size * board.size,
            ncons == board.boxes@.len(),
            i <= n,
            r@.len() == i,
            counts@.len() == ncons,
            forall|c: int| 0 <= c < ncons ==> (#[trigger] counts@[c])@.len() == board.size,
            forall|c: int, z: int|
                0 <= c < ncons && 0 <= z < board.size ==> (#[trigger] counts@[c]@[z])@.len()
                    == board.size,
            forall|c: int, z: int, v: int|
                0 <= c < ncons && 0 <= z < board.size && 0 <= v < board.size
                    ==> (#[trigger] counts@[c]@[z]@[v]) as nat == zone_count(
                    *board,
                    true,
                    c,
                    z + 1,
                    v,
                ),
            forall|j: int| 0 <= j < i && board.solved@[j] ==> (#[trigger] r@[j])
                == board.values@[j],
            forall|j: int, val: int|
                0 <= j < i && !board.solved@[j] && 0 <= val < board.size
                    ==> (#[trigger] has_bit(r@[j], val) <==> value_open(*board, j, val)),
            forall|j: int, b: int|
                0 <= j < i && board.size <= b < 16 ==> !(#[trigger] has_bit(r@[j], b)),
            forall|j: int| 0 <= j < i && board.solved@[j] ==> ones(#[trigger] r@[j]) == 1,
        decreases n - i,
    {
        if board.solved[i] {
            r.push(board.values[i]);
        } else {
            let mut m: u16 = 0;
            let mut val: usize = 0;
            proof {
                crate::bits::lemma_zero_mask(0u16);
            }
            while val < board.size
                invariant
                    board.wf(),
                    n == board.size * board.size,
                    ncons == board.boxes@.len(),
                    i < n,
                    val <= board.size,
                    counts@.len() == ncons,
                    forall|c: int| 0 <= c < ncons ==> (#[trigger] counts@[c])@.len() == board.size,
                    forall|c: int, z: int|
                        0 <= c < ncons && 0 <= z < board.size
                            ==> (#[trigger] counts@[c]@[z])@.len() == board.size,
                    forall|c: int, z: int, v: int|
                        0 <= c < ncons && 0 <= z < board.size && 0 <= v < board.size
                            ==> (#[trigger] counts@[c]@[z]@[v]) as nat == zone_count(
                            *board,
                            true,
                            c,
                            z + 1,
                            v,
                        ),
                    forall|b: int|
                        0 <= b < val ==> (#[trigger] has_bit(m, b) <==> value_open(
                            *board,
                            i as int,
                            b,
                        )),
                    forall|b: int| val <= b < 16 ==> !(#[trigger] has_bit(m, b)),
                decreases board.size - val,
            {
                let mut ok = true;
                let mut c: usize = 0;
                while c < ncons
                    invariant
                        board.wf(),
                        n == board.size * board.size,
                        ncons == board.boxes@.len(),
                        i < n,
                        val < board.size,
                        c <= ncons,
                        counts@.len() == ncons,
                        forall|c2: int| 0 <= c2 < ncons ==> (#[trigger] counts@[c2])@.len()
                            == board.size,
                        forall|c2: int, z: int|
                            0 <= c2 < ncons && 0 <= z < board.size
                                ==> (#[trigger] counts@[c2]@[z])@.len() == board.size,
                        forall|c2: int, z: int, v: int|
                            0 <= c2 < ncons && 0 <= z < board.size && 0 <= v < board.size
                                ==> (#[trigger] counts@[c2]@[z]@[v]) as nat == zone_count(
                                *board,
                                true,
                                c2,
                                z + 1,
                                v,
                            ),
                        ok ==> forall|c2: int|
                            0 <= c2 < c ==> (#[trigger] board.boxes@[c2]@[i as int]) == 0
                                || zone_count(
                                *board,
                                true,
                                c2,
                                board.boxes@[c2]@[i as int] as int,
                                val as int,
                            ) == 0,
                        !ok ==> !value_open(*board, i as int, val as int),
                    decreases ncons - c,
                {
                    let zid = board.boxes[c][i];
                    if zid != 0 && counts[c][zid - 1][val] > 0 {
                        ok = false;
                    }
                    c = c + 1;
                }
                let ghost m_old = m;
                if ok {
                    m = m | (1u16 << (val as u16));
                }
                proof {
                    if ok {
                        assert forall|b: int| 0 <= b < 16 implies has_bit(m, b) == (has_bit(
                            m_old,
                            b,
                        ) || b == val as int) by {
                            crate::bits::lemma_bit_or(m_old, 1u16 << (val as u16), b as u16);
                            crate::bits::lemma_bit_single(val as u16, b as u16);
                        }
                    }
                }
                val = val + 1;
            }
            r.push(m);
        }
        i = i + 1;
    }
    r
}

/// How many unsolved cells of box zone `z` (the third table) among cells
/// `0 .. n` would hold value index `val` after a fresh recomputation.
pub open spec fn snyder_upto(p: Puzzle, z: int, val: int, n: int) -> nat
    decreases n,
{
    if n <= 0 {
        0
    } else {
        snyder_upto(p, z, val, n - 1) + if !p.solved@[n - 1] && p.boxes@[2]@[n - 1] as int == z
            && value_open(p, n - 1, val) {
            1nat
        } else {
            0nat
        }
    }
}

/// How many cells of box zone `z` among `0 .. n` are unsolved and hold
/// candidate `val` in the given masks.
pub open spec fn snyder_mask_count(
    solved: Seq<bool>,
    boxt: Seq<usize>,
    updated: Seq<u16>,
    z: int,
    val: int,
    n: int,
) -> nat
    decreases n,
{
    if n <= 0 {
        0
    } else {
        snyder_mask_count(solved, boxt, updated, z, val, n - 1) + if !solved[n - 1] && boxt[n - 1]
            as int == z && has_bit(updated[n - 1], val) {
            1nat
        } else {
            0nat
        }
    }
}

/// Over the freshly recomputed masks, the per-mask count agrees with the
/// per-board snyder count.
pub proof fn lemma_snyder_bridge(p: Puzzle, updated: Seq<u16>, z: int, val: int, n: int)
    requires
        p.boxes@.len() == 3,
        0 <= val,
        n <= p.solved@.len(),
        n <= p.boxes@[2]@.len(),
        n <= updated.len(),
        forall|j: int|
            0 <= j < n && !p.solved@[j] ==> (has_bit(#[trigger] updated[j], val) <==> value_open(
                p,
                j,
                val,
            )),
    ensures
        snyder_mask_count(p.solved@, p.boxes@[2]@, updated, z, val, n) == snyder_upto(
            p,
            z,
            val,
            n,
        ),
    decreases n,
{
    if n > 0 {
        lemma_snyder_bridge(p, updated, z, val, n - 1);
    }
}

/// Count the unsolved cells of box zone `z` whose mask holds candidate
/// `val`.
pub fn snyder_slot(
    solved: &Vec<bool>,
    boxt: &Vec<usize>,
    updated: &Vec<u16>,
    z: usize,
    val: usize,
) -> (r: u16)
    requires
        solved@.len() == updated@.len(),
        boxt@.len() == updated@.len(),
        updated@.len() <= 256,
        val < 16,
    ensures
        r as nat == snyder_mask_count(
            solved@,
            boxt@,
            updated@,
            z as int,
            val as int,
            updated@.len() as int,
        ),
{
    let n = updated.len();
    let mut r: u16 = 0;
    let mut i: usize = 0;
    while i < n
        invariant
            solved@.len() == n,
            boxt@.len() == n,
            updated@.len() == n,
            n <= 256,
            val < 16,
            i <= n,
            r as nat == snyder_mask_count(solved@, boxt@, updated@, z as int, val as int, i as int),
            r <= i,
        decreases n - i,
    {
        proof {
            crate::bits::lemma_bit01(updated@[i as int], val as u16);
        }
        if !solved[i] && boxt[i] == z && (updated[i] >> (val as u16)) & 1 == 1 {
            r = r + 1;
        }
        i = i + 1;
    }
    r
}

/// The `OnlyRemove` auto-pencil outcome: each unsolved cell's new mask is
/// its old mask intersected with the freshly recomputed openness; solved
/// cells keep theirs.
pub open spec fn intersected(p: Puzzle, vals: Seq<u16>) -> bool {
    forall|i: int, val: int|
        0 <= i < p.values@.len() && !p.solved@[i] && 0 <= val < p.size
            ==> (#[trigger] has_bit(vals[i], val) <==> has_bit(p.values@[i], val) && value_open(
            p,
            i,
            val,
        ))
}

/// The `Snyder` auto-pencil outcome: an unsolved cell keeps exactly the
/// open values that live in at most two unsolved cells of its box; a cell
/// outside every box is cleared.
pub open spec fn snyder_applied(p: Puzzle, vals: Seq<u16>) -> bool {
    &&& forall|i: int, val: int|
        0 <= i < p.values@.len() && !p.solved@[i] && p.boxes@[2]@[i] != 0 && 0 <= val < p.size
            ==> (#[trigger] has_bit(vals[i], val) <==> value_open(p, i, val) && 1 <= snyder_upto(
            p,
            p.boxes@[2]@[i] as int,
            val,
            p.values@.len() as int,
        ) <= 2)
    &&& forall|i: int|
        0 <= i < p.values@.len() && !p.solved@[i] && p.boxes@[2]@[i] == 0
            ==> (#[trigger] vals[i]) == 0
}

/// Cells `i` and `j` of a square board of edge `size` share a standard row,
/// column or box.
pub open spec fn std_same_zone(size: int, i: int, j: int) -> bool {
    ||| i / size == j / size
    ||| i % size == j % size
    ||| crate::box_zone(size, i) == crate::box_zone(size, j)
}

/// No two distinct cells of the same standard zone hold the same nonzero
/// given: the precondition under which the exact-cover search is known not
/// to fail.
pub open spec fn givens_consistent(k: Seq<usize>, size: int) -> bool {
    forall|i: int, j: int|
        0 <= i < j < k.len() && #[trigger] k[i] != 0 && k[i] == #[trigger] k[j]
            ==> !std_same_zone(size, i, j)
}

/// The fixed-value seed handed to the exact-cover search: the 1-based value
/// of every single-candidate cell, 0 elsewhere.
pub open spec fn knowns_of(p: Puzzle) -> Seq<usize> {
    Seq::new((p.size * p.size) as nat, |i: int|
        if ones(p.values@[i]) == 1 {
            (low_bit(p.values@[i]) + 1) as usize
        } else {
            0usize
        }
    )
}

/// Every completion that the exact-cover search enumerates for a
/// fixed-value seed; a function of the seed alone.
pub uninterp spec fn dlx_solutions(knowns: Seq<usize>) -> Seq<Seq<usize>>;

/// Relies on dlx_rs::sudoku::Sudoku (new_from_input and its solution
/// iterator): it enumerates all completions of a partial Latin square whose
/// seed has length edge^2 for an edge in {4, 9, 16}; each yielded grid is a
/// flat, complete solution with values 1 ..= edge that keeps every nonzero
/// seed entry and never repeats a value inside a standard row, column or
/// box (each of those constraints is covered exactly once). Its constructor
/// panics on a wrong-length seed, a seed value above the edge, or two equal
/// givens sharing a zone; the `requires` leaves all three out.
#[verifier::external_body]
fn dlx_enumerate(knowns: &Vec<usize>, size: usize) -> (r: Vec<Vec<usize>>)
    requires
        size == 4 || size == 9 || size == 16,
        knowns@.len() == size * size,
        forall|i: int| 0 <= i < knowns@.len() ==> #[trigger] knowns@[i] <= size,
        givens_consistent(knowns@, size as int),
    ensures
        r.deep_view() == dlx_solutions(knowns@),
        forall|s: int|
            0 <= s < r.deep_view().len() ==> (#[trigger] r.deep_view()[s]).len() == knowns@.len(),
        forall|s: int, i: int|
            0 <= s < r.deep_view().len() && 0 <= i < knowns@.len()
                ==> 1 <= (#[trigger] r.deep_view()[s][i]) <= size,
        forall|s: int, i: int|
            0 <= s < r.deep_view().len() && 0 <= i < knowns@.len() && knowns@[i] != 0
                ==> (#[trigger] r.deep_view()[s][i]) == knowns@[i],
        forall|s: int, i: int, j: int|
            0 <= s < r.deep_view().len() && 0 <= i < j < knowns@.len() && std_same_zone(
                size as int,
                i,
                j,
            ) ==> (#[trigger] r.deep_view()[s][i]) != (#[trigger] r.deep_view()[s][j]),
{
    let sudoku = dlx_rs::sudoku::Sudoku::new_from_input(knowns.as_slice());
    sudoku.collect()
}

/// The fixed-value seed of a raw grid: its entries widened, since each
/// nonzero given becomes a single-candidate cell.
pub open spec fn grid_knowns(g: Seq<u8>) -> Seq<usize> {
    Seq::new(g.len(), |i: int| g[i] as usize)
}

/// The outcome `solve` owes for a board: the error rejecting it, or the
/// sole completion of its single-valued cells.
pub open spec fn solve_outcome(p: Puzzle, r: Result<Vec<u8>, PuzzleError>) -> bool {
    let k = knowns_of(p);
    let s = p.size as int;
    if p.boxes@.len() != 3 {
        r == Err::<Vec<u8>, PuzzleError>(PuzzleError::UnsupportedZones)
    } else if s != 4 && s != 9 && s != 16 {
        r == Err::<Vec<u8>, PuzzleError>(PuzzleError::UnsupportedSize)
    } else if !givens_consistent(k, s) {
        r == Err::<Vec<u8>, PuzzleError>(PuzzleError::NoSolution)
    } else if dlx_solutions(k).len() == 0 {
        r == Err::<Vec<u8>, PuzzleError>(PuzzleError::NoSolution)
    } else if dlx_solutions(k).len() > 1 {
        r == Err::<Vec<u8>, PuzzleError>(PuzzleError::MultipleSolutions)
    } else {
        &&& r is Ok
        &&& r->Ok_0@.len() == k.len()
        &&& forall|i: int| 0 <= i < k.len() ==> (#[trigger] r->Ok_0@[i]) as int == dlx_solutions(
            k,
        )[0][i] as int
    }
}

/// Classify the board's single-valued cells through the exact-cover search:
/// an error when the board shape is unsupported, when no completion exists
/// (conflicting givens included), or when more than one does; otherwise the
/// unique completion as a flat grid of 1-based values.
pub fn solve(board: &Puzzle) -> (r: Result<Vec<u8>, PuzzleError>)
    requires
        board.wf(),
    ensures
        solve_outcome(*board, r),
        r is Ok ==> forall|i: int|
            0 <= i < r->Ok_0@.len() ==> 1 <= (#[trigger] r->Ok_0@[i]) as int <= board.size as int,
        r is Ok ==> forall|i: int|
            0 <= i < r->Ok_0@.len() && knowns_of(*board)[i] != 0 ==> (#[trigger] r->Ok_0@[i]) as int
                == knowns_of(*board)[i] as int,
        r is Ok ==> forall|i: int, j: int|
            0 <= i < j < r->Ok_0@.len() && std_same_zone(board.size as int, i, j)
                ==> (#[trigger] r->Ok_0@[i]) != (#[trigger] r->Ok_0@[j]),
{
    proof {
        crate::lemma_size_bound(board.size as int);
    }
    if board.boxes.len() != 3 {
        return Err(PuzzleError::UnsupportedZones);
    }
    if board.size != 4 && board.size != 9 && board.size != 16 {
        return Err(PuzzleError::UnsupportedSize);
    }
    let n = board.size * board.size;
    let mut knowns: Vec<usize> = Vec::new();
    let mut i: usize = 0;
    while i < n
        invariant
            board.wf(),
            n == board.size * board.size,
            i <= n,
            knowns@.len() == i,
            forall|j: int| 0 <= j < i ==> #[trigger] knowns@[j] == knowns_of(*board)[j],
            forall|j: int| 0 <= j < i ==> #[trigger] knowns@[j] <= board.size,
        decreases n - i,
    {
        if popcount(board.values[i]) == 1 {
            proof {
                crate::bits::lemma_ones_one(board.values@[i as int]);
                crate::bits::lemma_low_bit(board.values@[i as int]);
            }
            let tz = board.values[i].trailing_zeros();
            knowns.push(tz as usize + 1);
        } else {
            knowns.push(0);
        }
        i = i + 1;
    }
    proof {
        assert(knowns@ =~= knowns_of(*board));
    }
    if find_conflict(&knowns, board.size).is_some() {
        return Err(PuzzleError::NoSolution);
    }
    let solutions = dlx_enumerate(&knowns, board.size);
    if solutions.len() == 0 {
        return Err(PuzzleError::NoSolution);
    }
    if solutions.len() > 1 {
        return Err(PuzzleError::MultipleSolutions);
    }
    let first = &solutions[0];
    proof {
        assert(first.deep_view() == dlx_solutions(knowns@)[0]);
        assert(first.deep_view() =~= first@);
    }
    let mut out: Vec<u8> = Vec::new();
    let mut i: usize = 0;
    while i < first.len()
        invariant
            first@.len() == dlx_solutions(knowns_of(*board))[0].len(),
            forall|j: int| 0 <= j < first@.len() ==> #[trigger] first@[j] as int == dlx_solutions(
                knowns_of(*board),
            )[0][j] as int,
            forall|j: int| 0 <= j < first@.len() ==> 1 <= #[trigger] first@[j] <= board.size,
            forall|j: int|
                0 <= j < first@.len() && knowns_of(*board)[j] != 0 ==> #[trigger] first@[j]
                    == knowns_of(*board)[j],
            forall|j: int, j2: int|
                0 <= j < j2 < first@.len() && std_same_zone(board.size as int, j, j2)
                    ==> #[trigger] first@[j] != #[trigger] first@[j2],
            board.size <= 16,
            i <= first@.len(),
            out@.len() == i,
            forall|j: int| 0 <= j < i ==> (#[trigger] out@[j]) as int == first@[j] as int,
        decreases first@.len() - i,
    {
        out.push(first[i] as u8);
        i = i + 1;
    }
    proof {
        assert forall|j: int, j2: int|
            0 <= j < j2 < out@.len() && std_same_zone(board.size as int, j, j2) implies out@[j]
            != out@[j2] by {
            assert(first@[j] != first@[j2]);
        }
    }
    Ok(out)
}

/// Scan all cell pairs for two equal nonzero knowns sharing a standard
/// zone; the first such pair in scan order, or none.
fn find_conflict(knowns: &Vec<usize>, size: usize) -> (r: Option<(usize, usize)>)
    requires
        size == 4 || size == 9 || size == 16,
        knowns@.len() == size * size,
    ensures
        r is None ==> givens_consistent(knowns@, size as int),
        r is Some ==> !givens_consistent(knowns@, size as int),
{
    let n = knowns.len();
    let mut i: usize = 0;
    while i < n
        invariant
            size == 4 || size == 9 || size == 16,
            n == knowns@.len(),
            n == size * size,
            i <= n,
            forall|a: int, b: int|
                0 <= a < i && a < b < n && #[trigger] knowns@[a] != 0 && knowns@[a]
                    == #[trigger] knowns@[b] ==> !std_same_zone(size as int, a, b),
        decreases n - i,
    {
        if knowns[i] != 0 {
            let mut j: usize = i + 1;
            while j < n
                invariant
                    size == 4 || size == 9 || size == 16,
                    n == knowns@.len(),
                    n == size * size,
                    i < j,
                    i < n,
                    j <= n,
                    knowns@[i as int] != 0,
                    forall|b: int|
                        i < b < j && knowns@[i as int] == #[trigger] knowns@[b]
                            ==> !std_same_zone(size as int, i as int, b),
                decreases n - j,
            {
                if knowns[j] == knowns[i] && same_zone(size, i, j) {
                    return Some((i, j));
                }
                j = j + 1;
            }
        }
        i = i + 1;
    }
    None
}

/// Whether two cells share a standard row, column or box.
fn same_zone(size: usize, i: usize, j: usize) -> (r: bool)
    requires
        size == 4 || size == 9 || size == 16,
        i < size * size,
        j < size * size,
    ensures
        r == std_same_zone(size as int, i as int, j as int),
{
    let bs: usize = if size == 4 {
        2
    } else if size == 9 {
        3
    } else {
        4
    };
    let ri = i / size;
    let ci = i % size;
    let rj = j / size;
    let cj = j % size;
    if ri == rj {
        return true;
    }
    if ci == cj {
        return true;
    }
    proof {
        assert((i as int) / (size as int) < size as int) by (nonlinear_arith)
            requires
                i < size * size && size >= 1,
        ;
        assert((j as int) / (size as int) < size as int) by (nonlinear_arith)
            requires
                j < size * size && size >= 1,
        ;
        assert(bs as int * ((ri as int) / (bs as int)) <= ri as int && bs as int * ((rj as int)
            / (bs as int)) <= rj as int) by (nonlinear_arith)
            requires
                bs as int >= 1 && ri as int >= 0 && rj as int >= 0,
        ;
    }
    bs * (ri / bs) + ci / bs == bs * (rj / bs) + cj / bs
}

/// Whether the board is completely filled (every cell holds at least one
/// candidate) with no value repeated inside any zone among solved cells.
pub open spec fn structurally_valid(p: Puzzle) -> bool {
    &&& forall|i: int| 0 <= i < p.size * p.size ==> (#[trigger] p.values@[i]) != 0
    &&& forall|c: int, z: int, v: int|
        0 <= c < p.boxes@.len() && 1 <= z <= p.size && 0 <= v < p.size
            ==> #[trigger] zone_count(p, true, c, z, v) <= 1
}

/// Check that every cell holds a value or candidates and no zone repeats a
/// solved value.
pub fn is_valid(board: &Puzzle) -> (r: bool)
    requires
        board.wf(),
    ensures
        r == structurally_valid(*board),
{
    proof {
        crate::lemma_size_bound(board.size as int);
    }
    let n = board.size * board.size;
    let mut i: usize = 0;
    while i < n
        invariant
            board.wf(),
            n == board.size * board.size,
            i <= n,
            forall|j: int| 0 <= j < i ==> (#[trigger] board.values@[j]) != 0,
        decreases n - i,
    {
        if board.values[i] == 0 {
            return false;
        }
        i = i + 1;
    }
    let counts = get_counts(board, true);
    let ncons = board.boxes.len();
    let mut c: usize = 0;
    while c < ncons
        invariant
            board.wf(),
            n == board.size * board.size,
            ncons == board.boxes@.len(),
            c <= ncons,
            counts@.len() == ncons,
            forall|j: int| 0 <= j < n ==> (#[trigger] board.values@[j]) != 0,
            forall|c2: int| 0 <= c2 < ncons ==> (#[trigger] counts@[c2])@.len() == board.size,
            forall|c2: int, z: int|
                0 <= c2 < ncons && 0 <= z < board.size ==> (#[trigger] counts@[c2]@[z])@.len()
                    == board.size,
            forall|c2: int, z: int, v: int|
                0 <= c2 < ncons && 0 <= z < board.size && 0 <= v < board.size
                    ==> (#[trigger] counts@[c2]@[z]@[v]) as nat == zone_count(
                    *board,
                    true,
                    c2,
                    z + 1,
                    v,
                ),
            forall|c2: int, z: int, v: int|
                0 <= c2 < c && 1 <= z <= board.size && 0 <= v < board.size
                    ==> #[trigger] zone_count(*board, true, c2, z, v) <= 1,
        decreases ncons - c,
    {
        let mut z: usize = 0;
        while z < board.size
            invariant
                board.wf(),
                ncons == board.boxes@.len(),
                c < ncons,
                z <= board.size,
                counts@.len() == ncons,
                forall|c2: int| 0 <= c2 < ncons ==> (#[trigger] counts@[c2])@.len() == board.size,
                forall|c2: int, z2: int|
                    0 <= c2 < ncons && 0 <= z2 < board.size
                        ==> (#[trigger] counts@[c2]@[z2])@.len() == board.size,
                forall|c2: int, z2: int, v: int|
                    0 <= c2 < ncons && 0 <= z2 < board.size && 0 <= v < board.size
                        ==> (#[trigger] counts@[c2]@[z2]@[v]) as nat == zone_count(
                        *board,
                        true,
                        c2,
                        z2 + 1,
                        v,
                    ),
                forall|z2: int, v: int|
                    1 <= z2 <= z && 0 <= v < board.size ==> #[trigger] zone_count(
                        *board,
                        true,
                        c as int,
                        z2,
                        v,
                    ) <= 1,
            decreases board.size - z,
        {
            let mut v: usize = 0;
            while v < board.size
                invariant
                    board.wf(),
                    ncons == board.boxes@.len(),
                    c < ncons,
                    z < board.size,
                    v <= board.size,
                    counts@.len() == ncons,
                    forall|c2: int| 0 <= c2 < ncons ==> (#[trigger] counts@[c2])@.len()
                        == board.size,
                    forall|c2: int, z2: int|
                        0 <= c2 < ncons && 0 <= z2 < board.size
                            ==> (#[trigger] counts@[c2]@[z2])@.len() == board.size,
                    forall|c2: int, z2: int, v2: int|
                        0 <= c2 < ncons && 0 <= z2 < board.size && 0 <= v2 < board.size
                            ==> (#[trigger] counts@[c2]@[z2]@[v2]) as nat == zone_count(
                            *board,
                            true,
                            c2,
                            z2 + 1,
                            v2,
                        ),
                    forall|v2: int|
                        0 <= v2 < v ==> #[trigger] zone_count(
                            *board,
                            true,
                            c as int,
                            z + 1,
                            v2,
                        ) <= 1,
                decreases board.size - v,
            {
                if counts[c][z][v] > 1 {
                    return false;
                }
                v = v + 1;
            }
            z = z + 1;
        }
        c = c + 1;
    }
    true
}

} // verus!
