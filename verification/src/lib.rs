//! A constraint-propagation and uniqueness-verification engine for
//! generalized Latin-square puzzles: classic 9x9 Sudoku and the 4/6/8/16
//! variants. The engine keeps per-cell candidate bit masks, zone-membership
//! tables (rows, columns, boxes), fixed/solved flags, the ground-truth
//! solution and a linear undo history, and offers deduction strategies and a
//! uniqueness solver built on an exact-cover search.
use vstd::prelude::*;

pub mod bits;
pub mod errors;
pub mod guess;
pub mod hidden_single;
pub mod io;
pub mod laws;
pub mod solver;
pub mod strategies;

verus! {

use crate::bits::{has_bit, ones, low_bit};

/// High bit of the per-cell flag byte: the cell is a fixed given.
pub const FIXED_MASK: u8 = 0b10000000;

/// Low bits of the per-cell flag byte: a display color tag.
pub const COLOR_MASK: u8 = 0b00111111;

/// The supported board edge lengths: perfect squares 4, 9, 16 and the
/// special-cased 6 and 8 (boxes of 2 rows).
pub open spec fn valid_size(n: int) -> bool {
    n == 4 || n == 6 || n == 8 || n == 9 || n == 16
}

/// A grid export/import buffer must be `n * n` cells for a valid size `n`.
pub open spec fn valid_grid_len(n: int) -> bool {
    n == 16 || n == 36 || n == 64 || n == 81 || n == 256
}

/// The auto-pencil policies: leave the candidates alone, replace them with
/// the fresh recomputation, only intersect with it, or keep the snyder
/// subset (values live in at most two cells of their box).
#[derive(Clone, Copy, Debug, PartialEq, Eq, Structural)]
pub enum AutoPencil {
    Never,
    OnlyRemove,
    Always,
    Snyder,
}

/// The board state: candidate masks, zone tables, flags, ground truth and
/// the undo history.
#[derive(Clone, Debug)]
pub struct Puzzle {
    /// Candidate mask of each cell; a solved cell holds a single-bit mask.
    pub values: Vec<u16>,
    /// Edge length of the board.
    pub size: usize,
    /// Zone-membership tables (row, column, box): cell index to 1-based zone
    /// id, 0 meaning "not constrained" by that table.
    pub boxes: Vec<Vec<usize>>,
    /// Per-cell flag byte: bit 7 fixed, bits 0..6 a display color.
    pub types: Vec<u8>,
    /// Ground-truth value of each cell (1-based, 0 = unknown).
    pub truths: Vec<u8>,
    /// Whether each cell's value is final.
    pub solved: Vec<bool>,
    /// Undo stack: cell index, prior candidate mask, prior solved flag.
    pub history: Vec<(usize, u16, bool)>,
}

impl Puzzle {
    /// Well-formedness: all tables sized to the board, candidate bits within
    /// the mask width, solved cells single-valued, and history entries that
    /// restore well-formed states.
    pub open spec fn wf(self) -> bool {
        &&& valid_size(self.size as int)
        &&& self.values@.len() == self.size * self.size
        &&& self.types@.len() == self.size * self.size
        &&& self.truths@.len() == self.size * self.size
        &&& self.solved@.len() == self.size * self.size
        &&& forall|c: int| 0 <= c < self.boxes@.len() ==> (#[trigger] self.boxes@[c])@.len()
            == self.size * self.size
        &&& forall|c: int, i: int|
            0 <= c < self.boxes@.len() && 0 <= i < self.size * self.size
                ==> (#[trigger] self.boxes@[c]@[i]) <= self.size
        &&& forall|i: int, b: int|
            0 <= i < self.values@.len() && self.size <= b < 16
                ==> !(#[trigger] has_bit(self.values@[i], b))
        &&& forall|i: int| 0 <= i < self.values@.len() && self.solved@[i]
            ==> ones(#[trigger] self.values@[i]) == 1
        &&& forall|i: int| 0 <= i < self.truths@.len()
            ==> (#[trigger] self.truths@[i]) as int <= self.size as int
        &&& forall|k: int| 0 <= k < self.history@.len()
            ==> (#[trigger] self.history@[k]).0 < self.size * self.size
        &&& forall|k: int, b: int|
            0 <= k < self.history@.len() && self.size <= b < 16
                ==> !(#[trigger] has_bit(self.history@[k].1, b))
        &&& forall|k: int| 0 <= k < self.history@.len() && (#[trigger] self.history@[k]).2
            ==> ones(self.history@[k].1) == 1
    }

    /// The exported grid: the 1-based value of each solved cell, 0 elsewhere.
    pub open spec fn grid_of(self) -> Seq<u8> {
        Seq::new((self.size * self.size) as nat, |i: int|
            if self.solved@[i] {
                (low_bit(self.values@[i]) + 1) as u8
            } else {
                0u8
            }
        )
    }

    /// Whether cell `i` is a fixed given.
    pub open spec fn is_fixed(self, i: int) -> bool {
        self.types@[i] & FIXED_MASK != 0
    }

    /// The zone tables are exactly the three standard tables that
    /// `generate_boxes` builds: rows, columns and boxes, 1-based.
    pub open spec fn standard_tables(self) -> bool {
        &&& self.boxes@.len() == 3
        &&& forall|i: int|
            0 <= i < self.size * self.size ==> (#[trigger] self.boxes@[0]@[i]) as int == row_zone(
                self.size as int,
                i,
            )
        &&& forall|i: int|
            0 <= i < self.size * self.size ==> (#[trigger] self.boxes@[1]@[i]) as int == col_zone(
                self.size as int,
                i,
            )
        &&& forall|i: int|
            0 <= i < self.size * self.size ==> (#[trigger] self.boxes@[2]@[i]) as int == box_zone(
                self.size as int,
                i,
            )
    }
}

/// A valid edge length is at most 16, and a board holds at most 256 cells.
pub proof fn lemma_size_bound(s: int)
    requires
        valid_size(s),
    ensures
        4 <= s <= 16,
        s * s <= 256,
{
}

/// Edge length of the board held in a grid buffer of length `n`.
pub open spec fn size_of_len(n: int) -> int {
    if n == 16 {
        4
    } else if n == 36 {
        6
    } else if n == 64 {
        8
    } else if n == 81 {
        9
    } else {
        16
    }
}

/// A `Vec` holding `n` copies of `x`.
fn filled<T: Copy>(x: T, n: usize) -> (r: Vec<T>)
    ensures
        r@.len() == n,
        forall|i: int| 0 <= i < n ==> r@[i] == x,
{
    let mut r: Vec<T> = Vec::new();
    let mut k: usize = 0;
    while k < n
        invariant
            k <= n,
            r@.len() == k,
            forall|i: int| 0 <= i < k ==> r@[i] == x,
        decreases n - k,
    {
        r.push(x);
        k = k + 1;
    }
    r
}

/// Zone id of the standard row table: `row + 1`.
pub open spec fn row_zone(size: int, i: int) -> int {
    i / size + 1
}

/// Zone id of the standard column table: `col + 1`.
pub open spec fn col_zone(size: int, i: int) -> int {
    i % size + 1
}

/// Side of a box for the perfect-square sizes.
pub open spec fn box_side(size: int) -> int {
    if size == 4 {
        2
    } else if size == 9 {
        3
    } else if size == 16 {
        4
    } else {
        1
    }
}

/// Zone id of the standard box table, 1-based for every size: square boxes
/// for 4/9/16, boxes of 2 rows by `size / 2` columns for 6 and 8.
pub open spec fn box_zone(size: int, i: int) -> int {
    let row = i / size;
    let col = i % size;
    if size == 6 || size == 8 {
        2 * (row / 2) + col / (size / 2) + 1
    } else {
        box_side(size) * (row / box_side(size)) + col / box_side(size) + 1
    }
}

/// Build the three standard zone tables (rows, columns, boxes) of a board of
/// edge `size`. Pure and deterministic; called once per puzzle.
pub fn generate_boxes(size: usize) -> (r: Vec<Vec<usize>>)
    requires
        valid_size(size as int),
    ensures
        r@.len() == 3,
        forall|c: int| 0 <= c < 3 ==> (#[trigger] r@[c])@.len() == size * size,
        forall|i: int| 0 <= i < size * size ==> (#[trigger] r@[0]@[i]) as int
            == row_zone(size as int, i),
        forall|i: int| 0 <= i < size * size ==> (#[trigger] r@[1]@[i]) as int
            == col_zone(size as int, i),
        forall|i: int| 0 <= i < size * size ==> (#[trigger] r@[2]@[i]) as int
            == box_zone(size as int, i),
        forall|c: int, i: int|
            0 <= c < 3 && 0 <= i < size * size ==> 1 <= (#[trigger] r@[c]@[i]) <= size,
{
    let box_size: usize = if size == 4 {
        2
    } else if size == 9 {
        3
    } else if size == 16 {
        4
    } else {
        1
    };
    let mut rows: Vec<usize> = Vec::new();
    let mut cols: Vec<usize> = Vec::new();
    let mut boxes: Vec<usize> = Vec::new();
    let n = size * size;
    let mut ix: usize = 0;
    while ix < n
        invariant
            valid_size(size as int),
            n == size * size,
            ix <= n,
            box_size == box_side(size as int),
            rows@.len() == ix,
            cols@.len() == ix,
            boxes@.len() == ix,
            forall|i: int| 0 <= i < ix ==> (#[trigger] rows@[i]) as int
                == row_zone(size as int, i),
            forall|i: int| 0 <= i < ix ==> (#[trigger] cols@[i]) as int
                == col_zone(size as int, i),
            forall|i: int| 0 <= i < ix ==> (#[trigger] boxes@[i]) as int
                == box_zone(size as int, i),
            forall|i: int| 0 <= i < ix ==> 1 <= (#[trigger] rows@[i]) <= size,
            forall|i: int| 0 <= i < ix ==> 1 <= (#[trigger] cols@[i]) <= size,
            forall|i: int| 0 <= i < ix ==> 1 <= (#[trigger] boxes@[i]) <= size,
        decreases n - ix,
    {
        let row: usize = ix / size;
        proof {
            assert((ix as int) / (size as int) < size as int) by (nonlinear_arith)
                requires
                    ix < size * size && size >= 1,
            ;
        }
        rows.push(row + 1);
        let col: usize = ix % size;
        cols.push(col + 1);
        if size == 6 || size == 8 {
            proof {
                let s = size as int;
                let r0 = row as int;
                let c0 = col as int;
                assert(0 <= 2 * (r0 / 2) + c0 / (s / 2) && 2 * (r0 / 2) + c0 / (s / 2) + 1 <= s)
                    by (nonlinear_arith)
                    requires
                        0 <= r0 < s && 0 <= c0 < s && (s == 6 || s == 8),
                ;
            }
            boxes.push(2 * (row / 2) + col / (size / 2) + 1);
        } else {
            proof {
                let s = size as int;
                let bs = box_size as int;
                let r0 = row as int;
                let c0 = col as int;
                assert(0 <= bs * (r0 / bs) + c0 / bs && bs * (r0 / bs) + c0 / bs + 1 <= s)
                    by (nonlinear_arith)
                    requires
                        0 <= r0 < s && 0 <= c0 < s && ((s == 4 && bs == 2) || (s == 9 && bs == 3)
                            || (s == 16 && bs == 4)),
                ;
            }
            let box_idx: usize = box_size * (row / box_size) + col / box_size;
            boxes.push(box_idx + 1);
        }
        ix = ix + 1;
    }
    let mut r: Vec<Vec<usize>> = Vec::new();
    r.push(rows);
    r.push(cols);
    r.push(boxes);
    r
}

/// The hexadecimal text of candidate value `d` (1-based, up to 16).
fn hex_code(d: usize) -> (r: &'static str)
    requires
        1 <= d <= 16,
    ensures
        r@ == Puzzle::hex_rep(d as int),
{
    let r: &'static str = if d == 1 {
        "1"
    } else if d == 2 {
        "2"
    } else if d == 3 {
        "3"
    } else if d == 4 {
        "4"
    } else if d == 5 {
        "5"
    } else if d == 6 {
        "6"
    } else if d == 7 {
        "7"
    } else if d == 8 {
        "8"
    } else if d == 9 {
        "9"
    } else if d == 10 {
        "A"
    } else if d == 11 {
        "B"
    } else if d == 12 {
        "C"
    } else if d == 13 {
        "D"
    } else if d == 14 {
        "E"
    } else if d == 15 {
        "F"
    } else {
        "10"
    };
    proof {
        reveal_strlit("1");
        reveal_strlit("2");
        reveal_strlit("3");
        reveal_strlit("4");
        reveal_strlit("5");
        reveal_strlit("6");
        reveal_strlit("7");
        reveal_strlit("8");
        reveal_strlit("9");
        reveal_strlit("A");
        reveal_strlit("B");
        reveal_strlit("C");
        reveal_strlit("D");
        reveal_strlit("E");
        reveal_strlit("F");
        reveal_strlit("10");
        assert(r@ =~= Puzzle::hex_rep(d as int));
    }
    r
}

impl Puzzle {
    /// An empty board of the default edge length 9: no givens, no history.
    pub fn new() -> (r: Puzzle)
        ensures
            r.wf(),
            r.size == 9,
            r.boxes@.len() == 3,
            r.standard_tables(),
            forall|i: int| 0 <= i < 81 ==> r.values@[i] == 0u16,
            forall|i: int| 0 <= i < 81 ==> r.types@[i] == 0u8,
            forall|i: int| 0 <= i < 81 ==> r.truths@[i] == 0u8,
            forall|i: int| 0 <= i < 81 ==> !r.solved@[i],
            r.history@.len() == 0,
    {
        let size: usize = 9;
        let n = size * size;
        let r = Puzzle {
            size,
            boxes: generate_boxes(size),
            types: filled(0u8, n),
            truths: filled(0u8, n),
            values: filled(0u16, n),
            solved: filled(false, n),
            history: Vec::new(),
        };
        proof {
            crate::bits::lemma_zero_mask(0u16);
        }
        r
    }

    /// Build the board state straight from a grid of 0-or-given values,
    /// taking the grid itself as the ground truth; the uniqueness solver is
    /// not consulted. Each nonzero entry becomes a fixed, solved cell.
    pub fn raw_from_grid(grid: &[u8]) -> (r: Puzzle)
        requires
            valid_grid_len(grid@.len() as int),
            forall|i: int| 0 <= i < grid@.len() ==> (#[trigger] grid@[i]) as int
                <= size_of_len(grid@.len() as int),
        ensures
            r.wf(),
            r.size as int == size_of_len(grid@.len() as int),
            r.boxes@.len() == 3,
            r.standard_tables(),
            r.truths@ == grid@,
            r.history@.len() == 0,
            forall|i: int| 0 <= i < grid@.len() ==> r.solved@[i] == (grid@[i] != 0),
            forall|i: int| 0 <= i < grid@.len()
                ==> (#[trigger] r.types@[i]) == if grid@[i] != 0 {
                    FIXED_MASK
                } else {
                    0u8
                },
            forall|i: int| 0 <= i < grid@.len()
                ==> (#[trigger] r.values@[i]) == if grid@[i] != 0 {
                    1u16 << ((grid@[i] - 1) as u16)
                } else {
                    0u16
                },
    {
        let len = grid.len();
        let size: usize = if len == 16 {
            4
        } else if len == 36 {
            6
        } else if len == 64 {
            8
        } else if len == 81 {
            9
        } else {
            16
        };
        let mut types: Vec<u8> = Vec::new();
        let mut values: Vec<u16> = Vec::new();
        let mut solved: Vec<bool> = Vec::new();
        let mut truths: Vec<u8> = Vec::new();
        let mut k: usize = 0;
        while k < len
            invariant
                k <= len,
                len == grid@.len(),
                size as int == size_of_len(len as int),
                valid_grid_len(len as int),
                forall|i: int| 0 <= i < len ==> (#[trigger] grid@[i]) as int <= size as int,
                types@.len() == k,
                values@.len() == k,
                solved@.len() == k,
                truths@ == grid@.subrange(0, k as int),
                forall|i: int| 0 <= i < k ==> solved@[i] == (grid@[i] != 0),
                forall|i: int| 0 <= i < k ==> (#[trigger] types@[i]) == if grid@[i] != 0 {
                    FIXED_MASK
                } else {
                    0u8
                },
                forall|i: int| 0 <= i < k ==> (#[trigger] values@[i]) == if grid@[i] != 0 {
                    1u16 << ((grid@[i] - 1) as u16)
                } else {
                    0u16
                },
                forall|i: int, b: int|
                    0 <= i < k && size <= b < 16 ==> !(#[trigger] has_bit(values@[i], b)),
                forall|i: int| 0 <= i < k && solved@[i] ==> ones(#[trigger] values@[i]) == 1,
            decreases len - k,
        {
            let v = grid[k];
            truths.push(v);
            proof {
                assert(truths@ =~= grid@.subrange(0, k + 1));
            }
            if v == 0 {
                types.push(0);
                values.push(0);
                solved.push(false);
                proof {
                    crate::bits::lemma_zero_mask(0u16);
                }
            } else {
                types.push(FIXED_MASK);
                let mask: u16 = 1u16 << ((v - 1) as u16);
                values.push(mask);
                solved.push(true);
                proof {
                    let kb = (v - 1) as u16;
                    crate::bits::lemma_num_set_single(kb, 16);
                    assert forall|b: int| size <= b < 16 implies !has_bit(mask, b) by {
                        crate::bits::lemma_bit_single(kb, b as u16);
                    }
                }
            }
            k = k + 1;
        }
        proof {
            assert(truths@ =~= grid@);
        }
        Puzzle {
            size,
            boxes: generate_boxes(size),
            types,
            truths,
            values,
            solved,
            history: Vec::new(),
        }
    }

    /// Build the board from a grid of givens and establish its ground truth
    /// through the uniqueness solver; construction fails when the givens
    /// admit no completion or more than one, or the size is unsupported.
    pub fn from_grid(grid: &[u8]) -> (r: Result<Puzzle, crate::errors::PuzzleError>)
        requires
            valid_grid_len(grid@.len() as int),
            forall|i: int| 0 <= i < grid@.len() ==> (#[trigger] grid@[i]) as int
                <= size_of_len(grid@.len() as int),
        ensures
            ({
                let g = grid@;
                let k = crate::solver::grid_knowns(g);
                let s = size_of_len(g.len() as int);
                &&& (s != 4 && s != 9 && s != 16) ==> r == Err::<Puzzle, crate::errors::PuzzleError>(
                    crate::errors::PuzzleError::UnsupportedSize,
                )
                &&& (s == 4 || s == 9 || s == 16) && !crate::solver::givens_consistent(k, s) ==> r
                    == Err::<Puzzle, crate::errors::PuzzleError>(
                    crate::errors::PuzzleError::NoSolution,
                )
                &&& (s == 4 || s == 9 || s == 16) && crate::solver::givens_consistent(k, s) ==> {
                    let sols = crate::solver::dlx_solutions(k);
                    &&& sols.len() == 0 ==> r == Err::<Puzzle, crate::errors::PuzzleError>(
                        crate::errors::PuzzleError::NoSolution,
                    )
                    &&& sols.len() > 1 ==> r == Err::<Puzzle, crate::errors::PuzzleError>(
                        crate::errors::PuzzleError::MultipleSolutions,
                    )
                    &&& sols.len() == 1 ==> {
                        &&& r is Ok
                        &&& r->Ok_0.wf()
                        &&& r->Ok_0.size as int == s
                        &&& r->Ok_0.boxes@.len() == 3
                        &&& r->Ok_0.standard_tables()
                        &&& r->Ok_0.history@.len() == 0
                        &&& r->Ok_0.truths@.len() == g.len()
                        &&& forall|i: int| 0 <= i < g.len() ==> (#[trigger] r->Ok_0.truths@[i])
                            as int == sols[0][i] as int
                        &&& forall|i: int|
                            0 <= i < g.len() ==> 1 <= (#[trigger] r->Ok_0.truths@[i]) as int <= s
                        &&& forall|i: int|
                            0 <= i < g.len() && g[i] != 0 ==> (#[trigger] r->Ok_0.truths@[i])
                                == g[i]
                        &&& forall|i: int, j: int|
                            0 <= i < j < g.len() && crate::solver::std_same_zone(s, i, j)
                                ==> (#[trigger] r->Ok_0.truths@[i])
                                != (#[trigger] r->Ok_0.truths@[j])
                        &&& forall|i: int| 0 <= i < g.len() ==> r->Ok_0.solved@[i] == (g[i] != 0)
                        &&& forall|i: int| 0 <= i < g.len() ==> (#[trigger] r->Ok_0.values@[i])
                            == if g[i] != 0 {
                            1u16 << ((g[i] - 1) as u16)
                        } else {
                            0u16
                        }
                        &&& forall|i: int| 0 <= i < g.len() ==> (#[trigger] r->Ok_0.types@[i])
                            == if g[i] != 0 {
                            FIXED_MASK
                        } else {
                            0u8
                        }
                    }
                }
            }),
    {
        let mut puzzle = Puzzle::raw_from_grid(grid);
        proof {
            assert forall|i: int| 0 <= i < grid@.len() implies crate::solver::knowns_of(puzzle)[i]
                == crate::solver::grid_knowns(grid@)[i] by {
                if grid@[i] != 0 {
                    let kb = (grid@[i] - 1) as u16;
                    crate::bits::lemma_num_set_single(kb, 16);
                    crate::bits::lemma_low_bit_single(kb);
                } else {
                    crate::bits::lemma_num_set_zero(16);
                }
            }
            assert(crate::solver::knowns_of(puzzle) =~= crate::solver::grid_knowns(grid@));
        }
        match crate::solver::solve(&puzzle) {
            Ok(t) => {
                puzzle.truths = t;
                Ok(puzzle)
            },
            Err(e) => Err(e),
        }
    }

    /// Export the board as a flat grid: the 1-based value of every solved
    /// cell, 0 for unsolved cells.
    pub fn to_grid(&self) -> (r: Vec<u8>)
        requires
            self.wf(),
        ensures
            r@ == self.grid_of(),
    {
        let n = self.size * self.size;
        let mut grid: Vec<u8> = Vec::new();
        let mut i: usize = 0;
        while i < n
            invariant
                i <= n,
                self.wf(),
                n == self.size * self.size,
                grid@.len() == i,
                forall|j: int| 0 <= j < i ==> grid@[j] == self.grid_of()[j],
            decreases n - i,
        {
            if self.solved[i] {
                proof {
                    crate::bits::lemma_ones_one(self.values@[i as int]);
                    crate::bits::lemma_low_bit(self.values@[i as int]);
                }
                let tz = self.values[i].trailing_zeros();
                grid.push((tz + 1) as u8);
            } else {
                grid.push(0);
            }
            i = i + 1;
        }
        proof {
            assert(grid@ =~= self.grid_of());
        }
        grid
    }

    /// The exported grid, as the host-facing getter: identical to `to_grid`.
    pub fn values(&self) -> (r: Vec<u8>)
        requires
            self.wf(),
        ensures
            r@ == self.grid_of(),
    {
        self.to_grid()
    }

    /// Whether each cell is a fixed given.
    pub fn fixed_values(&self) -> (r: Vec<bool>)
        requires
            self.wf(),
        ensures
            r@.len() == self.size * self.size,
            forall|i: int| 0 <= i < r@.len() ==> r@[i] == self.is_fixed(i),
    {
        let n = self.size * self.size;
        let mut r: Vec<bool> = Vec::new();
        let mut i: usize = 0;
        while i < n
            invariant
                i <= n,
                self.wf(),
                n == self.size * self.size,
                r@.len() == i,
                forall|j: int| 0 <= j < i ==> r@[j] == self.is_fixed(j),
            decreases n - i,
        {
            r.push(self.types[i] & FIXED_MASK == FIXED_MASK);
            proof {
                let t = self.types@[i as int];
                assert((t & 0x80u8 == 0x80u8) == (t & 0x80u8 != 0u8)) by (bit_vector);
            }
            i = i + 1;
        }
        r
    }

    /// Confirm `value` in the cell (1-based; 0 clears the cell, and undoes
    /// instead when the cell was the target of the latest edit). A fixed
    /// cell is left untouched. Every change pushes an undo entry.
    pub fn set_value(&mut self, idx: usize, value: u8)
        requires
            old(self).wf(),
            idx < old(self).size * old(self).size,
            value as int <= old(self).size as int,
        ensures
            final(self).wf(),
            final(self).size == old(self).size,
            final(self).boxes == old(self).boxes,
            final(self).types == old(self).types,
            final(self).truths == old(self).truths,
            old(self).is_fixed(idx as int) ==> *final(self) == *old(self),
            !old(self).is_fixed(idx as int) && value != 0 ==> {
                &&& final(self).values@ == old(self).values@.update(
                    idx as int,
                    1u16 << ((value - 1) as u16),
                )
                &&& final(self).solved@ == old(self).solved@.update(idx as int, true)
                &&& final(self).history@ == old(self).history@.push(
                    (idx, old(self).values@[idx as int], old(self).solved@[idx as int]),
                )
            },
            !old(self).is_fixed(idx as int) && value == 0 && old(self).undoes_last(idx as int)
                ==> {
                &&& final(self).values@ == old(self).values@.update(
                    idx as int,
                    old(self).history@.last().1,
                )
                &&& final(self).solved@ == old(self).solved@.update(
                    idx as int,
                    old(self).history@.last().2,
                )
                &&& final(self).history@ == old(self).history@.drop_last()
            },
            !old(self).is_fixed(idx as int) && value == 0 && !old(self).undoes_last(idx as int)
                ==> {
                &&& final(self).values@ == old(self).values@.update(idx as int, 0u16)
                &&& final(self).solved@ == old(self).solved@.update(idx as int, false)
                &&& final(self).history@ == old(self).history@.push(
                    (idx, old(self).values@[idx as int], old(self).solved@[idx as int]),
                )
            },
    {
        if self.types[idx] & FIXED_MASK != 0 {
            return ;
        }
        if value == 0 {
            let undo_instead = self.values[idx] != 0 && self.history.len() > 0
                && self.history[self.history.len() - 1].0 == idx;
            if undo_instead {
                self.undo();
            } else {
                self.history.push((idx, self.values[idx], self.solved[idx]));
                self.values[idx] = 0;
                self.solved[idx] = false;
                proof {
                    crate::bits::lemma_zero_mask(0u16);
                }
            }
        } else {
            self.history.push((idx, self.values[idx], self.solved[idx]));
            let mask: u16 = 1u16 << ((value - 1) as u16);
            self.values[idx] = mask;
            self.solved[idx] = true;
            proof {
                let kb = (value - 1) as u16;
                crate::bits::lemma_num_set_single(kb, 16);
                assert forall|b: int| self.size <= b < 16 implies !has_bit(mask, b) by {
                    crate::bits::lemma_bit_single(kb, b as u16);
                }
            }
        }
    }

    /// Rewrite the unsolved cells' candidate masks under the chosen
    /// auto-pencil policy; solved cells, flags, ground truth and history
    /// are never touched, and no undo entry is pushed.
    pub fn update_guesses(&mut self, style: AutoPencil)
        requires
            old(self).wf(),
        ensures
            final(self).wf(),
            final(self).size == old(self).size,
            final(self).boxes == old(self).boxes,
            final(self).types == old(self).types,
            final(self).truths == old(self).truths,
            final(self).solved == old(self).solved,
            final(self).history == old(self).history,
            final(self).values@.len() == old(self).values@.len(),
            style is Never ==> final(self).values == old(self).values,
            forall|i: int|
                0 <= i < old(self).values@.len() && old(self).solved@[i] && !(style is Never)
                    ==> (#[trigger] final(self).values@[i]) == old(self).values@[i],
            style is Always ==> forall|i: int, val: int|
                0 <= i < old(self).values@.len() && !old(self).solved@[i] && 0 <= val < old(
                    self,
                ).size ==> (#[trigger] has_bit(final(self).values@[i], val)
                    <==> crate::solver::value_open(*old(self), i, val)),
            style is OnlyRemove ==> crate::solver::intersected(*old(self), final(self).values@),
            style is Snyder && old(self).boxes@.len() == 3 ==> crate::solver::snyder_applied(
                *old(self),
                final(self).values@,
            ),
            style is Snyder && old(self).boxes@.len() != 3 ==> final(self).values == old(
                self,
            ).values,
    {
        proof {
            crate::lemma_size_bound(old(self).size as int);
        }
        match style {
            AutoPencil::Never => {},
            AutoPencil::Always => {
                let updated = crate::solver::redo_guesses(self);
                self.values = updated;
            },
            AutoPencil::OnlyRemove => {
                let updated = crate::solver::redo_guesses(self);
                let n = self.values.len();
                let mut i: usize = 0;
                while i < n
                    invariant
                        old(self).wf(),
                        self.size == old(self).size,
                        self.boxes == old(self).boxes,
                        self.types == old(self).types,
                        self.truths == old(self).truths,
                        self.solved == old(self).solved,
                        self.history == old(self).history,
                        n == old(self).values@.len(),
                        n == self.values@.len(),
                        n == old(self).size * old(self).size,
                        i <= n,
                        updated@.len() == n,
                        forall|j: int| 0 <= j < n && old(self).solved@[j]
                            ==> (#[trigger] updated@[j]) == old(self).values@[j],
                        forall|j: int, val: int|
                            0 <= j < n && !old(self).solved@[j] && 0 <= val < old(self).size
                                ==> (#[trigger] has_bit(updated@[j], val)
                                <==> crate::solver::value_open(*old(self), j, val)),
                        forall|j: int, b: int|
                            0 <= j < n && !old(self).solved@[j] && old(self).size <= b < 16
                                ==> !(#[trigger] has_bit(updated@[j], b)),
                        forall|j: int| i <= j < n ==> (#[trigger] self.values@[j]) == old(
                            self,
                        ).values@[j],
                        forall|j: int| 0 <= j < i ==> (#[trigger] self.values@[j]) == (old(
                            self,
                        ).values@[j] & updated@[j]),
                    decreases n - i,
                {
                    let m: u16 = self.values[i] & updated[i];
                    self.values[i] = m;
                    i = i + 1;
                }
                proof {
                    assert forall|j: int, val: int|
                        0 <= j < n && 0 <= val < 16 implies has_bit(self.values@[j], val) == (
                    has_bit(old(self).values@[j], val) && has_bit(updated@[j], val)) by {
                        crate::bits::lemma_bit_and(old(self).values@[j], updated@[j], val as u16);
                    }
                    assert forall|j: int| 0 <= j < n && old(self).solved@[j] implies self.values@[j]
                        == old(self).values@[j] by {
                        let a = old(self).values@[j];
                        assert(self.values@[j] == (a & a));
                        assert((a & a) == a) by (bit_vector);
                    }
                    assert(crate::solver::intersected(*old(self), self.values@)) by {
                        assert forall|j: int, val: int|
                            #![trigger has_bit(self.values@[j], val)]
                            0 <= j < n && !old(self).solved@[j] && 0 <= val < old(self).size
                                implies (has_bit(self.values@[j], val) <==> (has_bit(
                            old(self).values@[j],
                            val,
                        ) && crate::solver::value_open(*old(self), j, val))) by {
                            assert(self.values@[j] == (old(self).values@[j] & updated@[j]));
                            crate::bits::lemma_bit_and(
                                old(self).values@[j],
                                updated@[j],
                                val as u16,
                            );
                            assert(has_bit(updated@[j], val) <==> crate::solver::value_open(
                                *old(self),
                                j,
                                val,
                            ));
                        }
                    }
                    assert forall|j: int, b: int|
                        0 <= j < n && self.size <= b < 16 implies !has_bit(
                        self.values@[j],
                        b,
                    ) by {
                        if old(self).solved@[j] {
                            assert(self.values@[j] == old(self).values@[j]);
                            assert(!has_bit(old(self).values@[j], b));
                        } else {
                            assert(self.values@[j] == (old(self).values@[j] & updated@[j]));
                            crate::bits::lemma_bit_and(
                                old(self).values@[j],
                                updated@[j],
                                b as u16,
                            );
                            assert(!has_bit(old(self).values@[j], b));
                        }
                    }
                    assert forall|j: int| 0 <= j < n && self.solved@[j] implies ones(
                        self.values@[j],
                    ) == 1 by {
                        assert(self.values@[j] == old(self).values@[j]);
                    }
                }
            },
            AutoPencil::Snyder => {
                let updated = crate::solver::redo_guesses(self);
                if self.boxes.len() != 3 {
                    return ;
                }
                let n = self.values.len();
                let mut i: usize = 0;
                while i < n
                    invariant
                        old(self).wf(),
                        self.size == old(self).size,
                        self.boxes == old(self).boxes,
                        self.types == old(self).types,
                        self.truths == old(self).truths,
                        self.solved == old(self).solved,
                        self.history == old(self).history,
                        self.boxes@.len() == 3,
                        n == old(self).values@.len(),
                        n == self.values@.len(),
                        n == old(self).size * old(self).size,
                        n <= 256,
                        i <= n,
                        updated@.len() == n,
                        forall|j: int, val: int|
                            0 <= j < n && !old(self).solved@[j] && 0 <= val < old(self).size
                                ==> (#[trigger] has_bit(updated@[j], val)
                                <==> crate::solver::value_open(*old(self), j, val)),
                        forall|j: int| i <= j < n ==> (#[trigger] self.values@[j]) == old(
                            self,
                        ).values@[j],
                        forall|j: int| 0 <= j < i && old(self).solved@[j]
                            ==> (#[trigger] self.values@[j]) == old(self).values@[j],
                        forall|j: int| 0 <= j < i && !old(self).solved@[j]
                            && old(self).boxes@[2]@[j] == 0 ==> (#[trigger] self.values@[j]) == 0,
                        forall|j: int, val: int|
                            0 <= j < i && !old(self).solved@[j] && old(self).boxes@[2]@[j] != 0 && 0
                                <= val < old(self).size
                                ==> (#[trigger] has_bit(self.values@[j], val)
                                <==> crate::solver::value_open(*old(self), j, val) && 1
                                <= crate::solver::snyder_upto(
                                *old(self),
                                old(self).boxes@[2]@[j] as int,
                                val,
                                n as int,
                            ) <= 2),
                        forall|j: int, b: int|
                            0 <= j < i && !old(self).solved@[j] && old(self).size <= b < 16
                                ==> !(#[trigger] has_bit(self.values@[j], b)),
                    decreases n - i,
                {
                    if self.solved[i] {
                        i = i + 1;
                        continue ;
                    }
                    let zid = self.boxes[2][i];
                    if zid == 0 {
                        self.values[i] = 0;
                        proof {
                            crate::bits::lemma_zero_mask(0u16);
                        }
                        i = i + 1;
                        continue ;
                    }
                    let mut m: u16 = 0;
                    let mut val: usize = 0;
                    proof {
                        crate::bits::lemma_zero_mask(0u16);
                    }
                    while val < self.size
                        invariant
                            old(self).wf(),
                            self.size == old(self).size,
                            self.boxes == old(self).boxes,
                            self.solved == old(self).solved,
                            self.values@.len() == n,
                            self.boxes@.len() == 3,
                            n == old(self).values@.len(),
                            n == old(self).size * old(self).size,
                            n <= 256,
                            i < n,
                            !old(self).solved@[i as int],
                            zid == old(self).boxes@[2]@[i as int],
                            1 <= zid <= old(self).size,
                            val <= old(self).size,
                            updated@.len() == n,
                            forall|j: int, v: int|
                                0 <= j < n && !old(self).solved@[j] && 0 <= v < old(self).size
                                    ==> (#[trigger] has_bit(updated@[j], v)
                                    <==> crate::solver::value_open(*old(self), j, v)),
                            forall|b: int|
                                0 <= b < val ==> (#[trigger] has_bit(m, b)
                                    <==> crate::solver::value_open(*old(self), i as int, b) && 1
                                    <= crate::solver::snyder_upto(
                                    *old(self),
                                    zid as int,
                                    b,
                                    n as int,
                                ) <= 2),
                            forall|b: int| val <= b < 16 ==> !(#[trigger] has_bit(m, b)),
                        decreases old(self).size - val,
                    {
                        proof {
                            crate::bits::lemma_bit01(updated@[i as int], val as u16);
                            crate::solver::lemma_snyder_bridge(
                                *old(self),
                                updated@,
                                zid as int,
                                val as int,
                                n as int,
                            );
                        }
                        let open_here = (updated[i] >> (val as u16)) & 1 == 1;
                        let cnt = crate::solver::snyder_slot(
                            &self.solved,
                            &self.boxes[2],
                            &updated,
                            zid,
                            val,
                        );
                        let ghost m_old = m;
                        let taken = open_here && cnt > 0 && cnt <= 2;
                        if taken {
                            m = m | (1u16 << (val as u16));
                        }
                        proof {
                            assert forall|b: int| 0 <= b < 16 implies has_bit(m, b) == (has_bit(
                                m_old,
                                b,
                            ) || (taken && b == val as int)) by {
                                if taken {
                                    crate::bits::lemma_bit_or(
                                        m_old,
                                        1u16 << (val as u16),
                                        b as u16,
                                    );
                                    crate::bits::lemma_bit_single(val as u16, b as u16);
                                }
                            }
                            assert(!has_bit(m_old, val as int));
                            assert(has_bit(updated@[i as int], val as int)
                                <==> crate::solver::value_open(*old(self), i as int, val as int));
                            assert(has_bit(m, val as int) <==> (crate::solver::value_open(
                                *old(self),
                                i as int,
                                val as int,
                            ) && 1 <= crate::solver::snyder_upto(
                                *old(self),
                                zid as int,
                                val as int,
                                n as int,
                            ) <= 2));
                        }
                        val = val + 1;
                    }
                    self.values[i] = m;
                    i = i + 1;
                }
                proof {
                    assert(crate::solver::snyder_applied(*old(self), self.values@));
                }
            },
        }
    }

    /// Cell `i` is flagged by strict verification: solved, with a known
    /// ground truth it contradicts.
    pub open spec fn strict_bad(self, i: int) -> bool {
        self.solved@[i] && self.truths@[i] != 0 && self.truths@[i] as int != crate::bits::low_bit(
            self.values@[i],
        ) + 1
    }

    /// Cell `i` is flagged by structural verification: solved, and some
    /// zone holding it has its value more than once among solved cells.
    pub open spec fn struct_bad(self, i: int) -> bool {
        self.solved@[i] && exists|c: int|
            0 <= c < self.boxes@.len() && #[trigger] self.boxes@[c]@[i] != 0 && crate::solver::zone_count(
                self,
                true,
                c,
                self.boxes@[c]@[i] as int,
                crate::bits::low_bit(self.values@[i]),
            ) > 1
    }

    /// The offending cells among `0 .. n`, in scan order.
    pub open spec fn bad_cells(self, strict: bool, n: int) -> Seq<usize>
        decreases n,
    {
        if n <= 0 {
            Seq::empty()
        } else {
            self.bad_cells(strict, n - 1) + if (strict && self.strict_bad(n - 1)) || (!strict
                && self.struct_bad(n - 1)) {
                seq![(n - 1) as usize]
            } else {
                Seq::empty()
            }
        }
    }

    /// List the offending cells: under strict verification the solved cells
    /// contradicting the known ground truth, otherwise the solved cells
    /// whose value repeats inside one of their zones.
    pub fn verify(&self, strict: bool) -> (r: Vec<usize>)
        requires
            self.wf(),
        ensures
            r@ == self.bad_cells(strict, (self.size * self.size) as int),
    {
        proof {
            crate::lemma_size_bound(self.size as int);
        }
        let n = self.size * self.size;
        let mut bad: Vec<usize> = Vec::new();
        if strict {
            let mut i: usize = 0;
            while i < n
                invariant
                    self.wf(),
                    n == self.size * self.size,
                    i <= n,
                    bad@ == self.bad_cells(true, i as int),
                decreases n - i,
            {
                if self.solved[i] {
                    proof {
                        crate::bits::lemma_ones_one(self.values@[i as int]);
                        crate::bits::lemma_low_bit(self.values@[i as int]);
                    }
                    let tz = self.values[i].trailing_zeros();
                    if self.truths[i] != 0 && self.truths[i] as u32 != tz + 1 {
                        bad.push(i);
                    }
                }
                proof {
                    assert(bad@ =~= self.bad_cells(true, i + 1));
                }
                i = i + 1;
            }
            return bad;
        }
        let counts = crate::solver::get_counts(self, true);
        let ncons = self.boxes.len();
        let mut i: usize = 0;
        while i < n
            invariant
                self.wf(),
                n == self.size * self.size,
                ncons == self.boxes@.len(),
                i <= n,
                counts@.len() == ncons,
                forall|c2: int| 0 <= c2 < ncons ==> (#[trigger] counts@[c2])@.len() == self.size,
                forall|c2: int, z: int|
                    0 <= c2 < ncons && 0 <= z < self.size ==> (#[trigger] counts@[c2]@[z])@.len()
                        == self.size,
                forall|c2: int, z: int, v: int|
                    0 <= c2 < ncons && 0 <= z < self.size && 0 <= v < self.size
                        ==> (#[trigger] counts@[c2]@[z]@[v]) as nat == crate::solver::zone_count(
                        *self,
                        true,
                        c2,
                        z + 1,
                        v,
                    ),
                bad@ == self.bad_cells(false, i as int),
            decreases n - i,
        {
            if self.solved[i] {
                proof {
                    crate::bits::lemma_ones_one(self.values@[i as int]);
                    crate::bits::lemma_low_bit(self.values@[i as int]);
                }
                let tz = self.values[i].trailing_zeros() as usize;
                let mut found = false;
                let mut c: usize = 0;
                while c < ncons
                    invariant
                        self.wf(),
                        n == self.size * self.size,
                        ncons == self.boxes@.len(),
                        i < n,
                        self.solved@[i as int],
                        tz as int == crate::bits::low_bit(self.values@[i as int]),
                        tz < self.size,
                        c <= ncons,
                        counts@.len() == ncons,
                        forall|c2: int| 0 <= c2 < ncons ==> (#[trigger] counts@[c2])@.len()
                            == self.size,
                        forall|c2: int, z: int|
                            0 <= c2 < ncons && 0 <= z < self.size
                                ==> (#[trigger] counts@[c2]@[z])@.len() == self.size,
                        forall|c2: int, z: int, v: int|
                            0 <= c2 < ncons && 0 <= z < self.size && 0 <= v < self.size
                                ==> (#[trigger] counts@[c2]@[z]@[v]) as nat
                                == crate::solver::zone_count(*self, true, c2, z + 1, v),
                        found ==> self.struct_bad(i as int),
                        !found ==> forall|c2: int|
                            0 <= c2 < c ==> !(#[trigger] self.boxes@[c2]@[i as int] != 0
                                && crate::solver::zone_count(
                                *self,
                                true,
                                c2,
                                self.boxes@[c2]@[i as int] as int,
                                crate::bits::low_bit(self.values@[i as int]),
                            ) > 1),
                    decreases ncons - c,
                {
                    let zid = self.boxes[c][i];
                    if zid != 0 && counts[c][zid - 1][tz] > 1 {
                        found = true;
                        proof {
                            assert(self.boxes@[c as int]@[i as int] != 0
                                && crate::solver::zone_count(
                                *self,
                                true,
                                c as int,
                                zid as int,
                                tz as int,
                            ) > 1);
                        }
                    }
                    c = c + 1;
                }
                if found {
                    bad.push(i);
                }
            }
            proof {
                assert(bad@ =~= self.bad_cells(false, i + 1));
            }
            i = i + 1;
        }
        bad
    }

    /// The hexadecimal notation of candidate value `d` (1-based, up to 16).
    pub open spec fn hex_rep(d: int) -> Seq<char> {
        if d == 1 {
            seq!['1']
        } else if d == 2 {
            seq!['2']
        } else if d == 3 {
            seq!['3']
        } else if d == 4 {
            seq!['4']
        } else if d == 5 {
            seq!['5']
        } else if d == 6 {
            seq!['6']
        } else if d == 7 {
            seq!['7']
        } else if d == 8 {
            seq!['8']
        } else if d == 9 {
            seq!['9']
        } else if d == 10 {
            seq!['A']
        } else if d == 11 {
            seq!['B']
        } else if d == 12 {
            seq!['C']
        } else if d == 13 {
            seq!['D']
        } else if d == 14 {
            seq!['E']
        } else if d == 15 {
            seq!['F']
        } else {
            seq!['1', '0']
        }
    }

    /// The candidate string of a mask: the hexadecimal digit of each live
    /// candidate at most `size`, in ascending value order.
    pub open spec fn guess_chars(v: u16, size: int) -> Seq<char>
        decreases size,
    {
        if size <= 0 {
            Seq::empty()
        } else {
            Self::guess_chars(v, size - 1) + if has_bit(v, size - 1) {
                Self::hex_rep(size)
            } else {
                Seq::empty()
            }
        }
    }

    /// Export each cell's live candidates as a string of hexadecimal
    /// digits in ascending value order.
    pub fn guesses(&self) -> (r: Vec<String>)
        requires
            self.wf(),
        ensures
            r@.len() == self.size * self.size,
            forall|i: int|
                0 <= i < r@.len() ==> (#[trigger] r@[i])@ == Self::guess_chars(
                    self.values@[i],
                    self.size as int,
                ),
    {
        let n = self.size * self.size;
        let mut r: Vec<String> = Vec::new();
        let mut i: usize = 0;
        while i < n
            invariant
                self.wf(),
                n == self.size * self.size,
                i <= n,
                r@.len() == i,
                forall|j: int|
                    0 <= j < i ==> (#[trigger] r@[j])@ == Self::guess_chars(
                        self.values@[j],
                        self.size as int,
                    ),
            decreases n - i,
        {
            let v = self.values[i];
            let mut text = String::new();
            let mut d: usize = 0;
            while d < self.size
                invariant
                    self.wf(),
                    i < n,
                    v == self.values@[i as int],
                    d <= self.size,
                    text@ == Self::guess_chars(v, d as int),
                decreases self.size - d,
            {
                proof {
                    crate::bits::lemma_bit01(v, d as u16);
                }
                if (v >> (d as u16)) & 1 == 1 {
                    text.append(hex_code(d + 1));
                }
                d = d + 1;
            }
            r.push(text);
            i = i + 1;
        }
        r
    }

    /// Whether a clearing `set_value` on cell `idx` undoes the latest edit
    /// instead of pushing a new one: the cell holds candidates and the top
    /// history entry is its own.
    pub open spec fn undoes_last(self, idx: int) -> bool {
        self.values@[idx] != 0 && self.history@.len() > 0 && self.history@.last().0 == idx
    }

    /// Pop the latest undo entry and restore that cell's candidate mask and
    /// solved flag; a no-op once the history is exhausted.
    pub fn undo(&mut self)
        requires
            old(self).wf(),
        ensures
            final(self).wf(),
            final(self).size == old(self).size,
            final(self).boxes == old(self).boxes,
            final(self).types == old(self).types,
            final(self).truths == old(self).truths,
            old(self).history@.len() == 0 ==> {
                &&& final(self).values@ == old(self).values@
                &&& final(self).solved@ == old(self).solved@
                &&& final(self).history@ == old(self).history@
            },
            old(self).history@.len() > 0 ==> {
                &&& final(self).values@ == old(self).values@.update(
                    old(self).history@.last().0 as int,
                    old(self).history@.last().1,
                )
                &&& final(self).solved@ == old(self).solved@.update(
                    old(self).history@.last().0 as int,
                    old(self).history@.last().2,
                )
                &&& final(self).history@ == old(self).history@.drop_last()
            },
    {
        match self.history.pop() {
            Some((idx, val, solved)) => {
                self.values[idx] = val;
                self.solved[idx] = solved;
            },
            None => {},
        }
    }

    /// Clear every candidate of an unsolved, unfixed cell, pushing an undo
    /// entry; fixed or solved cells are left untouched.
    pub fn erase_guess(&mut self, idx: usize)
        requires
            old(self).wf(),
            idx < old(self).size * old(self).size,
        ensures
            final(self).wf(),
            final(self).size == old(self).size,
            final(self).boxes == old(self).boxes,
            final(self).types == old(self).types,
            final(self).truths == old(self).truths,
            final(self).solved == old(self).solved,
            old(self).is_fixed(idx as int) || old(self).solved@[idx as int] ==> *final(self)
                == *old(self),
            !old(self).is_fixed(idx as int) && !old(self).solved@[idx as int] ==> {
                &&& final(self).values@ == old(self).values@.update(idx as int, 0u16)
                &&& final(self).history@ == old(self).history@.push(
                    (idx, old(self).values@[idx as int], old(self).solved@[idx as int]),
                )
            },
    {
        if self.types[idx] & FIXED_MASK != 0 {
            return ;
        }
        if !self.solved[idx] {
            self.history.push((idx, self.values[idx], self.solved[idx]));
            self.values[idx] = 0;
            proof {
                crate::bits::lemma_zero_mask(0u16);
            }
        }
    }

    /// Toggle candidate `guess` (1-based) of an unsolved, unfixed cell,
    /// pushing an undo entry; fixed or solved cells are left untouched.
    pub fn set_guess(&mut self, idx: usize, guess: u8)
        requires
            old(self).wf(),
            idx < old(self).size * old(self).size,
            1 <= guess as int <= old(self).size as int,
        ensures
            final(self).wf(),
            final(self).size == old(self).size,
            final(self).boxes == old(self).boxes,
            final(self).types == old(self).types,
            final(self).truths == old(self).truths,
            final(self).solved == old(self).solved,
            old(self).is_fixed(idx as int) || old(self).solved@[idx as int] ==> *final(self)
                == *old(self),
            !old(self).is_fixed(idx as int) && !old(self).solved@[idx as int] ==> {
                &&& final(self).values@ == old(self).values@.update(
                    idx as int,
                    old(self).values@[idx as int] ^ (1u16 << ((guess - 1) as u16)),
                )
                &&& final(self).history@ == old(self).history@.push(
                    (idx, old(self).values@[idx as int], old(self).solved@[idx as int]),
                )
            },
    {
        if self.types[idx] & FIXED_MASK != 0 {
            return ;
        }
        if !self.solved[idx] {
            self.history.push((idx, self.values[idx], self.solved[idx]));
            let kb = (guess - 1) as u16;
            let mask: u16 = self.values[idx] ^ (1u16 << kb);
            self.values[idx] = mask;
            proof {
                assert forall|b: int| self.size <= b < 16 implies !has_bit(mask, b) by {
                    crate::bits::lemma_bit_xor(old(self).values@[idx as int], 1u16 << kb, b as u16);
                    crate::bits::lemma_bit_single(kb, b as u16);
                }
            }
        }
    }

    /// Cell `i` is solved and agrees with the ground truth.
    pub open spec fn cell_done(self, i: int) -> bool {
        self.solved@[i] && self.truths@[i] as int == low_bit(self.values@[i]) + 1
    }

    /// Whether every cell is solved and agrees with the ground truth.
    pub open spec fn complete(self) -> bool {
        forall|i: int| 0 <= i < self.size * self.size ==> #[trigger] self.cell_done(i)
    }

    /// Report whether the board is finished: every cell solved and matching
    /// the ground truth.
    pub fn is_complete(&self) -> (r: bool)
        requires
            self.wf(),
        ensures
            r == self.complete(),
    {
        let n = self.size * self.size;
        let mut i: usize = 0;
        while i < n
            invariant
                i <= n,
                self.wf(),
                n == self.size * self.size,
                forall|j: int| 0 <= j < i ==> #[trigger] self.cell_done(j),
            decreases n - i,
        {
            if !self.solved[i] {
                assert(!self.cell_done(i as int));
                return false;
            }
            proof {
                crate::bits::lemma_ones_one(self.values@[i as int]);
                crate::bits::lemma_low_bit(self.values@[i as int]);
            }
            let tz = self.values[i].trailing_zeros();
            if self.truths[i] as u32 != tz + 1 {
                assert(!self.cell_done(i as int));
                return false;
            }
            assert(self.cell_done(i as int));
            i = i + 1;
        }
        true
    }
}

} // verus!
