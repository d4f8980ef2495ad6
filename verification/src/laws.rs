//! The library's cross-function guarantees, stated and proved once: the
//! grid round trip, undo as an exact inverse of the mutating calls, when
//! the guessing strategy finds nothing, and the soundness of an applied
//! hidden single.
use vstd::prelude::*;

use crate::Puzzle;
use crate::bits::{has_bit, ones, low_bit};
use crate::solver::{contributes, count_upto, zone_count};

verus! {

/// Round trip: a puzzle built raw from any valid grid exports exactly that
/// grid again — nonzero givens come back as solved values, blanks as 0.
pub proof fn lemma_grid_round_trip(p: Puzzle, g: Seq<u8>)
    requires
        crate::valid_grid_len(g.len() as int),
        forall|i: int| 0 <= i < g.len() ==> (#[trigger] g[i]) as int <= crate::size_of_len(
            g.len() as int,
        ),
        p.size as int == crate::size_of_len(g.len() as int),
        p.solved@.len() == g.len(),
        p.values@.len() == g.len(),
        g.len() == p.size * p.size,
        forall|i: int| 0 <= i < g.len() ==> p.solved@[i] == (g[i] != 0),
        forall|i: int| 0 <= i < g.len() ==> (#[trigger] p.values@[i]) == if g[i] != 0 {
            1u16 << ((g[i] - 1) as u16)
        } else {
            0u16
        },
    ensures
        p.grid_of() == g,
{
    assert forall|i: int| 0 <= i < g.len() implies p.grid_of()[i] == g[i] by {
        if g[i] != 0 {
            crate::bits::lemma_low_bit_single((g[i] - 1) as u16);
        }
    }
    assert(p.grid_of() =~= g);
}

/// Undo is an exact inverse: after a mutating call that pushed an undo
/// entry and changed one cell, `undo`'s restoration brings the candidate
/// mask, the solved flag and the history back to their pre-call values.
pub proof fn lemma_undo_restores(pre: Puzzle, mid: Puzzle, post: Puzzle, idx: usize, m: u16, s: bool)
    requires
        (idx as int) < pre.values@.len(),
        pre.solved@.len() == pre.values@.len(),
        mid.values@ == pre.values@.update(idx as int, m),
        mid.solved@ == pre.solved@.update(idx as int, s),
        mid.history@ == pre.history@.push((idx, pre.values@[idx as int], pre.solved@[idx as int])),
        post.values@ == mid.values@.update(
            mid.history@.last().0 as int,
            mid.history@.last().1,
        ),
        post.solved@ == mid.solved@.update(
            mid.history@.last().0 as int,
            mid.history@.last().2,
        ),
        post.history@ == mid.history@.drop_last(),
    ensures
        post.values@ == pre.values@,
        post.solved@ == pre.solved@,
        post.history@ == pre.history@,
{
    assert(mid.history@.last() == (idx, pre.values@[idx as int], pre.solved@[idx as int]));
    assert(post.values@ =~= pre.values@);
    assert(post.solved@ =~= pre.solved@);
    assert(post.history@ =~= pre.history@);
}

/// On a board whose solved flags agree with its single-candidate cells,
/// the guessing strategy's "nothing to do" answer means precisely that
/// every cell is solved.
pub proof fn lemma_guess_none_means_solved(p: Puzzle)
    requires
        p.wf(),
        forall|i: int|
            0 <= i < p.values@.len() ==> (ones(#[trigger] p.values@[i]) == 1 <==> p.solved@[i]),
    ensures
        (forall|i: int| 0 <= i < p.values@.len() ==> ones(#[trigger] p.values@[i]) == 1) <==> (
        forall|i: int| 0 <= i < p.values@.len() ==> p.solved@[i]),
{
    if forall|i: int| 0 <= i < p.values@.len() ==> ones(#[trigger] p.values@[i]) == 1 {
        assert forall|i: int| 0 <= i < p.values@.len() implies p.solved@[i] by {
            assert(ones(p.values@[i]) == 1);
        }
    }
    if forall|i: int| 0 <= i < p.values@.len() ==> p.solved@[i] {
        assert forall|i: int| 0 <= i < p.values@.len() implies ones(p.values@[i]) == 1 by {
            assert(p.solved@[i]);
        }
    }
}

/// How many cells among `0 .. n` the zone `z` of table `c` holds.
pub open spec fn zone_cells(p: Puzzle, c: int, z: int, n: int) -> nat
    decreases n,
{
    if n <= 0 {
        0
    } else {
        zone_cells(p, c, z, n - 1) + if p.boxes@[c]@[n - 1] as int == z {
            1nat
        } else {
            0nat
        }
    }
}

/// The sum of a zone's solved-occurrence counts over the values below
/// `vmax`.
pub open spec fn sum_counts(p: Puzzle, c: int, z: int, vmax: int, n: int) -> nat
    decreases vmax,
{
    if vmax <= 0 {
        0
    } else {
        sum_counts(p, c, z, vmax - 1, n) + count_upto(p, true, c, z, vmax - 1, n)
    }
}

/// Scanning one more cell adds one to the value sum exactly when that cell
/// sits in the zone, is solved, and holds a value below `vmax`.
proof fn lemma_sum_cell_step(p: Puzzle, c: int, z: int, vmax: int, n: int)
    requires
        n >= 1,
    ensures
        sum_counts(p, c, z, vmax, n) == sum_counts(p, c, z, vmax, n - 1) + if p.boxes@[c]@[n - 1]
            as int == z && p.solved@[n - 1] && 0 <= low_bit(p.values@[n - 1]) < vmax {
            1nat
        } else {
            0nat
        },
    decreases vmax,
{
    if vmax > 0 {
        lemma_sum_cell_step(p, c, z, vmax - 1, n);
    }
}

/// With no cells scanned the value sum is zero.
proof fn lemma_sum_counts_empty(p: Puzzle, c: int, z: int, vmax: int, n: int)
    requires
        n <= 0,
    ensures
        sum_counts(p, c, z, vmax, n) == 0,
    decreases vmax,
{
    if vmax > 0 {
        lemma_sum_counts_empty(p, c, z, vmax - 1, n);
    }
}

/// On a fully solved board every cell of the zone contributes exactly one
/// occurrence, so the value sum equals the zone's cell count.
proof fn lemma_sum_is_zone_cells(p: Puzzle, c: int, z: int, n: int)
    requires
        p.wf(),
        n <= p.values@.len(),
        forall|i: int| 0 <= i < n ==> p.solved@[i],
    ensures
        sum_counts(p, c, z, p.size as int, n) == zone_cells(p, c, z, n),
    decreases n,
{
    if n > 0 {
        lemma_sum_is_zone_cells(p, c, z, n - 1);
        lemma_sum_cell_step(p, c, z, p.size as int, n);
        assert(p.solved@[n - 1]);
        assert(ones(p.values@[n - 1]) == 1);
        crate::bits::lemma_ones_one(p.values@[n - 1]);
        crate::bits::lemma_low_bit(p.values@[n - 1]);
        assert(has_bit(p.values@[n - 1], low_bit(p.values@[n - 1])));
        assert(0 <= low_bit(p.values@[n - 1]) < p.size as int);
        assert(sum_counts(p, c, z, p.size as int, n) == sum_counts(p, c, z, p.size as int, n - 1)
            + if p.boxes@[c]@[n - 1] as int == z {
            1nat
        } else {
            0nat
        });
        assert(sum_counts(p, c, z, p.size as int, n - 1) == zone_cells(p, c, z, n - 1));
        assert(zone_cells(p, c, z, n) == zone_cells(p, c, z, n - 1) + if p.boxes@[c]@[n - 1]
            as int == z {
            1nat
        } else {
            0nat
        });
    } else {
        lemma_sum_counts_empty(p, c, z, p.size as int, n);
    }
}

/// A positive count names a contributing cell.
proof fn lemma_count_pos_witness(p: Puzzle, os: bool, c: int, z: int, val: int, n: int)
    requires
        count_upto(p, os, c, z, val, n) >= 1,
    ensures
        exists|j: int|
            0 <= j < n && (#[trigger] p.boxes@[c]@[j]) as int == z && contributes(p, os, j, val),
    decreases n,
{
    if n > 0 {
        if p.boxes@[c]@[n - 1] as int == z && contributes(p, os, n - 1, val) {
            assert(0 <= n - 1 < n && p.boxes@[c]@[n - 1] as int == z && contributes(
                p,
                os,
                n - 1,
                val,
            ));
        } else {
            lemma_count_pos_witness(p, os, c, z, val, n - 1);
        }
    }
}

/// A sum of terms each at most one is bounded by the number of terms.
proof fn lemma_sum_bounded(p: Puzzle, c: int, z: int, vmax: int, n: int)
    requires
        forall|v: int| 0 <= v < vmax ==> #[trigger] count_upto(p, true, c, z, v, n) <= 1,
    ensures
        sum_counts(p, c, z, vmax, n) <= if vmax <= 0 {
            0int
        } else {
            vmax
        },
    decreases vmax,
{
    if vmax > 0 {
        lemma_sum_bounded(p, c, z, vmax - 1, n);
    }
}

/// Pigeonhole: terms at most one that sum to the number of terms are each
/// exactly one.
proof fn lemma_sum_full_means_ones(p: Puzzle, c: int, z: int, vmax: int, n: int)
    requires
        forall|v: int| 0 <= v < vmax ==> #[trigger] count_upto(p, true, c, z, v, n) <= 1,
        sum_counts(p, c, z, vmax, n) == vmax,
        vmax >= 0,
    ensures
        forall|v: int| 0 <= v < vmax ==> #[trigger] count_upto(p, true, c, z, v, n) == 1,
    decreases vmax,
{
    if vmax > 0 {
        lemma_sum_bounded(p, c, z, vmax - 1, n);
        assert(count_upto(p, true, c, z, vmax - 1, n) == 1);
        lemma_sum_full_means_ones(p, c, z, vmax - 1, n);
    }
}

/// Structural verification reports no cell exactly when no cell is bad.
pub proof fn lemma_bad_cells_empty(p: Puzzle, n: int)
    requires
        n >= 0,
    ensures
        (p.bad_cells(false, n).len() == 0) <==> (forall|i: int|
            0 <= i < n ==> !(#[trigger] p.struct_bad(i))),
    decreases n,
{
    if n > 0 {
        lemma_bad_cells_empty(p, n - 1);
    }
}

/// No-duplicate invariant: on a fully solved board that structural
/// verification clears, every value occurs exactly once in every regular
/// zone (a zone holding exactly `size` cells), for every zone table.
pub proof fn lemma_solved_clean_board_covers_zones(p: Puzzle, c: int, z: int)
    requires
        p.wf(),
        0 <= c < p.boxes@.len(),
        1 <= z <= p.size,
        forall|i: int| 0 <= i < p.size * p.size ==> p.solved@[i],
        p.bad_cells(false, (p.size * p.size) as int).len() == 0,
        zone_cells(p, c, z, (p.size * p.size) as int) == p.size,
    ensures
        forall|v: int| 0 <= v < p.size ==> zone_count(p, true, c, z, v) == 1,
{
    let n = (p.size * p.size) as int;
    lemma_bad_cells_empty(p, n);
    assert forall|v: int| 0 <= v < p.size implies #[trigger] count_upto(p, true, c, z, v, n)
        <= 1 by {
        if count_upto(p, true, c, z, v, n) >= 2 {
            lemma_count_pos_witness(p, true, c, z, v, n);
            let j = choose|j: int|
                0 <= j < n && (#[trigger] p.boxes@[c]@[j]) as int == z && contributes(p, true, j, v);
            assert(p.solved@[j] && low_bit(p.values@[j]) == v);
            assert(p.boxes@[c]@[j] != 0 && zone_count(
                p,
                true,
                c,
                p.boxes@[c]@[j] as int,
                low_bit(p.values@[j]),
            ) > 1);
            assert(p.struct_bad(j));
            assert(false);
        }
    }
    lemma_sum_is_zone_cells(p, c, z, n);
    lemma_sum_full_means_ones(p, c, z, p.size as int, n);
}

/// Occurrence counts see each contributing cell below the scan bound.
proof fn lemma_count_ge_one(p: Puzzle, os: bool, c: int, z: int, val: int, j: int, n: int)
    requires
        0 <= j < n,
        p.boxes@[c]@[j] as int == z,
        contributes(p, os, j, val),
    ensures
        count_upto(p, os, c, z, val, n) >= 1,
    decreases n,
{
    if j < n - 1 {
        lemma_count_ge_one(p, os, c, z, val, j, n - 1);
    }
}

/// Two distinct contributing cells push a count to at least two.
proof fn lemma_count_ge_two(p: Puzzle, os: bool, c: int, z: int, val: int, j1: int, j2: int, n: int)
    requires
        0 <= j1 < j2 < n,
        p.boxes@[c]@[j1] as int == z,
        p.boxes@[c]@[j2] as int == z,
        contributes(p, os, j1, val),
        contributes(p, os, j2, val),
    ensures
        count_upto(p, os, c, z, val, n) >= 2,
    decreases n,
{
    if j2 == n - 1 {
        lemma_count_ge_one(p, os, c, z, val, j1, n - 1);
    } else {
        lemma_count_ge_two(p, os, c, z, val, j1, j2, n - 1);
    }
}

/// A count whose only possible contributor is cell `i` stays at most one.
proof fn lemma_count_le_one(p: Puzzle, os: bool, c: int, z: int, val: int, i: int, n: int)
    requires
        forall|j: int|
            0 <= j < n && j != i ==> !((#[trigger] p.boxes@[c]@[j]) as int == z && contributes(
                p,
                os,
                j,
                val,
            )),
    ensures
        count_upto(p, os, c, z, val, n) <= 1,
    decreases n,
{
    if n > 0 {
        lemma_count_le_one(p, os, c, z, val, i, n - 1);
        if n - 1 == i {
            lemma_count_none(p, os, c, z, val, i, n - 1);
        }
    }
}

/// A count with no contributor below the bound is zero.
proof fn lemma_count_none(p: Puzzle, os: bool, c: int, z: int, val: int, i: int, n: int)
    requires
        forall|j: int|
            0 <= j < n && j != i ==> !((#[trigger] p.boxes@[c]@[j]) as int == z && contributes(
                p,
                os,
                j,
                val,
            )),
        i >= n,
    ensures
        count_upto(p, os, c, z, val, n) == 0,
    decreases n,
{
    if n > 0 {
        lemma_count_none(p, os, c, z, val, i, n - 1);
    }
}

/// An applied hidden single cannot create a duplicate: when the strategy
/// fires at `(i, c, val)` and the deduction is applied — cell `i` becomes
/// solved with the single-bit mask of `val` — the triggering zone holds
/// the value exactly once among solved cells.
pub proof fn lemma_hidden_single_sound(p: Puzzle, q: Puzzle, i: int, c: int, val: int)
    requires
        p.wf(),
        0 <= i < p.values@.len(),
        0 <= c < p.boxes@.len(),
        0 <= val < p.size,
        crate::hidden_single::hidden_at(p, i, c, val),
        q.size == p.size,
        q.boxes@ == p.boxes@,
        q.solved@.len() == p.solved@.len(),
        q.values@ == p.values@.update(i, 1u16 << (val as u16)),
        q.solved@ == p.solved@.update(i, true),
    ensures
        zone_count(q, true, c, p.boxes@[c]@[i] as int, val) == 1,
{
    let z = p.boxes@[c]@[i] as int;
    let n = (p.size * p.size) as int;
    crate::bits::lemma_low_bit_single(val as u16);
    assert forall|j: int|
        0 <= j < n && j != i implies !((#[trigger] q.boxes@[c]@[j]) as int == z && contributes(
        q,
        true,
        j,
        val,
    )) by {
        if q.boxes@[c]@[j] as int == z && contributes(q, true, j, val) {
            assert(p.solved@[j]);
            assert(low_bit(p.values@[j]) == val);
            crate::bits::lemma_ones_one(p.values@[j]);
            assert(contributes(p, false, j, val));
            assert(contributes(p, false, i, val));
            if j < i {
                lemma_count_ge_two(p, false, c, z, val, j, i, n);
            } else {
                lemma_count_ge_two(p, false, c, z, val, i, j, n);
            }
            assert(zone_count(p, false, c, z, val) >= 2);
        }
    }
    lemma_count_le_one(q, true, c, z, val, i, n);
    assert(contributes(q, true, i, val));
    lemma_count_ge_one(q, true, c, z, val, i, n);
}

/// How much of `0 .. n` lies inside the segment `lo .. hi`.
pub open spec fn seg_overlap(n: int, lo: int, hi: int) -> int {
    if n <= lo {
        0
    } else if n >= hi {
        hi - lo
    } else {
        n - lo
    }
}

/// The block-table schema: every standard zone table maps cell `i` to
/// `(s / w) * ((i / s) / h) + (i % s) / w + 1`, for a block of `h` rows and
/// `w` columns — rows are `h = 1, w = s`, columns `h = s, w = 1`, boxes
/// `h = side, w = side` (or `h = 2, w = s / 2`).
pub open spec fn block_zone(s: int, h: int, w: int, i: int) -> int {
    (s / w) * ((i / s) / h) + (i % s) / w + 1
}

/// Within one row, a zone of the block table gains exactly its column
/// segment's overlap.
proof fn lemma_block_row_segment(
    p: Puzzle,
    c: int,
    s: int,
    h: int,
    w: int,
    z: int,
    r: int,
    k: int,
)
    requires
        s >= 1,
        h >= 1,
        w >= 1,
        h * w == s,
        (s / w) * w == s,
        (s / h) * h == s,
        1 <= z <= s,
        0 <= r < s,
        0 <= k <= s,
        forall|i: int|
            0 <= i < s * s ==> (#[trigger] p.boxes@[c]@[i]) as int == block_zone(s, h, w, i),
    ensures
        zone_cells(p, c, z, r * s + k) as int == zone_cells(p, c, z, r * s) as int + (if r / h == (
        z - 1) / (s / w) {
            seg_overlap(k, ((z - 1) % (s / w)) * w, ((z - 1) % (s / w)) * w + w)
        } else {
            0
        }),
    decreases k,
{
    let big_w = s / w;
    let br = (z - 1) / big_w;
    let bc = (z - 1) % big_w;
    assert(big_w >= 1 && 0 <= bc < big_w && br >= 0 && z - 1 == big_w * br + bc)
        by (nonlinear_arith)
        requires
            s >= 1 && w >= 1 && big_w == s / w && big_w * w == s && 1 <= z <= s && br == (z - 1)
                / big_w && bc == (z - 1) % big_w,
    ;
    assert(bc * w >= 0 && bc * w + w <= s) by (nonlinear_arith)
        requires
            0 <= bc < big_w && w >= 1 && big_w * w == s,
    ;
    if k > 0 {
        lemma_block_row_segment(p, c, s, h, w, z, r, k - 1);
        let i = r * s + (k - 1);
        assert(0 <= i < s * s && i / s == r && i % s == k - 1) by (nonlinear_arith)
            requires
                s >= 1 && 0 <= k - 1 < s && 0 <= r < s && i == r * s + (k - 1),
        ;
        assert(p.boxes@[c]@[i] as int == big_w * (r / h) + (k - 1) / w + 1);
        let q = (k - 1) / w;
        assert(0 <= q < big_w) by (nonlinear_arith)
            requires
                w >= 1 && 0 <= k - 1 < s && big_w * w == s && q == (k - 1) / w,
        ;
        assert((big_w * (r / h) + q == big_w * br + bc) <==> (r / h == br && q == bc))
            by (nonlinear_arith)
            requires
                0 <= q < big_w && 0 <= bc < big_w && big_w >= 1 && r / h >= 0 && br >= 0,
        ;
        assert((q == bc) <==> (bc * w <= k - 1 < bc * w + w)) by (nonlinear_arith)
            requires
                w >= 1 && k - 1 >= 0 && q == (k - 1) / w,
        ;
    }
}

/// Over whole rows, a zone of the block table gains `w` cells per row of
/// its row band.
proof fn lemma_block_rows(p: Puzzle, c: int, s: int, h: int, w: int, z: int, r: int)
    requires
        s >= 1,
        h >= 1,
        w >= 1,
        h * w == s,
        (s / w) * w == s,
        (s / h) * h == s,
        1 <= z <= s,
        0 <= r <= s,
        forall|i: int|
            0 <= i < s * s ==> (#[trigger] p.boxes@[c]@[i]) as int == block_zone(s, h, w, i),
    ensures
        zone_cells(p, c, z, r * s) as int == seg_overlap(r, ((z - 1) / (s / w)) * h, ((z - 1) / (
        s / w)) * h + h) * w,
    decreases r,
{
    let big_w = s / w;
    let br = (z - 1) / big_w;
    let a = br * h;
    assert(big_w >= 1) by (nonlinear_arith)
        requires
            w >= 1 && s >= 1 && big_w == s / w && big_w * w == s,
    ;
    assert(br >= 0 && a >= 0 && a + h <= s) by (nonlinear_arith)
        requires
            h >= 1 && w >= 1 && big_w >= 1 && big_w * w == s && (s / h) * h == s && 1 <= z <= s
                && br == (z - 1) / big_w && a == br * h && h * w == s,
    ;
    if r > 0 {
        lemma_block_rows(p, c, s, h, w, z, r - 1);
        lemma_block_row_segment(p, c, s, h, w, z, r - 1, s);
        assert((r - 1) * s + s == r * s) by (nonlinear_arith);
        let bc = (z - 1) % big_w;
        assert(0 <= bc < big_w) by (nonlinear_arith)
            requires
                big_w >= 1 && bc == (z - 1) % big_w,
        ;
        assert(bc * w >= 0 && bc * w + w <= s) by (nonlinear_arith)
            requires
                0 <= bc < big_w && w >= 1 && big_w * w == s,
        ;
        assert(seg_overlap(s, bc * w, bc * w + w) == w);
        assert(((r - 1) / h == br) <==> (a <= r - 1 < a + h)) by (nonlinear_arith)
            requires
                h >= 1 && r - 1 >= 0 && br >= 0 && a == br * h,
        ;
        assert(zone_cells(p, c, z, (r - 1) * s + s) as int == zone_cells(p, c, z, (r - 1) * s)
            as int + (if (r - 1) / h == br {
            seg_overlap(s, bc * w, bc * w + w)
        } else {
            0
        }));
        assert(zone_cells(p, c, z, r * s) == zone_cells(p, c, z, (r - 1) * s + s));
        let ov0 = seg_overlap(r - 1, a, a + h);
        let ov1 = seg_overlap(r, a, a + h);
        assert(zone_cells(p, c, z, (r - 1) * s) as int == ov0 * w);
        if a <= r - 1 < a + h {
            assert(ov1 == ov0 + 1);
            assert(ov1 * w == ov0 * w + w) by (nonlinear_arith)
                requires
                    ov1 == ov0 + 1,
            ;
            assert(zone_cells(p, c, z, r * s) as int == ov1 * w);
        } else {
            assert(ov1 == ov0);
            assert(zone_cells(p, c, z, r * s) as int == ov1 * w);
        }
    } else {
        assert(r * s == 0) by (nonlinear_arith)
            requires
                r == 0,
        ;
        assert(zone_cells(p, c, z, 0) == 0);
        assert(seg_overlap(0, a, a + h) == 0);
        assert(seg_overlap(0, a, a + h) * w == 0) by (nonlinear_arith)
            requires
                seg_overlap(0, a, a + h) == 0,
        ;
    }
}

/// Every zone of a block table holds exactly `s` cells.
pub proof fn lemma_block_table_regular(p: Puzzle, c: int, s: int, h: int, w: int, z: int)
    requires
        s >= 1,
        h >= 1,
        w >= 1,
        h * w == s,
        (s / w) * w == s,
        (s / h) * h == s,
        1 <= z <= s,
        forall|i: int|
            0 <= i < s * s ==> (#[trigger] p.boxes@[c]@[i]) as int == block_zone(s, h, w, i),
    ensures
        zone_cells(p, c, z, s * s) as int == s,
{
    lemma_block_rows(p, c, s, h, w, z, s);
    let big_w = s / w;
    let br = (z - 1) / big_w;
    assert(br * h >= 0 && br * h + h <= s) by (nonlinear_arith)
        requires
            h >= 1 && w >= 1 && big_w == s / w && big_w * w == s && (s / h) * h == s && 1 <= z <= s
                && br == (z - 1) / big_w && h * w == s,
    ;
    assert(seg_overlap(s, br * h, br * h + h) == h);
    assert(h * w == s);
}

/// The three generated standard tables are regular: each zone of the row,
/// column and box table holds exactly `size` cells.
pub proof fn lemma_standard_tables_regular(p: Puzzle, c: int, z: int)
    requires
        p.wf(),
        p.standard_tables(),
        0 <= c < 3,
        1 <= z <= p.size,
    ensures
        zone_cells(p, c, z, (p.size * p.size) as int) as int == p.size as int,
{
    let s = p.size as int;
    crate::lemma_size_bound(s);
    if c == 0 {
        assert forall|i: int| 0 <= i < s * s implies p.boxes@[0]@[i] as int == block_zone(
            s,
            1,
            s,
            i,
        ) by {
            assert(s / s == 1 && (i / s) / 1 == i / s && (i % s) / s == 0) by (nonlinear_arith)
                requires
                    s >= 1 && 0 <= i,
            ;
        }
        assert(1 * s == s && (s / s) * s == s && (s / 1) * 1 == s) by (nonlinear_arith)
            requires
                s >= 1,
        ;
        lemma_block_table_regular(p, 0, s, 1, s, z);
    } else if c == 1 {
        assert forall|i: int| 0 <= i < s * s implies p.boxes@[1]@[i] as int == block_zone(
            s,
            s,
            1,
            i,
        ) by {
            assert((i / s) / s == 0 && (i % s) / 1 == i % s && s / 1 == s) by (nonlinear_arith)
                requires
                    s >= 1 && 0 <= i < s * s,
            ;
        }
        assert(s * 1 == s && (s / 1) * 1 == s && (s / s) * s == s) by (nonlinear_arith)
            requires
                s >= 1,
        ;
        lemma_block_table_regular(p, 1, s, s, 1, z);
    } else {
        let h: int = if s == 6 || s == 8 {
            2
        } else {
            crate::box_side(s)
        };
        let w: int = if s == 6 || s == 8 {
            s / 2
        } else {
            crate::box_side(s)
        };
        assert forall|i: int| 0 <= i < s * s implies p.boxes@[2]@[i] as int == block_zone(
            s,
            h,
            w,
            i,
        ) by {
            assert(crate::box_zone(s, i) == (s / w) * ((i / s) / h) + (i % s) / w + 1);
        }
        assert(h * w == s && (s / w) * w == s && (s / h) * h == s);
        lemma_block_table_regular(p, 2, s, h, w, z);
    }
}

/// No-duplicate invariant for standard boards: on a fully solved board
/// with the generated row, column and box tables, a clean structural
/// verification means every value occurs exactly once in every zone of
/// every table.
pub proof fn lemma_no_duplicates_standard(p: Puzzle, c: int, z: int)
    requires
        p.wf(),
        p.standard_tables(),
        0 <= c < 3,
        1 <= z <= p.size,
        forall|i: int| 0 <= i < p.size * p.size ==> p.solved@[i],
        p.bad_cells(false, (p.size * p.size) as int).len() == 0,
    ensures
        forall|v: int| 0 <= v < p.size ==> zone_count(p, true, c, z, v) == 1,
{
    lemma_standard_tables_regular(p, c, z);
    lemma_solved_clean_board_covers_zones(p, c, z);
}

} // verus!
