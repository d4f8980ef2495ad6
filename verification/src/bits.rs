//! Candidate masks are `u16` bit sets: bit `v` set means value `v + 1` is a
//! live candidate of the cell. This module gives the mask its mathematical
//! model (`has_bit`, `num_set`) and the executable primitives over it.
use vstd::prelude::*;

verus! {

use vstd::std_specs::bits::u16_trailing_zeros;

/// Bit `i` of mask `v`: value `i + 1` is a live candidate.
pub open spec fn has_bit(v: u16, i: int) -> bool {
    0 <= i < 16 && (v >> (i as u16)) & 1 == 1
}

/// How many bits of `v` are set among positions `0 .. n`.
pub open spec fn num_set(v: u16, n: int) -> nat
    decreases n,
{
    if n <= 0 {
        0
    } else {
        num_set(v, n - 1) + if has_bit(v, n - 1) {
            1nat
        } else {
            0nat
        }
    }
}

/// Number of live candidates of mask `v`.
pub open spec fn ones(v: u16) -> nat {
    num_set(v, 16)
}

/// Index of the lowest set bit (16 when the mask is empty); for a solved
/// cell's single-bit mask this is the solved value minus one.
pub open spec fn low_bit(v: u16) -> int {
    u16_trailing_zeros(v) as int
}

pub proof fn lemma_bit_single(k: u16, i: u16)
    requires
        k < 16,
        i < 16,
    ensures
        has_bit(1u16 << k, i as int) <==> i == k,
{
    assert((((1u16 << k) >> i) & 1 == 1) <==> i == k) by (bit_vector)
        requires
            k < 16 && i < 16,
    ;
}

pub proof fn lemma_bit_or(a: u16, b: u16, i: u16)
    requires
        i < 16,
    ensures
        has_bit(a | b, i as int) <==> (has_bit(a, i as int) || has_bit(b, i as int)),
{
    assert((((a | b) >> i) & 1 == 1) <==> ((a >> i) & 1 == 1 || (b >> i) & 1 == 1))
        by (bit_vector);
}

pub proof fn lemma_bit_and(a: u16, b: u16, i: u16)
    requires
        i < 16,
    ensures
        has_bit(a & b, i as int) <==> (has_bit(a, i as int) && has_bit(b, i as int)),
{
    assert((((a & b) >> i) & 1 == 1) <==> ((a >> i) & 1 == 1 && (b >> i) & 1 == 1))
        by (bit_vector);
}

pub proof fn lemma_bit_xor(a: u16, b: u16, i: u16)
    requires
        i < 16,
    ensures
        has_bit(a ^ b, i as int) <==> (has_bit(a, i as int) != has_bit(b, i as int)),
{
    assert((((a ^ b) >> i) & 1 == 1) <==> !(((a >> i) & 1 == 1) <==> ((b >> i) & 1 == 1)))
        by (bit_vector);
}

/// A mask's bit reads as exactly 0 or 1.
pub proof fn lemma_bit01(v: u16, i: u16)
    ensures
        ((v >> i) & 1 == 0) <==> !((v >> i) & 1 == 1),
{
    assert(((v >> i) & 1 == 0) <==> !((v >> i) & 1 == 1)) by (bit_vector);
}

pub proof fn lemma_num_set_bound(v: u16, n: int)
    ensures
        num_set(v, n) <= if n <= 0 {
            0int
        } else {
            n
        },
    decreases n,
{
    if n > 0 {
        lemma_num_set_bound(v, n - 1);
    }
}

/// A single-bit mask counts exactly one below `n` as soon as `n` passes the bit.
pub proof fn lemma_num_set_single(k: u16, n: int)
    requires
        k < 16,
        n <= 16,
    ensures
        num_set(1u16 << k, n) == if k < n {
            1nat
        } else {
            0nat
        },
    decreases n,
{
    if n > 0 {
        lemma_num_set_single(k, n - 1);
        if n - 1 < 16 {
            lemma_bit_single(k, (n - 1) as u16);
        }
    }
}

pub proof fn lemma_num_set_zero(n: int)
    ensures
        num_set(0u16, n) == 0,
    decreases n,
{
    if n > 0 {
        lemma_num_set_zero(n - 1);
        let k = (n - 1) as u16;
        assert((0u16 >> k) & 1 == 0) by (bit_vector);
    }
}

/// Counting ignores a top range of clear bits.
pub proof fn lemma_num_set_split(v: u16, lo: int, hi: int)
    requires
        0 <= lo <= hi,
        forall|b: int| lo <= b < hi ==> !has_bit(v, b),
    ensures
        num_set(v, hi) == num_set(v, lo),
    decreases hi,
{
    if hi > lo {
        lemma_num_set_split(v, lo, hi - 1);
    }
}

/// A mask with two distinct set bits counts at least two.
pub proof fn lemma_num_set_two(v: u16, i: int, j: int, n: int)
    requires
        0 <= i < j < n,
        has_bit(v, i),
        has_bit(v, j),
    ensures
        num_set(v, n) >= 2,
    decreases n,
{
    if j == n - 1 {
        lemma_num_set_ge_one(v, i, n - 1);
    } else {
        lemma_num_set_two(v, i, j, n - 1);
    }
}

/// A mask with a set bit below `n` counts at least one.
pub proof fn lemma_num_set_ge_one(v: u16, i: int, n: int)
    requires
        0 <= i < n,
        has_bit(v, i),
    ensures
        num_set(v, n) >= 1,
    decreases n,
{
    if i < n - 1 {
        lemma_num_set_ge_one(v, i, n - 1);
    }
}

/// The trailing-zero count of a non-empty mask names its lowest set bit.
pub proof fn lemma_low_bit(v: u16)
    requires
        v != 0,
    ensures
        0 <= low_bit(v) < 16,
        has_bit(v, low_bit(v)),
        forall|j: int| 0 <= j < low_bit(v) ==> !has_bit(v, j),
{
    vstd::std_specs::bits::axiom_u16_trailing_zeros(v);
    assert forall|j: int| 0 <= j < low_bit(v) implies !has_bit(v, j) by {
        assert((v >> (j as u16)) & 1 == 0);
    }
}

/// An empty mask has no set bit; a mask whose bits below 16 are all clear is empty.
pub proof fn lemma_zero_mask(v: u16)
    ensures
        (v == 0) <==> (forall|i: int| 0 <= i < 16 ==> !has_bit(v, i)),
{
    if v != 0 {
        lemma_low_bit(v);
    } else {
        assert forall|i: int| 0 <= i < 16 implies !has_bit(0u16, i) by {
            let k = i as u16;
            assert((0u16 >> k) & 1 == 0) by (bit_vector);
        }
    }
}

/// The lowest set bit of a single-bit mask is that bit.
pub proof fn lemma_low_bit_single(k: u16)
    requires
        k < 16,
    ensures
        low_bit(1u16 << k) == k as int,
{
    let v = 1u16 << k;
    assert(v != 0) by (bit_vector)
        requires
            v == 1u16 << k && k < 16,
    ;
    lemma_low_bit(v);
    lemma_bit_single(k, low_bit(v) as u16);
}

/// A mask with exactly one candidate is the single-bit mask of its lowest bit.
pub proof fn lemma_ones_one(v: u16)
    requires
        ones(v) == 1,
    ensures
        v != 0,
        forall|j: int| 0 <= j < 16 && j != low_bit(v) ==> !has_bit(v, j),
        has_bit(v, low_bit(v)),
{
    lemma_num_set_zero(16);
    assert(v != 0);
    lemma_low_bit(v);
    assert forall|j: int| 0 <= j < 16 && j != low_bit(v) implies !has_bit(v, j) by {
        if has_bit(v, j) {
            if j < low_bit(v) {
                lemma_num_set_two(v, j, low_bit(v), 16);
            } else {
                lemma_num_set_two(v, low_bit(v), j, 16);
            }
        }
    }
}

/// Count the live candidates of a cell mask.
pub fn popcount(v: u16) -> (r: u32)
    ensures
        r == ones(v),
{
    proof {
        lemma_num_set_bound(v, 16);
    }
    let mut r: u32 = 0;
    let mut i: u16 = 0;
    while i < 16
        invariant
            i <= 16,
            r == num_set(v, i as int),
            r <= i,
        decreases 16 - i,
    {
        if (v >> i) & 1 == 1 {
            r = r + 1;
        }
        i = i + 1;
    }
    r
}

} // verus!
