//! Rotation-invariant comparison of angle sequences.
//!
//! A traced shape and a configured gesture pattern are both ordered
//! sequences of direction angles, in thousandths of a degree.  Their
//! dissimilarity is measured by sliding the pattern through every cyclic
//! rotation, summing the elementwise circular angular distances at each
//! offset, and keeping the smallest sum.  The result is normalized to
//! thousandths of the largest possible mean distance, so identical shapes
//! (up to the point where sampling began) score 0 and maximally dissimilar
//! shapes score [`SCORE_SCALE`].  Matching is therefore invariant to where
//! along the drawn path sampling started, but not to scale, mirroring, or
//! the direction of tracing.

use vstd::arithmetic::div_mod::lemma_div_is_ordered;
use vstd::arithmetic::div_mod::lemma_div_multiples_vanish;
use vstd::arithmetic::div_mod::lemma_fundamental_div_mod;
use vstd::arithmetic::div_mod::lemma_fundamental_div_mod_converse;
use vstd::arithmetic::div_mod::lemma_mod_bound;
use vstd::arithmetic::div_mod::lemma_small_mod;
use vstd::arithmetic::mul::lemma_mul_inequality;
use vstd::arithmetic::mul::lemma_mul_is_commutative;
use vstd::arithmetic::mul::lemma_mul_is_distributive_add_other_way;
use vstd::arithmetic::mul::lemma_mul_strictly_positive;
use vstd::prelude::*;

verus! {

/// A full circle, in thousandths of a degree.
pub const CIRCLE: u64 = 360_000;

/// Half a circle: the largest circular distance between two angles.
pub const HALF_CIRCLE: u64 = 180_000;

/// Dissimilarity scores run from 0 (identical up to rotation) to
/// `SCORE_SCALE` (every sample half a circle away).
pub const SCORE_SCALE: u64 = 1000;

/// Circular distance between two angles: the shorter way around the
/// circle, at most [`HALF_CIRCLE`].
pub open spec fn circ_dist(a: u64, b: u64) -> int {
    let x = (a as int) % (CIRCLE as int);
    let y = (b as int) % (CIRCLE as int);
    let d = if x >= y { x - y } else { y - x };
    if d > HALF_CIRCLE as int {
        CIRCLE as int - d
    } else {
        d
    }
}

pub proof fn lemma_circ_dist_bounds(a: u64, b: u64)
    ensures
        0 <= circ_dist(a, b) <= HALF_CIRCLE as int,
{
    lemma_mod_bound(a as int, CIRCLE as int);
    lemma_mod_bound(b as int, CIRCLE as int);
}

/// Distance contributed by sample `k` when the pattern is rotated by
/// `off`: the event angle at `k` is paired with the pattern angle at
/// `(k + off) mod pattern.len()`.
pub open spec fn pair_dist(e: Seq<u64>, p: Seq<u64>, off: int, k: int) -> int
    recommends
        p.len() > 0,
        0 <= k < e.len(),
{
    circ_dist(e[k], p[(k + off) % (p.len() as int)])
}

/// Sum of the paired distances of the first `k` samples at rotation `off`.
pub open spec fn offset_sum(e: Seq<u64>, p: Seq<u64>, off: int, k: int) -> int
    recommends
        p.len() > 0,
        0 <= k <= e.len(),
    decreases k,
{
    if k <= 0 {
        0
    } else {
        offset_sum(e, p, off, k - 1) + pair_dist(e, p, off, k - 1)
    }
}

pub proof fn lemma_offset_sum_bounds(e: Seq<u64>, p: Seq<u64>, off: int, k: int)
    requires
        p.len() > 0,
        0 <= k <= e.len(),
    ensures
        0 <= offset_sum(e, p, off, k) <= k * (HALF_CIRCLE as int),
    decreases k,
{
    if k > 0 {
        lemma_offset_sum_bounds(e, p, off, k - 1);
        lemma_circ_dist_bounds(e[k - 1], p[(k - 1 + off) % (p.len() as int)]);
    }
}

/// Smallest aggregate distance over the rotations `0 .. n_off`.
pub open spec fn best_offset_sum(e: Seq<u64>, p: Seq<u64>, n_off: int) -> int
    recommends
        p.len() > 0,
        1 <= n_off,
    decreases n_off,
{
    if n_off <= 1 {
        offset_sum(e, p, 0, e.len() as int)
    } else {
        let prev = best_offset_sum(e, p, n_off - 1);
        let cur = offset_sum(e, p, n_off - 1, e.len() as int);
        if cur < prev {
            cur
        } else {
            prev
        }
    }
}

pub proof fn lemma_best_offset_sum_bounds(e: Seq<u64>, p: Seq<u64>, n_off: int)
    requires
        p.len() > 0,
        1 <= n_off,
    ensures
        0 <= best_offset_sum(e, p, n_off) <= e.len() * (HALF_CIRCLE as int),
    decreases n_off,
{
    if n_off <= 1 {
        lemma_offset_sum_bounds(e, p, 0, e.len() as int);
    } else {
        lemma_best_offset_sum_bounds(e, p, n_off - 1);
        lemma_offset_sum_bounds(e, p, n_off - 1, e.len() as int);
    }
}

/// The best rotation is no worse than any tested rotation.
pub proof fn lemma_best_offset_sum_is_min(e: Seq<u64>, p: Seq<u64>, n_off: int, off: int)
    requires
        p.len() > 0,
        0 <= off < n_off,
    ensures
        best_offset_sum(e, p, n_off) <= offset_sum(e, p, off, e.len() as int),
    decreases n_off,
{
    if n_off > 1 && off < n_off - 1 {
        lemma_best_offset_sum_is_min(e, p, n_off - 1, off);
    }
}

/// The dissimilarity score of a traced shape against a pattern: the best
/// aggregate distance over all rotations of the pattern, normalized to
/// thousandths of the maximal mean distance.
pub open spec fn shape_score(e: Seq<u64>, p: Seq<u64>) -> int
    recommends
        e.len() > 0,
        p.len() > 0,
{
    best_offset_sum(e, p, p.len() as int) * (SCORE_SCALE as int) / (e.len() * (HALF_CIRCLE as int))
}

/// A score never leaves `0 ..= SCORE_SCALE`, whatever the shape and
/// pattern lengths.
pub proof fn lemma_shape_score_bounds(e: Seq<u64>, p: Seq<u64>)
    requires
        e.len() > 0,
        p.len() > 0,
    ensures
        0 <= shape_score(e, p) <= SCORE_SCALE as int,
{
    let best = best_offset_sum(e, p, p.len() as int);
    let den = e.len() * (HALF_CIRCLE as int);
    lemma_best_offset_sum_bounds(e, p, p.len() as int);
    lemma_mul_strictly_positive(e.len() as int, HALF_CIRCLE as int);
    lemma_mul_inequality(best, den, SCORE_SCALE as int);
    lemma_div_is_ordered(best * (SCORE_SCALE as int), den * (SCORE_SCALE as int), den);
    lemma_mul_is_commutative(den, SCORE_SCALE as int);
    lemma_div_multiples_vanish(SCORE_SCALE as int, den);
    vstd::arithmetic::div_mod::lemma_div_pos_is_pos(best * (SCORE_SCALE as int), den);
    lemma_mul_inequality(0, best, SCORE_SCALE as int);
}

fn circ_dist_exec(a: u64, b: u64) -> (d: u64)
    ensures
        d as int == circ_dist(a, b),
        d <= HALF_CIRCLE,
{
    let x = a % CIRCLE;
    let y = b % CIRCLE;
    proof {
        lemma_mod_bound(a as int, CIRCLE as int);
        lemma_mod_bound(b as int, CIRCLE as int);
    }
    let diff = if x >= y {
        x - y
    } else {
        y - x
    };
    if diff > HALF_CIRCLE {
        CIRCLE - diff
    } else {
        diff
    }
}

/// After `(a + 1)`, a running remainder modulo `m` either steps by one or
/// wraps to zero.
proof fn lemma_mod_step(a: int, m: int)
    requires
        m > 0,
        a >= 0,
    ensures
        (a + 1) % m == if a % m + 1 == m {
            0int
        } else {
            a % m + 1
        },
{
    lemma_fundamental_div_mod(a, m);
    lemma_mod_bound(a, m);
    let q = a / m;
    let r = a % m;
    lemma_mul_is_commutative(m, q);
    assert(a == q * m + r);
    if r + 1 == m {
        lemma_mul_is_distributive_add_other_way(m, q, 1);
        assert((q + 1) * m == q * m + 1 * m);
        lemma_fundamental_div_mod_converse(a + 1, m, q + 1, 0);
    } else {
        lemma_fundamental_div_mod_converse(a + 1, m, q, r + 1);
    }
}

fn offset_sum_exec(shape: &Vec<u64>, pattern: &Vec<u64>, off: usize) -> (sum: u128)
    requires
        pattern.len() > 0,
        off < pattern.len(),
    ensures
        sum as int == offset_sum(shape@, pattern@, off as int, shape@.len() as int),
        sum as int <= shape@.len() * (HALF_CIRCLE as int),
{
    let mut sum: u128 = 0;
    let mut j: usize = off;
    let mut k: usize = 0;
    proof {
        lemma_small_mod(off as nat, pattern@.len() as nat);
    }
    while k < shape.len()
        invariant
            pattern.len() > 0,
            off < pattern.len(),
            k <= shape.len(),
            j < pattern.len(),
            j as int == (off + k) % (pattern@.len() as int),
            sum as int == offset_sum(shape@, pattern@, off as int, k as int),
            sum as int <= k * (HALF_CIRCLE as int),
        decreases shape.len() - k,
    {
        let d = circ_dist_exec(shape[k], pattern[j]);
        proof {
            lemma_mul_inequality(k as int, shape@.len() as int, HALF_CIRCLE as int);
            lemma_mul_inequality(shape@.len() as int, usize::MAX as int, HALF_CIRCLE as int);
            assert(pair_dist(shape@, pattern@, off as int, k as int) == d as int);
            assert(offset_sum(shape@, pattern@, off as int, k as int + 1) == offset_sum(
                shape@,
                pattern@,
                off as int,
                k as int,
            ) + pair_dist(shape@, pattern@, off as int, k as int));
            lemma_mod_step(off as int + k as int, pattern@.len() as int);
        }
        sum = sum + (d as u128);
        j = if j + 1 == pattern.len() {
            0
        } else {
            j + 1
        };
        k = k + 1;
        proof {
            lemma_mul_inequality(1, k as int, HALF_CIRCLE as int);
        }
    }
    sum
}

/// Dissimilarity of a traced shape against a configured pattern, over the
/// best cyclic rotation of the pattern.
pub fn compare_angles_with_offset(shape: &Vec<u64>, pattern: &Vec<u64>) -> (score: u64)
    requires
        shape.len() > 0,
        pattern.len() > 0,
    ensures
        score as int == shape_score(shape@, pattern@),
        score <= SCORE_SCALE,
{
    let mut best: u128 = offset_sum_exec(shape, pattern, 0);
    let mut off: usize = 1;
    while off < pattern.len()
        invariant
            shape.len() > 0,
            pattern.len() > 0,
            1 <= off <= pattern.len(),
            best as int == best_offset_sum(shape@, pattern@, off as int),
            best as int <= shape@.len() * (HALF_CIRCLE as int),
        decreases pattern.len() - off,
    {
        let s = offset_sum_exec(shape, pattern, off);
        if s < best {
            best = s;
        }
        off = off + 1;
    }
    proof {
        lemma_best_offset_sum_bounds(shape@, pattern@, pattern@.len() as int);
        lemma_mul_strictly_positive(shape@.len() as int, HALF_CIRCLE as int);
        lemma_mul_inequality(shape@.len() as int, u64::MAX as int, HALF_CIRCLE as int);
        lemma_mul_inequality(
            best as int,
            shape@.len() * (HALF_CIRCLE as int),
            SCORE_SCALE as int,
        );
        lemma_div_is_ordered(
            best as int * (SCORE_SCALE as int),
            (shape@.len() * (HALF_CIRCLE as int)) * (SCORE_SCALE as int),
            shape@.len() * (HALF_CIRCLE as int),
        );
        lemma_mul_is_commutative(shape@.len() * (HALF_CIRCLE as int), SCORE_SCALE as int);
        lemma_div_multiples_vanish(SCORE_SCALE as int, shape@.len() * (HALF_CIRCLE as int));
    }
    let num: u128 = best * (SCORE_SCALE as u128);
    let den: u128 = (shape.len() as u128) * (HALF_CIRCLE as u128);
    let q: u128 = num / den;
    q as u64
}

} // verus!
