//! How many modules of a symbol carry data.

use super::grid::side;
use super::zigzag::{data_order, half_step, pair_order, pairs, pairs_order};
use vstd::prelude::*;

verus! {

/// How many modules of one step of a pair carry data.
spec fn step_len(version: int, k: int, i: int) -> int {
    half_step(version, k, i, 0).len() + half_step(version, k, i, 1).len() as int
}

/// Steps that each add `q` modules add `q` times their number.
proof fn lemma_steps(version: int, k: int, a: int, b: int, q: int)
    requires
        0 <= a <= b,
        forall|i: int| a <= i < b ==> #[trigger] step_len(version, k, i) == q,
    ensures
        pair_order(version, k, b).len() == pair_order(version, k, a).len() + q * (b - a),
    decreases b - a,
{
    if a < b {
        lemma_steps(version, k, a, b - 1, q);
        assert(step_len(version, k, b - 1) == q);
        assert(q * (b - a) == q * (b - 1 - a) + q) by (nonlinear_arith);
    } else {
        assert(q * (b - a) == 0) by (nonlinear_arith)
            requires
                a == b,
        ;
    }
}

/// The two pairs at the right edge: everything under the finder.
proof fn lemma_right_pair(version: int, k: int)
    requires
        version >= 1,
        0 <= k < 2 || (version == 1 && 0 <= k < 4),
    ensures
        pair_order(version, k, side(version)).len() == 2 * (side(version) - 9),
{
    let n = side(version);
    assert(pair_order(version, k, 0).len() == 0);
    if k % 2 == 0 {
        lemma_steps(version, k, 0, n - 9, 2);
        lemma_steps(version, k, n - 9, n, 0);
    } else {
        lemma_steps(version, k, 0, 9, 0);
        lemma_steps(version, k, 9, n, 2);
    }
}

/// The two pairs that the alignment pattern cuts through.
proof fn lemma_alignment_pair(version: int, k: int)
    requires
        version >= 2,
        2 <= k < 4,
    ensures
        pair_order(version, k, side(version)).len() == 2 * (side(version) - 14),
{
    let n = side(version);
    assert(pair_order(version, k, 0).len() == 0);
    if k % 2 == 0 {
        lemma_steps(version, k, 0, 4, 2);
        lemma_steps(version, k, 4, 9, 0);
        lemma_steps(version, k, 9, n - 9, 2);
        lemma_steps(version, k, n - 9, n, 0);
    } else {
        lemma_steps(version, k, 0, 9, 0);
        lemma_steps(version, k, 9, n - 9, 2);
        lemma_steps(version, k, n - 9, n - 4, 0);
        lemma_steps(version, k, n - 4, n, 2);
    }
}

/// A pair in the middle: all but the row of the timing pattern, and half of what
/// the edge of the alignment pattern touches.
proof fn lemma_middle_pair(version: int, k: int)
    requires
        version >= 1,
        4 <= k < 4 + 2 * version,
    ensures
        pair_order(version, k, side(version)).len() == 2 * (side(version) - 1) - (if version >= 2
            && k == 4 {
            5int
        } else {
            0int
        }),
{
    let n = side(version);
    assert(pair_order(version, k, 0).len() == 0);
    if k % 2 == 0 {
        if version >= 2 && k == 4 {
            lemma_steps(version, k, 0, 4, 2);
            lemma_steps(version, k, 4, 9, 1);
            lemma_steps(version, k, 9, n - 7, 2);
        } else {
            lemma_steps(version, k, 0, n - 7, 2);
        }
        lemma_steps(version, k, n - 7, n - 6, 0);
        lemma_steps(version, k, n - 6, n, 2);
    } else {
        lemma_steps(version, k, 0, 6, 2);
        lemma_steps(version, k, 6, 7, 0);
        lemma_steps(version, k, 7, n, 2);
    }
}

/// The four pairs at the left edge: what lies between the two finders.
proof fn lemma_left_pair(version: int, k: int)
    requires
        version >= 1,
        4 + 2 * version <= k < 8 + 2 * version,
    ensures
        pair_order(version, k, side(version)).len() == 2 * (side(version) - 17),
{
    let n = side(version);
    assert(pair_order(version, k, 0).len() == 0);
    if k % 2 == 0 {
        lemma_steps(version, k, 0, 8, 0);
        lemma_steps(version, k, 8, n - 9, 2);
        lemma_steps(version, k, n - 9, n, 0);
    } else {
        lemma_steps(version, k, 0, 9, 0);
        lemma_steps(version, k, 9, n - 8, 2);
        lemma_steps(version, k, n - 8, n, 0);
    }
}

proof fn lemma_middle_pairs(version: int, k: int)
    requires
        version >= 1,
        5 <= k <= 4 + 2 * version,
    ensures
        pairs_order(version, k).len() == pairs_order(version, 5).len() + (k - 5) * (2 * (side(
            version,
        ) - 1)),
    decreases k,
{
    let q = 2 * (side(version) - 1);
    if k > 5 {
        lemma_middle_pairs(version, k - 1);
        lemma_middle_pair(version, k - 1);
        assert((k - 5) * q == (k - 6) * q + q) by (nonlinear_arith);
    } else {
        assert((k - 5) * q == 0) by (nonlinear_arith)
            requires
                k == 5,
        ;
    }
}

/// The number of modules that carry data, for each version.
pub open spec fn data_modules(version: int) -> int {
    if version == 1 {
        208
    } else if version == 2 {
        359
    } else if version == 3 {
        567
    } else if version == 4 {
        807
    } else {
        1079
    }
}

/// The walk through the symbol meets that many modules.
pub proof fn lemma_data_modules(version: int)
    requires
        1 <= version <= 5,
    ensures
        data_order(version).len() == data_modules(version),
{
    reveal_with_fuel(pairs_order, 6);
    lemma_right_pair(version, 0);
    lemma_right_pair(version, 1);
    if version == 1 {
        lemma_right_pair(version, 2);
        lemma_right_pair(version, 3);
    } else {
        lemma_alignment_pair(version, 2);
        lemma_alignment_pair(version, 3);
    }
    lemma_middle_pair(version, 4);
    lemma_middle_pairs(version, 4 + 2 * version);
    let m = 4 + 2 * version;
    lemma_left_pair(version, m);
    lemma_left_pair(version, m + 1);
    lemma_left_pair(version, m + 2);
    lemma_left_pair(version, m + 3);
    assert(pairs(version) == m + 4);
    assert(pairs_order(version, m + 1).len() == pairs_order(version, m).len() + 2 * (side(version)
        - 17));
    assert(pairs_order(version, m + 2).len() == pairs_order(version, m + 1).len() + 2 * (side(
        version,
    ) - 17));
    assert(pairs_order(version, m + 3).len() == pairs_order(version, m + 2).len() + 2 * (side(
        version,
    ) - 17));
    assert(pairs_order(version, m + 4).len() == pairs_order(version, m + 3).len() + 2 * (side(
        version,
    ) - 17));
    let q = 2 * (side(version) - 1);
    let p = (m - 5) * q;
    assert(version == 1 ==> p == 40) by (nonlinear_arith)
        requires
            p == (m - 5) * q,
            m == 4 + 2 * version,
            q == 2 * (16 + 4 * version),
    ;
    assert(version == 2 ==> p == 144) by (nonlinear_arith)
        requires
            p == (m - 5) * q,
            m == 4 + 2 * version,
            q == 2 * (16 + 4 * version),
    ;
    assert(version == 3 ==> p == 280) by (nonlinear_arith)
        requires
            p == (m - 5) * q,
            m == 4 + 2 * version,
            q == 2 * (16 + 4 * version),
    ;
    assert(version == 4 ==> p == 448) by (nonlinear_arith)
        requires
            p == (m - 5) * q,
            m == 4 + 2 * version,
            q == 2 * (16 + 4 * version),
    ;
    assert(version == 5 ==> p == 648) by (nonlinear_arith)
        requires
            p == (m - 5) * q,
            m == 4 + 2 * version,
            q == 2 * (16 + 4 * version),
    ;
}

} // verus!
