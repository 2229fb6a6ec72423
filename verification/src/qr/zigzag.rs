//! The order in which data runs through a symbol: two-module columns walked
//! from the right edge, alternating up and down, skipping the vertical timing
//! column and every function pattern.

use super::grid::side;
use super::patterns::is_function;
use vstd::prelude::*;

verus! {

/// How many two-module columns there are.
pub open spec fn pairs(version: int) -> int {
    (side(version) - 1) / 2
}

/// The right-hand column of the `k`-th pair, counted from the right edge.
pub open spec fn pair_col(version: int, k: int) -> int {
    let c = side(version) - 1 - 2 * k;
    if c > 6 {
        c
    } else {
        c - 1
    }
}

/// The row reached after `i` steps in the `k`-th pair: even pairs go up.
pub open spec fn pair_row(version: int, k: int, i: int) -> int {
    if k % 2 == 0 {
        side(version) - 1 - i
    } else {
        i
    }
}

/// The right or the left module of a step, alone if it can carry data.
pub open spec fn half_step(version: int, k: int, i: int, left: int) -> Seq<(int, int)> {
    let at = (pair_row(version, k, i), pair_col(version, k) - left);
    if is_function(version, at.0, at.1) {
        seq![]
    } else {
        seq![at]
    }
}

/// The modules that carry data in the first `i` steps of the `k`-th pair.
pub open spec fn pair_order(version: int, k: int, i: int) -> Seq<(int, int)>
    decreases i,
{
    if i <= 0 {
        seq![]
    } else {
        pair_order(version, k, i - 1) + half_step(version, k, i - 1, 0) + half_step(
            version,
            k,
            i - 1,
            1,
        )
    }
}

/// The modules that carry data in the first `k` pairs.
pub open spec fn pairs_order(version: int, k: int) -> Seq<(int, int)>
    decreases k,
{
    if k <= 0 {
        seq![]
    } else {
        pairs_order(version, k - 1) + pair_order(version, k - 1, side(version))
    }
}

/// Every module that carries data, as (row, column), in the order of the bits.
pub open spec fn data_order(version: int) -> Seq<(int, int)> {
    pairs_order(version, pairs(version))
}

/// How far from the right edge a column is, the timing column not counted.
pub open spec fn column_rank(version: int, c: int) -> int {
    if c > 6 {
        side(version) - 1 - c
    } else {
        side(version) - 2 - c
    }
}

/// Whether the walk has passed a module when it stands before the right (0) or
/// the left (1) module of step `i` of pair `k`.
pub open spec fn passed(version: int, k: int, i: int, left: int, at: (int, int)) -> bool {
    let d = column_rank(version, at.1);
    let step = if (d / 2) % 2 == 0 {
        side(version) - 1 - at.0
    } else {
        at.0
    };
    at.1 != 6 && (d / 2 < k || (d / 2 == k && (step < i || (step == i && d % 2 < left))))
}

/// Whether a position is a module of the symbol that carries data.
pub open spec fn carries_data(version: int, at: (int, int)) -> bool {
    &&& 0 <= at.0 < side(version)
    &&& 0 <= at.1 < side(version)
    &&& !is_function(version, at.0, at.1)
}

/// The part of the walk that lies before the right (0) or the left (1) module of
/// step `i` of pair `k`.
pub open spec fn walked(version: int, k: int, i: int, left: int) -> Seq<(int, int)> {
    let before = pairs_order(version, k) + pair_order(version, k, i);
    if left == 0 {
        before
    } else {
        before + half_step(version, k, i, 0)
    }
}

pub proof fn lemma_walk_step(version: int, k: int, i: int)
    requires
        version >= 1,
        0 <= k < pairs(version),
        0 <= i < side(version),
    ensures
        walked(version, k, i, 1) == walked(version, k, i, 0) + half_step(version, k, i, 0),
        walked(version, k, i + 1, 0) == walked(version, k, i, 1) + half_step(version, k, i, 1),
{
    assert(walked(version, k, i + 1, 0) =~= walked(version, k, i, 1) + half_step(
        version,
        k,
        i,
        1,
    ));
}

pub proof fn lemma_walk_pair(version: int, k: int)
    requires
        version >= 1,
        0 <= k < pairs(version),
    ensures
        walked(version, k + 1, 0, 0) == walked(version, k, side(version), 0),
        walked(version, 0, 0, 0) == Seq::<(int, int)>::empty(),
{
    assert(walked(version, k + 1, 0, 0) =~= walked(version, k, side(version), 0));
    assert(walked(version, 0, 0, 0) =~= Seq::<(int, int)>::empty());
}

/// Where the walk stands is inside the symbol, has not been passed, and is what
/// is passed next.
pub proof fn lemma_step_position(version: int, k: int, i: int, left: int)
    requires
        version >= 1,
        0 <= k < pairs(version),
        0 <= i < side(version),
        0 <= left <= 1,
    ensures
        ({
            let at = (pair_row(version, k, i), pair_col(version, k) - left);
            &&& 0 <= at.0 < side(version)
            &&& 0 <= at.1 < side(version)
            &&& at.1 != 6
            &&& !passed(version, k, i, left, at)
            &&& column_rank(version, at.1) == 2 * k + left
            &&& forall|p: (int, int)|
                #![trigger passed(version, k, i, left, p)]
                0 <= p.0 < side(version) && 0 <= p.1 < side(version) ==> (if left == 0 {
                    passed(version, k, i, 1, p)
                } else {
                    passed(version, k, i + 1, 0, p)
                }) == (passed(version, k, i, left, p) || p == at)
        }),
{
    let at = (pair_row(version, k, i), pair_col(version, k) - left);
    assert(column_rank(version, at.1) == 2 * k + left);
    assert forall|p: (int, int)|
        #![trigger passed(version, k, i, left, p)]
        0 <= p.0 < side(version) && 0 <= p.1 < side(version) implies (if left == 0 {
        passed(version, k, i, 1, p)
    } else {
        passed(version, k, i + 1, 0, p)
    }) == (passed(version, k, i, left, p) || p == at) by {
        let d = column_rank(version, p.1);
        if p.1 != 6 && d == 2 * k + left {
            assert(p.1 == at.1);
        }
    }
}

pub proof fn lemma_pair_position(version: int, k: int)
    requires
        version >= 1,
        0 <= k < pairs(version),
    ensures
        forall|p: (int, int)|
            #![trigger passed(version, k + 1, 0, 0, p)]
            0 <= p.0 < side(version) && 0 <= p.1 < side(version) ==> passed(
                version,
                k + 1,
                0,
                0,
                p,
            ) == passed(version, k, side(version), 0, p),
{
}

/// What the walk has gone through is exactly what carries data and was passed,
/// each module once.
pub open spec fn walk_invariant(version: int, k: int, i: int, left: int) -> bool {
    let w = walked(version, k, i, left);
    &&& w.no_duplicates()
    &&& forall|p: (int, int)| #[trigger]
        w.contains(p) <==> carries_data(version, p) && passed(version, k, i, left, p)
}

proof fn lemma_extend_walk(
    w: Seq<(int, int)>,
    h: Seq<(int, int)>,
    at: (int, int),
    p: (int, int),
)
    requires
        h.len() == 0 || h == seq![at],
    ensures
        (w + h).contains(p) <==> w.contains(p) || (h.len() == 1 && p == at),
{
    let x = w + h;
    if w.contains(p) {
        let j = choose|j: int| 0 <= j < w.len() && w[j] == p;
        assert(x[j] == p);
    }
    if h.len() == 1 && p == at {
        assert(x[w.len() as int] == p);
    }
    if x.contains(p) {
        let j = choose|j: int| 0 <= j < x.len() && x[j] == p;
        if j < w.len() {
            assert(w[j] == p);
        }
    }
}

proof fn lemma_walk_invariant_step(version: int, k: int, i: int, left: int)
    requires
        version >= 1,
        0 <= k < pairs(version),
        0 <= i < side(version),
        0 <= left <= 1,
        walk_invariant(version, k, i, left),
    ensures
        left == 0 ==> walk_invariant(version, k, i, 1),
        left == 1 ==> walk_invariant(version, k, i + 1, 0),
{
    let w = walked(version, k, i, left);
    let h = half_step(version, k, i, left);
    let at = (pair_row(version, k, i), pair_col(version, k) - left);
    lemma_walk_step(version, k, i);
    lemma_step_position(version, k, i, left);
    let i2 = if left == 0 { i } else { i + 1 };
    let left2 = 1 - left;
    let x = walked(version, k, i2, left2);
    assert(x == w + h);
    assert(!w.contains(at));
    assert(x.no_duplicates()) by {
        assert forall|a: int, b: int| 0 <= a < x.len() && 0 <= b < x.len() && a != b implies x[a]
            != x[b] by {
            if a < w.len() && b < w.len() {
                assert(w[a] != w[b]);
            } else if a < w.len() {
                assert(w.contains(w[a]));
            } else if b < w.len() {
                assert(w.contains(w[b]));
            }
        }
    }
    assert forall|p: (int, int)| #[trigger] x.contains(p) <==> carries_data(version, p) && passed(
        version,
        k,
        i2,
        left2,
        p,
    ) by {
        lemma_extend_walk(w, h, at, p);
        assert(w.contains(p) <==> carries_data(version, p) && passed(version, k, i, left, p));
        if h.len() == 1 {
            assert(carries_data(version, at));
        }
    }
}

proof fn lemma_walk_invariant_pair(version: int, k: int, i: int)
    requires
        version >= 1,
        0 <= k < pairs(version),
        0 <= i <= side(version),
        walk_invariant(version, k, 0, 0),
    ensures
        walk_invariant(version, k, i, 0),
    decreases i,
{
    if i > 0 {
        lemma_walk_invariant_pair(version, k, i - 1);
        lemma_walk_invariant_step(version, k, i - 1, 0);
        lemma_walk_invariant_step(version, k, i - 1, 1);
    }
}

/// The invariant holds at every place of a pair.
pub proof fn lemma_walk_invariant_within(version: int, k: int, i: int, left: int)
    requires
        version >= 1,
        0 <= k < pairs(version),
        0 <= i < side(version),
        0 <= left <= 1,
        walk_invariant(version, k, 0, 0),
    ensures
        walk_invariant(version, k, i, left),
{
    lemma_walk_invariant_pair(version, k, i);
    lemma_walk_invariant_step(version, k, i, 0);
}

pub proof fn lemma_walk_invariant(version: int, k: int)
    requires
        version >= 1,
        0 <= k <= pairs(version),
    ensures
        walk_invariant(version, k, 0, 0),
    decreases k,
{
    if k == 0 {
        let w = walked(version, 0, 0, 0);
        assert(w =~= Seq::<(int, int)>::empty());
        assert forall|p: (int, int)| #[trigger] w.contains(p) <==> carries_data(version, p)
            && passed(version, 0, 0, 0, p) by {
            if carries_data(version, p) && p.1 != 6 {
                assert(column_rank(version, p.1) >= 0);
            }
        }
    } else {
        lemma_walk_invariant(version, k - 1);
        lemma_walk_invariant_pair(version, k - 1, side(version));
        lemma_walk_pair(version, k - 1);
        lemma_pair_position(version, k - 1);
        let w = walked(version, k, 0, 0);
        assert forall|p: (int, int)| #[trigger] w.contains(p) <==> carries_data(version, p)
            && passed(version, k, 0, 0, p) by {
            assert(walked(version, k - 1, side(version), 0).contains(p) <==> carries_data(
                version,
                p,
            ) && passed(version, k - 1, side(version), 0, p));
        }
    }
}

/// The data order visits every module that carries data, and each only once.
pub proof fn lemma_data_order(version: int)
    requires
        version >= 1,
    ensures
        data_order(version).no_duplicates(),
        forall|p: (int, int)| #[trigger]
            data_order(version).contains(p) <==> carries_data(version, p),
{
    let k = pairs(version);
    lemma_walk_invariant(version, k);
    assert(walked(version, k, 0, 0) =~= data_order(version));
    assert forall|p: (int, int)| #[trigger] data_order(version).contains(p) <==> carries_data(
        version,
        p,
    ) by {
        if carries_data(version, p) {
            assert(p.1 != 6);
            assert(passed(version, k, 0, 0, p));
        }
    }
}

} // verus!
