//! Properties of the trapping computation that hold for every input.

use crate::boundary::{lemma_masks_touch_symmetric, masks_touch, pair_lt, plates_touch};
use crate::distance::{is_grid_distance, UNREACHED};
use crate::grid::{in_grid, lemma_xy_of, px, steps};
use crate::trap::{is_trap_list, is_trap_mask, lemma_trap_mask_nonempty, near_paint, trap_bit, Trap};
use vstd::prelude::*;

verus! {

/// No trap is produced for two plates without neighbouring painted pixels.
pub proof fn lemma_apart_plates_no_trap(
    plates: Seq<Vec<u8>>,
    w: int,
    h: int,
    t: int,
    r: Seq<Trap>,
    a: int,
    b: int,
)
    requires
        is_trap_list(plates, w, h, t, r),
        0 <= a < plates.len(),
        0 <= b < plates.len(),
        !masks_touch(plates[a]@, plates[b]@, w, h),
    ensures
        forall|k: int|
            0 <= k < r.len() ==> !((#[trigger] r[k]).lower == a && r[k].upper == b) && !(r[k].lower == b
                && r[k].upper == a),
{
    lemma_masks_touch_symmetric(plates[a]@, plates[b]@, w, h);
    assert forall|k: int| 0 <= k < r.len() implies !((#[trigger] r[k]).lower == a && r[k].upper == b) && !(
    r[k].lower == b && r[k].upper == a) by {
        assert(plates_touch(plates, w, h, r[k].lower as int, r[k].upper as int));
    }
}

/// Every pixel that a trap marks is painted in its upper plate.
pub proof fn lemma_trap_inside_upper(lower: Seq<u8>, upper: Seq<u8>, w: int, h: int, t: int, r: Seq<u8>)
    requires
        is_trap_mask(lower, upper, w, h, t, r),
    ensures
        forall|x: int, y: int|
            in_grid(w, h, x, y) && #[trigger] r[px(w, x, y)] != 0 ==> upper[px(w, x, y)] != 0,
{
}

/// The distance is zero on every painted pixel of the source.
pub proof fn lemma_distance_zero_on_paint(m: Seq<u8>, w: int, h: int, x: int, y: int, v: int)
    requires
        is_grid_distance(m, w, h, x, y, v),
        in_grid(w, h, x, y),
        m[px(w, x, y)] != 0,
    ensures
        v == 0,
{
    assert(v <= steps(x, y, x, y));
    if v != UNREACHED {
        let (x2, y2) = choose|x2: int, y2: int|
            in_grid(w, h, x2, y2) && #[trigger] m[px(w, x2, y2)] != 0 && v == steps(x, y, x2, y2);
    }
}

/// The distance is at least one on every unpainted pixel of the source.
pub proof fn lemma_distance_positive_off_paint(m: Seq<u8>, w: int, h: int, x: int, y: int, v: int)
    requires
        is_grid_distance(m, w, h, x, y, v),
        in_grid(w, h, x, y),
        m[px(w, x, y)] == 0,
    ensures
        v >= 1,
{
    if exists|x2: int, y2: int|
        in_grid(w, h, x2, y2) && #[trigger] m[px(w, x2, y2)] != 0 && v == steps(x, y, x2, y2) {
        let (x2, y2) = choose|x2: int, y2: int|
            in_grid(w, h, x2, y2) && #[trigger] m[px(w, x2, y2)] != 0 && v == steps(x, y, x2, y2);
        if x2 == x && y2 == y {
            assert(m[px(w, x2, y2)] == m[px(w, x, y)]);
        }
    }
}

/// One up, down, left or right step changes the distance by at most one:
/// moving a step away from the nearest painted pixel adds exactly the step.
pub proof fn lemma_distance_step(
    m: Seq<u8>,
    w: int,
    h: int,
    x1: int,
    y1: int,
    v1: int,
    x2: int,
    y2: int,
    v2: int,
)
    requires
        is_grid_distance(m, w, h, x1, y1, v1),
        is_grid_distance(m, w, h, x2, y2, v2),
        in_grid(w, h, x1, y1),
        in_grid(w, h, x2, y2),
        steps(x1, y1, x2, y2) == 1,
    ensures
        v2 <= v1 + 1,
        v1 <= v2 + 1,
{
    if exists|xs: int, ys: int|
        in_grid(w, h, xs, ys) && #[trigger] m[px(w, xs, ys)] != 0 && v1 == steps(x1, y1, xs, ys) {
        let (xs, ys) = choose|xs: int, ys: int|
            in_grid(w, h, xs, ys) && #[trigger] m[px(w, xs, ys)] != 0 && v1 == steps(x1, y1, xs, ys);
        assert(v2 <= steps(x2, y2, xs, ys));
    }
    if exists|xs: int, ys: int|
        in_grid(w, h, xs, ys) && #[trigger] m[px(w, xs, ys)] != 0 && v2 == steps(x2, y2, xs, ys) {
        let (xs, ys) = choose|xs: int, ys: int|
            in_grid(w, h, xs, ys) && #[trigger] m[px(w, xs, ys)] != 0 && v2 == steps(x2, y2, xs, ys);
        assert(v1 <= steps(x1, y1, xs, ys));
    }
}

/// A larger trap distance only adds pixels to a trap, never removes any.
pub proof fn lemma_trap_monotone(
    lower: Seq<u8>,
    upper: Seq<u8>,
    w: int,
    h: int,
    t1: int,
    t2: int,
    r1: Seq<u8>,
    r2: Seq<u8>,
)
    requires
        t1 <= t2,
        is_trap_mask(lower, upper, w, h, t1, r1),
        is_trap_mask(lower, upper, w, h, t2, r2),
    ensures
        forall|x: int, y: int|
            in_grid(w, h, x, y) && #[trigger] r1[px(w, x, y)] != 0 ==> r2[px(w, x, y)] != 0,
{
    assert forall|x: int, y: int| in_grid(w, h, x, y) && #[trigger] r1[px(w, x, y)] != 0 implies r2[px(
        w,
        x,
        y,
    )] != 0 by {
        assert(trap_bit(lower, upper, w, h, t1, x, y) == 1);
        let (x2, y2) = choose|x2: int, y2: int|
            in_grid(w, h, x2, y2) && #[trigger] lower[px(w, x2, y2)] != 0 && steps(x, y, x2, y2) <= t1;
        assert(near_paint(lower, w, h, x, y, t2));
    }
}

/// The pair of plates a trap belongs to.
pub open spec fn trap_pair(tr: Trap) -> (usize, usize) {
    (tr.lower, tr.upper)
}

/// Some trap of `r` belongs to the pair `p`.
pub open spec fn contains_pair(r: Seq<Trap>, p: (usize, usize)) -> bool {
    exists|j: int| 0 <= j < r.len() && trap_pair(#[trigger] r[j]) == p
}

/// Two strictly increasing lists over the same pairs agree up to `k`.
proof fn lemma_sorted_prefix(r1: Seq<Trap>, r2: Seq<Trap>, k: int)
    requires
        forall|i: int, j: int|
            0 <= i < j < r1.len() ==> pair_lt(trap_pair(#[trigger] r1[i]), trap_pair(#[trigger] r1[j])),
        forall|i: int, j: int|
            0 <= i < j < r2.len() ==> pair_lt(trap_pair(#[trigger] r2[i]), trap_pair(#[trigger] r2[j])),
        forall|i: int| 0 <= i < r1.len() ==> contains_pair(r2, trap_pair(#[trigger] r1[i])),
        forall|j: int| 0 <= j < r2.len() ==> contains_pair(r1, trap_pair(#[trigger] r2[j])),
        0 <= k <= r1.len(),
    ensures
        k <= r2.len(),
        forall|i: int| 0 <= i < k ==> trap_pair(#[trigger] r1[i]) == trap_pair(r2[i]),
    decreases k,
{
    if k > 0 {
        let c = k - 1;
        lemma_sorted_prefix(r1, r2, c);
        assert(contains_pair(r2, trap_pair(r1[c])));
        let j = choose|j: int| 0 <= j < r2.len() && trap_pair(#[trigger] r2[j]) == trap_pair(r1[c]);
        if j < c {
            assert(trap_pair(r1[j]) == trap_pair(r2[j]));
            assert(pair_lt(trap_pair(r1[j]), trap_pair(r1[c])));
        }
        if j > c {
            assert(contains_pair(r1, trap_pair(r2[c])));
            let i = choose|i: int| 0 <= i < r1.len() && trap_pair(#[trigger] r1[i]) == trap_pair(r2[c]);
            assert(pair_lt(trap_pair(r2[c]), trap_pair(r2[j])));
            if i < c {
                assert(trap_pair(r1[i]) == trap_pair(r2[i]));
                assert(pair_lt(trap_pair(r2[i]), trap_pair(r2[c])));
            } else if i > c {
                assert(pair_lt(trap_pair(r1[c]), trap_pair(r1[i])));
            }
        }
    }
}

/// Computing the traps twice on the same plates and trap distance gives the
/// same list: the same pairs in the same order, with pixel-for-pixel equal
/// masks.
pub proof fn lemma_traps_deterministic(plates: Seq<Vec<u8>>, w: int, h: int, t: int, r1: Seq<Trap>, r2: Seq<Trap>)
    requires
        0 <= w,
        0 <= h,
        is_trap_list(plates, w, h, t, r1),
        is_trap_list(plates, w, h, t, r2),
    ensures
        r1.len() == r2.len(),
        forall|k: int|
            0 <= k < r1.len() ==> (#[trigger] r1[k]).lower == r2[k].lower && r1[k].upper == r2[k].upper
                && r1[k].mask@ == r2[k].mask@,
{
    assert forall|i: int| 0 <= i < r1.len() implies contains_pair(r2, trap_pair(#[trigger] r1[i])) by {
        let tr = r1[i];
        lemma_trap_mask_nonempty(plates[tr.lower as int]@, plates[tr.upper as int]@, w, h, t, tr.mask@);
        let j = choose|j: int| 0 <= j < r2.len() && (#[trigger] r2[j]).lower == tr.lower && r2[j].upper == tr.upper;
        assert(trap_pair(r1[i]) == trap_pair(r2[j]));
    }
    assert forall|j: int| 0 <= j < r2.len() implies contains_pair(r1, trap_pair(#[trigger] r2[j])) by {
        let tr = r2[j];
        lemma_trap_mask_nonempty(plates[tr.lower as int]@, plates[tr.upper as int]@, w, h, t, tr.mask@);
        let i = choose|i: int| 0 <= i < r1.len() && (#[trigger] r1[i]).lower == tr.lower && r1[i].upper == tr.upper;
        assert(trap_pair(r1[i]) == trap_pair(r2[j]));
    }
    lemma_sorted_prefix(r1, r2, r1.len() as int);
    if r2.len() > r1.len() {
        let c = r1.len() as int;
        assert(contains_pair(r1, trap_pair(r2[c])));
        let i = choose|i: int| 0 <= i < r1.len() && trap_pair(#[trigger] r1[i]) == trap_pair(r2[c]);
        assert(trap_pair(r1[i]) == trap_pair(r2[i]));
        assert(pair_lt(trap_pair(r2[i]), trap_pair(r2[c])));
    }
    assert forall|k: int| 0 <= k < r1.len() implies (#[trigger] r1[k]).lower == r2[k].lower && r1[k].upper
        == r2[k].upper && r1[k].mask@ == r2[k].mask@ by {
        assert(trap_pair(r1[k]) == trap_pair(r2[k]));
        let (m1, m2) = (r1[k].mask@, r2[k].mask@);
        let (lo, up) = (plates[r1[k].lower as int]@, plates[r1[k].upper as int]@);
        assert forall|i: int| 0 <= i < m1.len() implies m1[i] == m2[i] by {
            let (x, y) = lemma_xy_of(w, h, i);
            assert(m1[px(w, x, y)] == trap_bit(lo, up, w, h, t, x, y));
        }
        assert(m1 =~= m2);
    }
}

} // verus!
