//! Trap synthesis: for each touching pair, the pixels of the upper plate
//! that lie within the trap distance of the lower plate.

use crate::boundary::{is_touching_pairs, pair_lt, plates_fit, plates_touch, touching_pairs};
use crate::distance::{distance_field, is_grid_distance, UNREACHED};
use crate::grid::{in_grid, lemma_px_in_bounds, lemma_xy_of, px, steps};
use crate::mask::{any_on, has_on};
use vstd::prelude::*;

verus! {

/// Some painted pixel of `m` is at most `t` grid steps from `(x, y)`.
pub open spec fn near_paint(m: Seq<u8>, w: int, h: int, x: int, y: int, t: int) -> bool {
    exists|x2: int, y2: int|
        in_grid(w, h, x2, y2) && #[trigger] m[px(w, x2, y2)] != 0 && steps(x, y, x2, y2) <= t
}

/// The trap bit of pixel `(x, y)`: painted in `upper` and within `t` steps
/// of `lower`.
pub open spec fn trap_bit(lower: Seq<u8>, upper: Seq<u8>, w: int, h: int, t: int, x: int, y: int) -> u8 {
    if upper[px(w, x, y)] != 0 && near_paint(lower, w, h, x, y, t) {
        1
    } else {
        0
    }
}

/// `r` is the trap mask of `upper` over `lower` at trap distance `t`.
pub open spec fn is_trap_mask(lower: Seq<u8>, upper: Seq<u8>, w: int, h: int, t: int, r: Seq<u8>) -> bool {
    &&& r.len() == w * h
    &&& forall|x: int, y: int|
        in_grid(w, h, x, y) ==> #[trigger] r[px(w, x, y)] == trap_bit(lower, upper, w, h, t, x, y)
}

/// The trap of `upper` over `lower` at distance `t` marks some pixel.
pub open spec fn trap_nonempty(lower: Seq<u8>, upper: Seq<u8>, w: int, h: int, t: int) -> bool {
    exists|x: int, y: int| in_grid(w, h, x, y) && #[trigger] trap_bit(lower, upper, w, h, t, x, y) == 1
}

/// The trap synthesized for one canonical pair of plates.
pub struct Trap {
    pub lower: usize,
    pub upper: usize,
    pub mask: Vec<u8>,
}

/// `r` holds, in increasing order of their pairs, one trap for each
/// touching canonical pair whose trap marks some pixel, and nothing else.
pub open spec fn is_trap_list(plates: Seq<Vec<u8>>, w: int, h: int, t: int, r: Seq<Trap>) -> bool {
    &&& forall|k: int|
        0 <= k < r.len() ==> {
            let tr = #[trigger] r[k];
            &&& tr.lower < tr.upper < plates.len()
            &&& plates_touch(plates, w, h, tr.lower as int, tr.upper as int)
            &&& is_trap_mask(plates[tr.lower as int]@, plates[tr.upper as int]@, w, h, t, tr.mask@)
            &&& has_on(tr.mask@)
        }
    &&& forall|k: int, l: int|
        0 <= k < l < r.len() ==> pair_lt(((#[trigger] r[k]).lower, r[k].upper), ((#[trigger] r[l]).lower, r[l].upper))
    &&& forall|a: int, b: int|
        0 <= a < b < plates.len() && plates_touch(plates, w, h, a, b) && #[trigger] trap_nonempty(
            plates[a]@,
            plates[b]@,
            w,
            h,
            t,
        ) ==> exists|k: int| 0 <= k < r.len() && (#[trigger] r[k]).lower == a && r[k].upper == b
}

/// The trap distance in effect: the override where one is given, negative
/// values counting as zero, and the job's tolerance otherwise.
pub fn effective_trap_distance(override_px: Option<i32>, tolerance: u32) -> (r: u32)
    ensures
        r == match override_px {
            Some(p) => if p < 0 { 0 } else { p as u32 },
            None => tolerance,
        },
{
    match override_px {
        Some(p) => if p < 0 { 0 } else { p as u32 },
        None => tolerance,
    }
}

/// A grid distance is within `t` exactly where some painted pixel is.
proof fn lemma_distance_within(m: Seq<u8>, w: int, h: int, x: int, y: int, v: int, t: int)
    requires
        is_grid_distance(m, w, h, x, y, v),
        in_grid(w, h, x, y),
        w <= u32::MAX,
        h <= u32::MAX,
        0 <= t <= u32::MAX,
    ensures
        (v <= t) == near_paint(m, w, h, x, y, t),
{
    if v <= t {
        if v == UNREACHED {
        } else {
            let (x2, y2) = choose|x2: int, y2: int|
                in_grid(w, h, x2, y2) && #[trigger] m[px(w, x2, y2)] != 0 && v == steps(x, y, x2, y2);
            assert(m[px(w, x2, y2)] != 0 && steps(x, y, x2, y2) <= t);
        }
    }
    if near_paint(m, w, h, x, y, t) {
        let (x2, y2) = choose|x2: int, y2: int|
            in_grid(w, h, x2, y2) && #[trigger] m[px(w, x2, y2)] != 0 && steps(x, y, x2, y2) <= t;
        assert(v <= steps(x, y, x2, y2));
    }
}

/// Marks each pixel painted in `upper` whose distance in `dist` is at most
/// `trap_px`.
pub fn trap_mask(upper: &[u8], dist: &[u64], trap_px: u32) -> (r: Vec<u8>)
    requires
        upper@.len() == dist@.len(),
    ensures
        r@.len() == upper@.len(),
        forall|i: int|
            0 <= i < r@.len() ==> #[trigger] r@[i] == if upper@[i] != 0 && dist@[i] <= trap_px {
                1u8
            } else {
                0u8
            },
{
    let mut r: Vec<u8> = Vec::new();
    let mut i: usize = 0;
    while i < upper.len()
        invariant
            upper@.len() == dist@.len(),
            i <= upper@.len(),
            r@.len() == i,
            forall|k: int|
                0 <= k < i ==> #[trigger] r@[k] == if upper@[k] != 0 && dist@[k] <= trap_px {
                    1u8
                } else {
                    0u8
                },
        decreases upper@.len() - i,
    {
        let b: u8 = if upper[i] != 0 && dist[i] <= trap_px as u64 { 1 } else { 0 };
        r.push(b);
        i += 1;
    }
    r
}

/// The trap of `upper` over `lower`: the pixels of `upper` within
/// `trap_px` grid steps of a painted pixel of `lower`.
pub fn synthesize_trap(lower: &[u8], upper: &[u8], w: u32, h: u32, trap_px: u32) -> (r: Vec<u8>)
    requires
        lower@.len() == w * h,
        upper@.len() == w * h,
    ensures
        is_trap_mask(lower@, upper@, w as int, h as int, trap_px as int, r@),
{
    let dist = distance_field(lower, w, h);
    let r = trap_mask(upper, dist.as_slice(), trap_px);
    proof {
        assert forall|x: int, y: int| in_grid(w as int, h as int, x, y) implies #[trigger] r@[px(w as int, x, y)]
            == trap_bit(lower@, upper@, w as int, h as int, trap_px as int, x, y) by {
            lemma_px_in_bounds(w as int, h as int, x, y);
            lemma_distance_within(
                lower@,
                w as int,
                h as int,
                x,
                y,
                dist@[px(w as int, x, y)] as int,
                trap_px as int,
            );
        }
    }
    r
}


/// A trap mask marks some pixel exactly when its trap is nonempty.
pub proof fn lemma_trap_mask_nonempty(lower: Seq<u8>, upper: Seq<u8>, w: int, h: int, t: int, r: Seq<u8>)
    requires
        0 <= w,
        0 <= h,
        is_trap_mask(lower, upper, w, h, t, r),
    ensures
        has_on(r) == trap_nonempty(lower, upper, w, h, t),
{
    if has_on(r) {
        let i = choose|i: int| 0 <= i < r.len() && r[i] != 0;
        let (x, y) = lemma_xy_of(w, h, i);
        assert(r[px(w, x, y)] == trap_bit(lower, upper, w, h, t, x, y));
    }
    if trap_nonempty(lower, upper, w, h, t) {
        let (x, y) = choose|x: int, y: int| in_grid(w, h, x, y) && #[trigger] trap_bit(lower, upper, w, h, t, x, y) == 1;
        lemma_px_in_bounds(w, h, x, y);
        assert(r[px(w, x, y)] != 0);
    }
}

/// Runs the trapping computation over all plates: detects the touching
/// pairs and keeps, in increasing pair order, each nonempty trap.
pub fn compute_traps(plates: &Vec<Vec<u8>>, w: u32, h: u32, trap_px: u32) -> (r: Vec<Trap>)
    requires
        plates_fit(plates@, w as int, h as int),
    ensures
        is_trap_list(plates@, w as int, h as int, trap_px as int, r@),
{
    let pairs = touching_pairs(plates, w, h);
    let ghost ps = plates@;
    let ghost (wi, hi, t) = (w as int, h as int, trap_px as int);
    let mut r: Vec<Trap> = Vec::new();
    let mut k: usize = 0;
    while k < pairs.len()
        invariant
            ps == plates@,
            wi == w,
            hi == h,
            t == trap_px,
            plates_fit(ps, wi, hi),
            is_touching_pairs(ps, wi, hi, pairs@),
            k <= pairs@.len(),
            forall|m: int|
                0 <= m < r@.len() ==> {
                    let tr = #[trigger] r@[m];
                    &&& tr.lower < tr.upper < ps.len()
                    &&& plates_touch(ps, wi, hi, tr.lower as int, tr.upper as int)
                    &&& is_trap_mask(ps[tr.lower as int]@, ps[tr.upper as int]@, wi, hi, t, tr.mask@)
                    &&& has_on(tr.mask@)
                    &&& exists|j: int| 0 <= j < k && #[trigger] pairs@[j] == (tr.lower, tr.upper)
                },
            forall|m: int, l: int|
                0 <= m < l < r@.len() ==> pair_lt(
                    ((#[trigger] r@[m]).lower, r@[m].upper),
                    ((#[trigger] r@[l]).lower, r@[l].upper),
                ),
            forall|j: int|
                0 <= j < k && #[trigger] trap_nonempty(
                    ps[pairs@[j].0 as int]@,
                    ps[pairs@[j].1 as int]@,
                    wi,
                    hi,
                    t,
                ) ==> exists|m: int|
                    0 <= m < r@.len() && (#[trigger] r@[m]).lower == pairs@[j].0 && r@[m].upper == pairs@[j].1,
        decreases pairs@.len() - k,
    {
        let (lower, upper) = pairs[k];
        assert(pairs@[k as int] == (lower, upper));
        let mask = synthesize_trap(plates[lower].as_slice(), plates[upper].as_slice(), w, h, trap_px);
        proof {
            lemma_trap_mask_nonempty(ps[lower as int]@, ps[upper as int]@, wi, hi, t, mask@);
        }
        if any_on(mask.as_slice()) {
            let ghost before = r@;
            r.push(Trap { lower, upper, mask });
            proof {
                let n = before.len() as int;
                assert(r@[n].lower == lower && r@[n].upper == upper);
                assert forall|m: int| 0 <= m < n implies pair_lt(
                    ((#[trigger] r@[m]).lower, r@[m].upper),
                    (lower, upper),
                ) by {
                    assert(r@[m] == before[m]);
                    let j = choose|j: int| 0 <= j < k && #[trigger] pairs@[j] == (before[m].lower, before[m].upper);
                    assert(pair_lt(pairs@[j], pairs@[k as int]));
                }
                assert forall|m: int|
                    0 <= m < r@.len() implies exists|j: int|
                        0 <= j < k + 1 && #[trigger] pairs@[j] == ((#[trigger] r@[m]).lower, r@[m].upper) by {
                    if m < n {
                        assert(r@[m] == before[m]);
                        let j = choose|j: int| 0 <= j < k && #[trigger] pairs@[j] == (before[m].lower, before[m].upper);
                        assert(pairs@[j] == (r@[m].lower, r@[m].upper));
                    } else {
                        assert(pairs@[k as int] == (r@[m].lower, r@[m].upper));
                    }
                }
                assert forall|j: int|
                    0 <= j < k + 1 && #[trigger] trap_nonempty(
                        ps[pairs@[j].0 as int]@,
                        ps[pairs@[j].1 as int]@,
                        wi,
                        hi,
                        t,
                    ) implies exists|m: int|
                        0 <= m < r@.len() && (#[trigger] r@[m]).lower == pairs@[j].0 && r@[m].upper == pairs@[j].1 by {
                    if j < k {
                        let m = choose|m: int|
                            0 <= m < before.len() && (#[trigger] before[m]).lower == pairs@[j].0 && before[m].upper
                                == pairs@[j].1;
                        assert(r@[m] == before[m]);
                    } else {
                        assert(r@[n].lower == pairs@[j].0);
                    }
                }
            }
        }
        k += 1;
    }
    proof {
        assert forall|a: int, b: int|
            0 <= a < b < ps.len() && plates_touch(ps, wi, hi, a, b) && #[trigger] trap_nonempty(
                ps[a]@,
                ps[b]@,
                wi,
                hi,
                t,
            ) implies exists|m: int| 0 <= m < r@.len() && (#[trigger] r@[m]).lower == a && r@[m].upper == b by {
            let j = choose|j: int| 0 <= j < pairs@.len() && (#[trigger] pairs@[j]).0 == a && pairs@[j].1 == b;
            assert(trap_nonempty(ps[pairs@[j].0 as int]@, ps[pairs@[j].1 as int]@, wi, hi, t));
        }
    }
    r
}

} // verus!
