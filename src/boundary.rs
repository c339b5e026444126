//! Boundary detection: which pairs of plates have painted pixels that are
//! neighbours, diagonals included.

use crate::grid::{adjacent8, in_grid, lemma_px_in_bounds, px};
use vstd::prelude::*;

verus! {

/// Some painted pixel of `ma` has a painted pixel of `mb` among its eight
/// neighbours on the `w` by `h` grid.
pub open spec fn masks_touch(ma: Seq<u8>, mb: Seq<u8>, w: int, h: int) -> bool {
    exists|x1: int, y1: int, x2: int, y2: int|
        in_grid(w, h, x1, y1) && in_grid(w, h, x2, y2) && adjacent8(x1, y1, x2, y2)
            && #[trigger] ma[px(w, x1, y1)] != 0 && #[trigger] mb[px(w, x2, y2)] != 0
}

/// Every plate is a mask of `w * h` pixels.
pub open spec fn plates_fit(plates: Seq<Vec<u8>>, w: int, h: int) -> bool {
    forall|i: int| 0 <= i < plates.len() ==> (#[trigger] plates[i])@.len() == w * h
}

/// Plates `a` and `b` are distinct and touch.
pub open spec fn plates_touch(plates: Seq<Vec<u8>>, w: int, h: int, a: int, b: int) -> bool {
    &&& a != b
    &&& masks_touch(plates[a]@, plates[b]@, w, h)
}

/// `p` comes strictly before `q` in lexicographic order.
pub open spec fn pair_lt(p: (usize, usize), q: (usize, usize)) -> bool {
    p.0 < q.0 || (p.0 == q.0 && p.1 < q.1)
}

/// `r` lists, in strictly increasing lexicographic order, exactly the
/// canonical pairs `(lower, upper)`, `lower < upper`, of touching plates.
pub open spec fn is_touching_pairs(plates: Seq<Vec<u8>>, w: int, h: int, r: Seq<(usize, usize)>) -> bool {
    &&& forall|k: int|
        0 <= k < r.len() ==> (#[trigger] r[k]).0 < r[k].1 < plates.len()
            && plates_touch(plates, w, h, r[k].0 as int, r[k].1 as int)
    &&& forall|k: int, l: int| 0 <= k < l < r.len() ==> pair_lt(#[trigger] r[k], #[trigger] r[l])
    &&& forall|a: int, b: int|
        0 <= a < b < plates.len() && #[trigger] plates_touch(plates, w, h, a, b) ==> exists|k: int|
            0 <= k < r.len() && (#[trigger] r[k]).0 == a && r[k].1 == b
}

/// The eight neighbour offsets `(dx, dy)` in the order they are visited.
pub open spec fn neighbour_offsets() -> Seq<(i32, i32)> {
    seq![(-1i32, 0i32), (1i32, 0i32), (0i32, -1i32), (0i32, 1i32), (-1i32, -1i32), (-1i32, 1i32), (1i32, -1i32), (1i32, 1i32)]
}

/// The eight neighbour offsets `(dx, dy)`: the four axis steps, then the
/// four diagonals.
pub fn dirs8() -> (r: [(i32, i32); 8])
    ensures
        r@ == neighbour_offsets(),
{
    let r = [(-1i32, 0i32), (1, 0), (0, -1), (0, 1), (-1, -1), (-1, 1), (1, -1), (1, 1)];
    assert(r@ =~= neighbour_offsets());
    r
}

/// The neighbour of `(x, y)` at offset `d` is off the grid or unpainted in `m`.
pub open spec fn neighbour_clear(m: Seq<u8>, w: int, h: int, x: int, y: int, d: (i32, i32)) -> bool {
    in_grid(w, h, x + d.0, y + d.1) ==> m[px(w, x + d.0, y + d.1)] == 0
}

/// No painted pixel of `mb` neighbours the painted pixel `(x1, y1)` of `ma`.
pub open spec fn clear_around(ma: Seq<u8>, mb: Seq<u8>, w: int, h: int, x1: int, y1: int) -> bool {
    ma[px(w, x1, y1)] != 0 ==> forall|x2: int, y2: int|
        in_grid(w, h, x2, y2) && adjacent8(x1, y1, x2, y2) ==> #[trigger] mb[px(w, x2, y2)] == 0
}

/// Reports whether some painted pixel of `ma` has a painted pixel of `mb`
/// among its eight neighbours.
pub fn masks_adjacent(ma: &[u8], mb: &[u8], w: u32, h: u32) -> (r: bool)
    requires
        ma@.len() == w * h,
        mb@.len() == w * h,
    ensures
        r == masks_touch(ma@, mb@, w as int, h as int),
{
    let dirs = dirs8();
    let total: usize = ma.len();
    let ghost wi: int = w as int;
    let ghost hi: int = h as int;
    let mut y: u32 = 0;
    while y < h
        invariant
            y <= h,
            ma@.len() == w * h,
            mb@.len() == w * h,
            ma@.len() == total,
            mb@.len() == total,
            wi == w,
            hi == h,
            dirs@ == neighbour_offsets(),
            forall|x1: int, y1: int|
                in_grid(wi, hi, x1, y1) && y1 < y ==> #[trigger] clear_around(ma@, mb@, wi, hi, x1, y1),
        decreases h - y,
    {
        let mut x: u32 = 0;
        while x < w
            invariant
                x <= w,
                y < h,
                ma@.len() == w * h,
                mb@.len() == w * h,
                ma@.len() == total,
                mb@.len() == total,
                wi == w,
                hi == h,
                dirs@ == neighbour_offsets(),
                forall|x1: int, y1: int|
                    in_grid(wi, hi, x1, y1) && (y1 < y || (y1 == y && x1 < x)) ==> #[trigger] clear_around(
                        ma@,
                        mb@,
                        wi,
                        hi,
                        x1,
                        y1,
                    ),
            decreases w - x,
        {
            proof {
                lemma_px_in_bounds(wi, hi, x as int, y as int);
                assert(y * w <= px(wi, x as int, y as int));
            }
            let idx: usize = (y as usize) * (w as usize) + (x as usize);
            if ma[idx] != 0 {
                let mut k: usize = 0;
                while k < 8
                    invariant
                        k <= 8,
                        x < w,
                        y < h,
                        ma@.len() == w * h,
                        mb@.len() == w * h,
                        ma@.len() == total,
                        mb@.len() == total,
                        wi == w,
                        hi == h,
                        idx == px(wi, x as int, y as int),
                        ma@[idx as int] != 0,
                        dirs@ == neighbour_offsets(),
                        forall|k2: int|
                            0 <= k2 < k ==> neighbour_clear(mb@, wi, hi, x as int, y as int, #[trigger] dirs@[k2]),
                    decreases 8 - k,
                {
                    let (dx, dy) = dirs[k];
                    let nx: i64 = x as i64 + dx as i64;
                    let ny: i64 = y as i64 + dy as i64;
                    if 0 <= nx && nx < w as i64 && 0 <= ny && ny < h as i64 {
                        proof {
                            lemma_px_in_bounds(wi, hi, nx as int, ny as int);
                            assert(ny * w <= px(wi, nx as int, ny as int));
                        }
                        let nidx: usize = (ny as usize) * (w as usize) + (nx as usize);
                        if mb[nidx] != 0 {
                            assert(adjacent8(x as int, y as int, nx as int, ny as int));
                            assert(mb@[px(wi, nx as int, ny as int)] != 0);
                            return true;
                        }
                    }
                    k += 1;
                }
                proof {
                    let (xi, yi) = (x as int, y as int);
                    assert(neighbour_clear(mb@, wi, hi, xi, yi, dirs@[0]));
                    assert(neighbour_clear(mb@, wi, hi, xi, yi, dirs@[1]));
                    assert(neighbour_clear(mb@, wi, hi, xi, yi, dirs@[2]));
                    assert(neighbour_clear(mb@, wi, hi, xi, yi, dirs@[3]));
                    assert(neighbour_clear(mb@, wi, hi, xi, yi, dirs@[4]));
                    assert(neighbour_clear(mb@, wi, hi, xi, yi, dirs@[5]));
                    assert(neighbour_clear(mb@, wi, hi, xi, yi, dirs@[6]));
                    assert(neighbour_clear(mb@, wi, hi, xi, yi, dirs@[7]));
                    assert(clear_around(ma@, mb@, wi, hi, xi, yi));
                }
            }
            x += 1;
        }
        y += 1;
    }
    proof {
        if masks_touch(ma@, mb@, wi, hi) {
            let (x1, y1, x2, y2) = choose|x1: int, y1: int, x2: int, y2: int|
                in_grid(wi, hi, x1, y1) && in_grid(wi, hi, x2, y2) && adjacent8(x1, y1, x2, y2)
                    && #[trigger] ma@[px(wi, x1, y1)] != 0 && #[trigger] mb@[px(wi, x2, y2)] != 0;
            assert(clear_around(ma@, mb@, wi, hi, x1, y1));
        }
    }
    false
}


/// Touching does not depend on which of the two masks comes first.
pub proof fn lemma_masks_touch_symmetric(ma: Seq<u8>, mb: Seq<u8>, w: int, h: int)
    ensures
        masks_touch(ma, mb, w, h) == masks_touch(mb, ma, w, h),
{
    if masks_touch(ma, mb, w, h) {
        let (x1, y1, x2, y2) = choose|x1: int, y1: int, x2: int, y2: int|
            in_grid(w, h, x1, y1) && in_grid(w, h, x2, y2) && adjacent8(x1, y1, x2, y2)
                && #[trigger] ma[px(w, x1, y1)] != 0 && #[trigger] mb[px(w, x2, y2)] != 0;
        assert(adjacent8(x2, y2, x1, y1));
        assert(mb[px(w, x2, y2)] != 0 && ma[px(w, x1, y1)] != 0);
    }
    if masks_touch(mb, ma, w, h) {
        let (x1, y1, x2, y2) = choose|x1: int, y1: int, x2: int, y2: int|
            in_grid(w, h, x1, y1) && in_grid(w, h, x2, y2) && adjacent8(x1, y1, x2, y2)
                && #[trigger] mb[px(w, x1, y1)] != 0 && #[trigger] ma[px(w, x2, y2)] != 0;
        assert(adjacent8(x2, y2, x1, y1));
        assert(ma[px(w, x2, y2)] != 0 && mb[px(w, x1, y1)] != 0);
    }
}

/// The canonical pairs `(lower, upper)` of plates whose painted pixels are
/// neighbours, in increasing order: each touching combination once.
pub fn touching_pairs(plates: &Vec<Vec<u8>>, w: u32, h: u32) -> (r: Vec<(usize, usize)>)
    requires
        plates_fit(plates@, w as int, h as int),
    ensures
        is_touching_pairs(plates@, w as int, h as int, r@),
{
    let n: usize = plates.len();
    let mut r: Vec<(usize, usize)> = Vec::new();
    let mut a: usize = 0;
    while a < n
        invariant
            n == plates@.len(),
            plates_fit(plates@, w as int, h as int),
            a <= n,
            forall|k: int|
                0 <= k < r@.len() ==> (#[trigger] r@[k]).0 < r@[k].1 < n && r@[k].0 < a
                    && plates_touch(plates@, w as int, h as int, r@[k].0 as int, r@[k].1 as int),
            forall|k: int, l: int| 0 <= k < l < r@.len() ==> pair_lt(#[trigger] r@[k], #[trigger] r@[l]),
            forall|a2: int, b2: int|
                0 <= a2 < b2 < n && a2 < a && #[trigger] plates_touch(plates@, w as int, h as int, a2, b2)
                    ==> exists|k: int| 0 <= k < r@.len() && (#[trigger] r@[k]).0 == a2 && r@[k].1 == b2,
        decreases n - a,
    {
        let mut b: usize = a + 1;
        while b < n
            invariant
                n == plates@.len(),
                plates_fit(plates@, w as int, h as int),
                a < n,
                a + 1 <= b <= n,
                forall|k: int|
                    0 <= k < r@.len() ==> (#[trigger] r@[k]).0 < r@[k].1 < n && pair_lt(r@[k], (a, b))
                        && plates_touch(plates@, w as int, h as int, r@[k].0 as int, r@[k].1 as int),
                forall|k: int, l: int| 0 <= k < l < r@.len() ==> pair_lt(#[trigger] r@[k], #[trigger] r@[l]),
                forall|a2: int, b2: int|
                    0 <= a2 < b2 < n && (a2 < a || (a2 == a && b2 < b)) && #[trigger] plates_touch(
                        plates@,
                        w as int,
                        h as int,
                        a2,
                        b2,
                    ) ==> exists|k: int| 0 <= k < r@.len() && (#[trigger] r@[k]).0 == a2 && r@[k].1 == b2,
            decreases n - b,
        {
            if masks_adjacent(&plates[a], &plates[b], w, h) {
                let ghost before = r@;
                r.push((a, b));
                proof {
                    assert forall|a2: int, b2: int|
                        0 <= a2 < b2 < n && (a2 < a || (a2 == a && b2 < b + 1)) && #[trigger] plates_touch(
                            plates@,
                            w as int,
                            h as int,
                            a2,
                            b2,
                        ) implies exists|k: int| 0 <= k < r@.len() && (#[trigger] r@[k]).0 == a2 && r@[k].1 == b2 by {
                        if a2 == a && b2 == b {
                            assert(r@[before.len() as int] == (a, b));
                        } else {
                            let k = choose|k: int| 0 <= k < before.len() && (#[trigger] before[k]).0 == a2 && before[k].1 == b2;
                            assert(r@[k] == before[k]);
                        }
                    }
                }
            }
            b += 1;
        }
        a += 1;
    }
    r
}

/// Two plates without neighbouring painted pixels never form a detected pair,
/// in either order.
pub proof fn lemma_apart_plates_not_paired(
    plates: Seq<Vec<u8>>,
    w: int,
    h: int,
    r: Seq<(usize, usize)>,
    a: int,
    b: int,
)
    requires
        is_touching_pairs(plates, w, h, r),
        0 <= a < plates.len(),
        0 <= b < plates.len(),
        !masks_touch(plates[a]@, plates[b]@, w, h),
    ensures
        forall|k: int| 0 <= k < r.len() ==> !((#[trigger] r[k]).0 == a && r[k].1 == b),
        forall|k: int| 0 <= k < r.len() ==> !((#[trigger] r[k]).0 == b && r[k].1 == a),
{
    lemma_masks_touch_symmetric(plates[a]@, plates[b]@, w, h);
    assert forall|k: int| 0 <= k < r.len() implies !((#[trigger] r[k]).0 == a && r[k].1 == b) && !(r[k].0 == b
        && r[k].1 == a) by {
        assert(plates_touch(plates, w, h, r[k].0 as int, r[k].1 as int));
    }
}

/// A detected list never holds both orders of a pair, and holds each
/// touching combination exactly once, as `(min, max)`.
pub proof fn lemma_pairs_canonical(plates: Seq<Vec<u8>>, w: int, h: int, r: Seq<(usize, usize)>, a: int, b: int)
    requires
        is_touching_pairs(plates, w, h, r),
        0 <= a < plates.len(),
        0 <= b < plates.len(),
        a != b,
    ensures
        !((exists|k: int| 0 <= k < r.len() && (#[trigger] r[k]).0 == a && r[k].1 == b) && (exists|k: int|
            0 <= k < r.len() && (#[trigger] r[k]).0 == b && r[k].1 == a)),
        masks_touch(plates[a]@, plates[b]@, w, h) ==> exists|k: int|
            0 <= k < r.len() && (#[trigger] r[k]).0 == (if a < b { a } else { b }) && r[k].1 == (if a < b {
                b
            } else {
                a
            }),
        forall|k: int, l: int|
            0 <= k < r.len() && 0 <= l < r.len() && #[trigger] r[k] == #[trigger] r[l] ==> k == l,
{
    lemma_masks_touch_symmetric(plates[a]@, plates[b]@, w, h);
    assert forall|k: int| 0 <= k < r.len() implies (#[trigger] r[k]).0 < r[k].1 by {}
    if a < b {
        assert(plates_touch(plates, w, h, a, b) == masks_touch(plates[a]@, plates[b]@, w, h));
    } else {
        assert(plates_touch(plates, w, h, b, a) == masks_touch(plates[b]@, plates[a]@, w, h));
    }
    assert forall|k: int, l: int|
        0 <= k < r.len() && 0 <= l < r.len() && #[trigger] r[k] == #[trigger] r[l] implies k == l by {
        if k < l {
            assert(pair_lt(r[k], r[l]));
        } else if l < k {
            assert(pair_lt(r[l], r[k]));
        }
    }
}

} // verus!
