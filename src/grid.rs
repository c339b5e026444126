//! Pixel geometry shared by the detector and the distance engine.

use vstd::prelude::*;

verus! {

/// Index of the pixel at column `x`, row `y` of a grid `w` pixels wide.
pub open spec fn px(w: int, x: int, y: int) -> int {
    y * w + x
}

/// `(x, y)` lies on a `w` by `h` grid.
pub open spec fn in_grid(w: int, h: int, x: int, y: int) -> bool {
    0 <= x < w && 0 <= y < h
}

pub open spec fn abs_diff(a: int, b: int) -> int {
    if a >= b { a - b } else { b - a }
}

/// Number of axis-aligned unit steps between two pixels.
pub open spec fn steps(x1: int, y1: int, x2: int, y2: int) -> int {
    abs_diff(x1, x2) + abs_diff(y1, y2)
}

/// Two distinct pixels whose columns and rows each differ by at most one.
pub open spec fn adjacent8(x1: int, y1: int, x2: int, y2: int) -> bool {
    &&& (x1 != x2 || y1 != y2)
    &&& abs_diff(x1, x2) <= 1
    &&& abs_diff(y1, y2) <= 1
}

pub proof fn lemma_px_in_bounds(w: int, h: int, x: int, y: int)
    requires
        in_grid(w, h, x, y),
    ensures
        0 <= px(w, x, y) < w * h,
        px(w, x, y) - x + w <= w * h,
{
    assert(0 <= y * w) by (nonlinear_arith)
        requires
            0 <= y,
            0 <= w,
    ;
    assert(y * w + w <= w * h) by (nonlinear_arith)
        requires
            0 <= y < h,
            0 <= w,
    ;
}

/// Every index of a `w` by `h` grid is the index of one of its pixels.
pub proof fn lemma_xy_of(w: int, h: int, i: int) -> (r: (int, int))
    requires
        0 <= w,
        0 <= i < w * h,
    ensures
        in_grid(w, h, r.0, r.1),
        px(w, r.0, r.1) == i,
{
    assert(w > 0) by (nonlinear_arith)
        requires
            0 <= i < w * h,
            0 <= w,
    ;
    let x = i % w;
    let y = i / w;
    vstd::arithmetic::div_mod::lemma_fundamental_div_mod(i, w);
    assert(0 <= x < w);
    assert(0 <= y);
    assert(y < h) by (nonlinear_arith)
        requires
            i == w * y + x,
            0 <= x,
            i < w * h,
            w > 0,
    ;
    assert(y * w == w * y) by (nonlinear_arith);
    (x, y)
}

} // verus!
