//! Grid distance fields: for every pixel, the number of up/down/left/right
//! steps to the nearest painted pixel of a source mask. This is the L1
//! (taxicab) distance, not the Euclidean one. It is computed separably: a
//! one-dimensional pass down every column, then one along every row.

use crate::grid::{abs_diff, in_grid, lemma_px_in_bounds, px, steps};
use vstd::prelude::*;

verus! {

/// The value of a pixel that no painted source pixel can reach (the source
/// mask is empty). It exceeds every distance on a grid of `u32` sides.
pub const UNREACHED: u64 = 0x4000_0000_0000_0000;

/// `v` is the least of `|i - k| + c[k]` over the positions `k` of `c`.
pub open spec fn is_line_min(c: Seq<u64>, i: int, v: int) -> bool {
    &&& forall|k: int| 0 <= k < c.len() ==> v <= #[trigger] abs_diff(i, k) + c[k]
    &&& exists|k: int| 0 <= k < c.len() && v == #[trigger] abs_diff(i, k) + c[k]
}

/// `v` is the least of `j - k + c[k]` over the positions `k <= j`.
pub open spec fn is_prefix_min(c: Seq<u64>, j: int, v: int) -> bool {
    &&& forall|k: int| 0 <= k <= j ==> v <= j - k + #[trigger] c[k]
    &&& exists|k: int| 0 <= k <= j && v == j - k + #[trigger] c[k]
}

/// `v` is the grid distance from `(x, y)` to the nearest painted pixel of
/// the `w` by `h` mask `m`, or `UNREACHED` where `m` has no painted pixel.
pub open spec fn is_grid_distance(m: Seq<u8>, w: int, h: int, x: int, y: int, v: int) -> bool {
    &&& forall|x2: int, y2: int|
        in_grid(w, h, x2, y2) && #[trigger] m[px(w, x2, y2)] != 0 ==> v <= steps(x, y, x2, y2)
    &&& {
        ||| exists|x2: int, y2: int|
            in_grid(w, h, x2, y2) && #[trigger] m[px(w, x2, y2)] != 0 && v == steps(x, y, x2, y2)
        ||| v == UNREACHED && forall|x2: int, y2: int|
            in_grid(w, h, x2, y2) ==> #[trigger] m[px(w, x2, y2)] == 0
    }
}

/// Per-pixel starting cost: zero on painted pixels, `UNREACHED` elsewhere.
pub open spec fn seed_cost(m: Seq<u8>) -> Seq<u64> {
    Seq::new(m.len(), |i: int| if m[i] != 0 { 0u64 } else { UNREACHED })
}

/// Column `x` of the row-major grid `c` of width `w` and height `h`.
pub open spec fn column_of(c: Seq<u64>, w: int, h: int, x: int) -> Seq<u64> {
    Seq::new(h as nat, |y: int| c[px(w, x, y)])
}

/// Row `y` of a grid stored as columns.
pub open spec fn row_of_columns(cols: Seq<Vec<u64>>, y: int) -> Seq<u64> {
    Seq::new(cols.len(), |x: int| cols[x]@[y])
}

/// Replaces every entry of `line` by the least of `|i - k| + line[k]`: a
/// forward pass carries costs to the right, a backward pass to the left.
fn spread_line(line: &mut Vec<u64>)
    requires
        forall|k: int| 0 <= k < old(line)@.len() ==> old(line)@[k] <= UNREACHED,
    ensures
        final(line)@.len() == old(line)@.len(),
        forall|i: int|
            0 <= i < final(line)@.len() ==> is_line_min(old(line)@, i, #[trigger] final(line)@[i] as int),
        forall|i: int| 0 <= i < final(line)@.len() ==> #[trigger] final(line)@[i] <= old(line)@[i],
{
    let ghost c = line@;
    let n: usize = line.len();
    if n == 0 {
        return;
    }
    assert(is_prefix_min(c, 0, c[0] as int)) by {
        assert(0 - 0 + c[0] == c[0]);
    }
    let mut i: usize = 1;
    while i < n
        invariant
            1 <= i <= n,
            n == line@.len(),
            c.len() == n,
            forall|k: int| 0 <= k < n ==> c[k] <= UNREACHED,
            forall|j: int| 0 <= j < i ==> is_prefix_min(c, j, #[trigger] line@[j] as int),
            forall|j: int| 0 <= j < n ==> #[trigger] line@[j] <= c[j],
            forall|j: int| i <= j < n ==> #[trigger] line@[j] == c[j],
        decreases n - i,
    {
        let prev: u64 = line[i - 1] + 1;
        let cur: u64 = line[i];
        proof {
            let j = i as int;
            assert(is_prefix_min(c, j - 1, line@[j - 1] as int));
            if cur <= prev {
                assert forall|k: int| 0 <= k <= j implies cur <= j - k + #[trigger] c[k] by {
                    if k < j {
                        assert(line@[j - 1] <= j - 1 - k + c[k]);
                    }
                }
                assert(cur == j - j + c[j]);
            } else {
                assert forall|k: int| 0 <= k <= j implies prev <= j - k + #[trigger] c[k] by {
                    if k < j {
                        assert(line@[j - 1] <= j - 1 - k + c[k]);
                    }
                }
                let k0 = choose|k: int| 0 <= k <= j - 1 && line@[j - 1] == j - 1 - k + #[trigger] c[k];
                assert(prev == j - k0 + c[k0]);
            }
        }
        if prev < cur {
            line.set(i, prev);
        }
        i += 1;
    }
    let ghost f = line@;
    let mut i: usize = n - 1;
    assert(is_line_min(c, (n - 1) as int, line@[n - 1] as int)) by {
        let j = (n - 1) as int;
        assert(is_prefix_min(c, j, f[j] as int));
        assert forall|k: int| 0 <= k < n implies f[j] <= #[trigger] abs_diff(j, k) + c[k] by {
            assert(f[j] <= j - k + c[k]);
        }
        let k0 = choose|k: int| 0 <= k <= j && f[j] == j - k + #[trigger] c[k];
        assert(f[j] == abs_diff(j, k0) + c[k0]);
    }
    while i > 0
        invariant
            i < n,
            n == line@.len(),
            c.len() == n,
            f.len() == n,
            forall|k: int| 0 <= k < n ==> c[k] <= UNREACHED,
            forall|j: int| 0 <= j < n ==> is_prefix_min(c, j, #[trigger] f[j] as int),
            forall|j: int| 0 <= j < n ==> #[trigger] f[j] <= c[j],
            forall|j: int| 0 <= j < i ==> #[trigger] line@[j] == f[j],
            forall|j: int| i <= j < n ==> is_line_min(c, j, #[trigger] line@[j] as int),
            forall|j: int| i <= j < n ==> #[trigger] line@[j] <= f[j],
        decreases i,
    {
        let next: u64 = line[i] + 1;
        let cur: u64 = line[i - 1];
        proof {
            let j = (i - 1) as int;
            assert(is_prefix_min(c, j, f[j] as int));
            assert(is_line_min(c, j + 1, line@[j + 1] as int));
            let v = if cur <= next { cur as int } else { next as int };
            assert forall|k: int| 0 <= k < n implies v <= #[trigger] abs_diff(j, k) + c[k] by {
                if k <= j {
                    assert(f[j] <= j - k + c[k]);
                } else {
                    assert(line@[j + 1] <= abs_diff(j + 1, k) + c[k]);
                }
            }
            if cur <= next {
                let k0 = choose|k: int| 0 <= k <= j && f[j] == j - k + #[trigger] c[k];
                assert(v == abs_diff(j, k0) + c[k0]);
            } else {
                let k0 = choose|k: int| 0 <= k < n && line@[j + 1] == #[trigger] abs_diff(j + 1, k) + c[k];
                if k0 <= j {
                    assert(f[j] <= j - k0 + c[k0]);
                }
                assert(v == abs_diff(j, k0) + c[k0]);
            }
        }
        if next < cur {
            line.set(i - 1, next);
        }
        i -= 1;
    }
}


/// Joins the column pass and the row pass: a least sum over columns of least
/// sums over rows is a least sum over the whole grid.
proof fn lemma_separable(m: Seq<u8>, w: int, h: int, cols: Seq<Vec<u64>>, x: int, y: int, v: int)
    requires
        in_grid(w, h, x, y),
        w <= u32::MAX,
        h <= u32::MAX,
        m.len() == w * h,
        cols.len() == w,
        forall|x2: int| 0 <= x2 < w ==> (#[trigger] cols[x2])@.len() == h,
        forall|x2: int, y2: int|
            in_grid(w, h, x2, y2) ==> is_line_min(
                column_of(seed_cost(m), w, h, x2),
                y2,
                #[trigger] cols[x2]@[y2] as int,
            ),
        is_line_min(row_of_columns(cols, y), x, v),
    ensures
        is_grid_distance(m, w, h, x, y, v),
{
    let cost = seed_cost(m);
    let row = row_of_columns(cols, y);
    assert forall|x2: int, y2: int|
        in_grid(w, h, x2, y2) && #[trigger] m[px(w, x2, y2)] != 0 implies v <= steps(x, y, x2, y2) by {
        lemma_px_in_bounds(w, h, x2, y2);
        let col = column_of(cost, w, h, x2);
        assert(is_line_min(col, y, cols[x2]@[y] as int));
        assert(v <= abs_diff(x, x2) + row[x2]);
        assert(cols[x2]@[y] <= abs_diff(y, y2) + col[y2]);
    }
    let x0 = choose|k: int| 0 <= k < row.len() && v == #[trigger] abs_diff(x, k) + row[k];
    let col0 = column_of(cost, w, h, x0);
    assert(is_line_min(col0, y, cols[x0]@[y] as int));
    let y0 = choose|k: int| 0 <= k < col0.len() && cols[x0]@[y] == #[trigger] abs_diff(y, k) + col0[k];
    lemma_px_in_bounds(w, h, x0, y0);
    if m[px(w, x0, y0)] != 0 {
        assert(v == steps(x, y, x0, y0));
    } else {
        lemma_px_in_bounds(w, h, x, y);
        let colx = column_of(cost, w, h, x);
        assert(is_line_min(colx, y, cols[x]@[y] as int));
        assert(v <= abs_diff(x, x) + row[x]);
        assert(cols[x]@[y] <= abs_diff(y, y) + colx[y]);
        assert(v == UNREACHED);
        assert forall|x2: int, y2: int| in_grid(w, h, x2, y2) implies #[trigger] m[px(w, x2, y2)] == 0 by {
            if m[px(w, x2, y2)] != 0 {
                assert(v <= steps(x, y, x2, y2));
            }
        }
    }
}

/// The grid distance of every pixel of the `w` by `h` mask `mask` to its
/// nearest painted pixel, in row-major order; `UNREACHED` everywhere when
/// nothing is painted.
pub fn distance_field(mask: &[u8], w: u32, h: u32) -> (d: Vec<u64>)
    requires
        mask@.len() == w * h,
    ensures
        d@.len() == w * h,
        forall|x: int, y: int|
            in_grid(w as int, h as int, x, y) ==> is_grid_distance(
                mask@,
                w as int,
                h as int,
                x,
                y,
                #[trigger] d@[px(w as int, x, y)] as int,
            ),
{
    let ghost cost = seed_cost(mask@);
    let total: usize = mask.len();
    let wu: usize = w as usize;
    let hu: usize = h as usize;
    let mut cols: Vec<Vec<u64>> = Vec::new();
    let mut x: usize = 0;
    while x < wu
        invariant
            wu == w,
            hu == h,
            mask@.len() == w * h,
            mask@.len() == total,
            cost == seed_cost(mask@),
            x <= wu,
            forall|x2: int, y2: int|
                0 <= x2 < x && 0 <= y2 < h ==> #[trigger] cols@[x2]@[y2] <= UNREACHED,
            cols@.len() == x,
            forall|x2: int| 0 <= x2 < x ==> (#[trigger] cols@[x2])@.len() == h,
            forall|x2: int, y2: int|
                0 <= x2 < x && 0 <= y2 < h ==> is_line_min(
                    column_of(cost, w as int, h as int, x2),
                    y2,
                    #[trigger] cols@[x2]@[y2] as int,
                ),
        decreases wu - x,
    {
        let mut col: Vec<u64> = Vec::new();
        let mut y: usize = 0;
        while y < hu
            invariant
                wu == w,
                hu == h,
                x < wu,
                mask@.len() == w * h,
                mask@.len() == total,
                cost == seed_cost(mask@),
                y <= hu,
                col@ =~= column_of(cost, w as int, h as int, x as int).subrange(0, y as int),
            decreases hu - y,
        {
            proof {
                lemma_px_in_bounds(w as int, h as int, x as int, y as int);
                assert(y * w <= px(w as int, x as int, y as int));
            }
            let idx: usize = y * wu + x;
            let c: u64 = if mask[idx] != 0 { 0 } else { UNREACHED };
            col.push(c);
            y += 1;
        }
        assert(col@ =~= column_of(cost, w as int, h as int, x as int));
        assert forall|k: int| 0 <= k < col@.len() implies col@[k] <= UNREACHED by {
            lemma_px_in_bounds(w as int, h as int, x as int, k);
        }
        spread_line(&mut col);
        cols.push(col);
        x += 1;
    }
    let mut d: Vec<u64> = Vec::new();
    let mut y: usize = 0;
    while y < hu
        invariant
            wu == w,
            hu == h,
            mask@.len() == w * h,
            cost == seed_cost(mask@),
            y <= hu,
            cols@.len() == w,
            forall|x2: int| 0 <= x2 < w ==> (#[trigger] cols@[x2])@.len() == h,
            forall|x2: int, y2: int|
                0 <= x2 < w && 0 <= y2 < h ==> #[trigger] cols@[x2]@[y2] <= UNREACHED,
            d@.len() == y * w,
            forall|x2: int, y2: int|
                0 <= x2 < w && 0 <= y2 < y ==> is_line_min(
                    row_of_columns(cols@, y2),
                    x2,
                    #[trigger] d@[px(w as int, x2, y2)] as int,
                ),
        decreases hu - y,
    {
        let mut row: Vec<u64> = Vec::new();
        let mut x: usize = 0;
        while x < wu
            invariant
                wu == w,
                hu == h,
                y < hu,
                cols@.len() == w,
                forall|x2: int| 0 <= x2 < w ==> (#[trigger] cols@[x2])@.len() == h,
                x <= wu,
                row@ =~= row_of_columns(cols@, y as int).subrange(0, x as int),
            decreases wu - x,
        {
            row.push(cols[x][y]);
            x += 1;
        }
        assert(row@ =~= row_of_columns(cols@, y as int));
        assert forall|k: int| 0 <= k < row@.len() implies row@[k] <= UNREACHED by {
            assert(row@[k] == cols@[k]@[y as int]);
        }
        let ghost line = row@;
        spread_line(&mut row);
        let ghost start = d@.len();
        let ghost before = d@;
        assert(forall|x2: int, y2: int|
            0 <= x2 < w && 0 <= y2 < y ==> is_line_min(
                row_of_columns(cols@, y2),
                x2,
                #[trigger] before[px(w as int, x2, y2)] as int,
            ));
        let mut x: usize = 0;
        while x < wu
            invariant
                wu == w,
                x <= wu,
                row@.len() == w,
                start == y * w,
                before.len() == start,
                d@.len() == start + x,
                forall|k: int| 0 <= k < start ==> d@[k] == before[k],
                forall|k: int| 0 <= k < x ==> #[trigger] d@[start + k] == row@[k],
            decreases wu - x,
        {
            d.push(row[x]);
            x += 1;
        }
        proof {
            assert((y + 1) * w == y * w + w) by (nonlinear_arith);
            assert forall|x2: int, y2: int|
                0 <= x2 < w && 0 <= y2 <= y implies is_line_min(
                    row_of_columns(cols@, y2),
                    x2,
                    #[trigger] d@[px(w as int, x2, y2)] as int,
                ) by {
                if y2 < y {
                    lemma_px_in_bounds(w as int, y as int, x2, y2);
                    assert(w * y == y * w) by (nonlinear_arith);
                    assert(d@[px(w as int, x2, y2)] == before[px(w as int, x2, y2)]);
                } else {
                    assert(px(w as int, x2, y2) == start + x2);
                    assert(d@[start + x2] == row@[x2]);
                    assert(is_line_min(line, x2, row@[x2] as int));
                }
            }
        }
        y += 1;
    }
    proof {
        assert(d@.len() == w * h) by (nonlinear_arith)
            requires
                d@.len() == y * w,
                y == h,
        ;
        assert forall|x: int, y: int|
            in_grid(w as int, h as int, x, y) implies is_grid_distance(
                mask@,
                w as int,
                h as int,
                x,
                y,
                #[trigger] d@[px(w as int, x, y)] as int,
            ) by {
            lemma_separable(mask@, w as int, h as int, cols@, x, y, d@[px(w as int, x, y)] as int);
        }
    }
    d
}

} // verus!
