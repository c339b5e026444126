//! Binary plate masks: one byte per pixel, nonzero meaning painted.

use vstd::prelude::*;

verus! {

/// The bit that a pixel with alpha `a` gets: painted iff `a > 0`.
pub open spec fn alpha_bit(a: u8) -> u8 {
    if a > 0 { 1 } else { 0 }
}

/// The mask of `n` pixels read from the alpha bytes of an RGBA buffer.
pub open spec fn mask_of_rgba(rgba: Seq<u8>, n: int) -> Seq<u8> {
    Seq::new(n as nat, |i: int| alpha_bit(rgba[4 * i + 3]))
}

/// Some pixel of `m` is painted.
pub open spec fn has_on(m: Seq<u8>) -> bool {
    exists|i: int| 0 <= i < m.len() && m[i] != 0
}

/// Reports whether any pixel of `m` is painted.
pub fn any_on(m: &[u8]) -> (r: bool)
    ensures
        r == has_on(m@),
{
    let mut i: usize = 0;
    while i < m.len()
        invariant
            i <= m@.len(),
            forall|k: int| 0 <= k < i ==> m@[k] == 0,
        decreases m@.len() - i,
    {
        if m[i] != 0 {
            return true;
        }
        i += 1;
    }
    false
}

/// Turns the alpha channel of a `w` by `h` RGBA buffer into a binary mask.
pub fn alpha_to_bit(w: u32, h: u32, rgba: &[u8]) -> (r: Vec<u8>)
    requires
        4 * (w as int) * (h as int) <= rgba@.len(),
    ensures
        r@ == mask_of_rgba(rgba@, w * h),
{
    let total: usize = rgba.len();
    proof {
        assert(4 * (w as int) * (h as int) == 4 * ((w as int) * (h as int))) by (nonlinear_arith);
        assert(0 <= (w as int) * (h as int)) by (nonlinear_arith);
    }
    let n: usize = (w as usize) * (h as usize);
    let mut out: Vec<u8> = Vec::new();
    let mut i: usize = 0;
    while i < n
        invariant
            n == w * h,
            4 * n <= rgba@.len(),
            rgba@.len() == total,
            i <= n,
            out@ =~= mask_of_rgba(rgba@, i as int),
        decreases n - i,
    {
        let b: u8 = if rgba[i * 4 + 3] > 0 { 1 } else { 0 };
        out.push(b);
        i += 1;
    }
    out
}

} // verus!
