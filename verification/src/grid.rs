//! Row-major indexing of a rectangular pixel grid.

use vstd::prelude::*;

verus! {

/// The row-major flat index of pixel (x, y) in a grid of width `w`.
pub open spec fn pix(w: int, x: int, y: int) -> int {
    y * w + x
}

/// A pixel inside the grid has a flat index inside the buffer.
pub proof fn lemma_pix_bounds(w: int, h: int, x: int, y: int)
    requires
        0 <= x < w,
        0 <= y < h,
    ensures
        0 <= pix(w, x, y) < w * h,
{
    assert(0 <= y * w + x < w * h) by (nonlinear_arith)
        requires
            0 <= x < w,
            0 <= y < h,
    ;
}

/// Row-major indexing is injective on the grid.
pub proof fn lemma_pix_injective(w: int, x1: int, y1: int, x2: int, y2: int)
    requires
        0 <= x1 < w,
        0 <= x2 < w,
        0 <= y1,
        0 <= y2,
        pix(w, x1, y1) == pix(w, x2, y2),
    ensures
        x1 == x2,
        y1 == y2,
{
    assert(y1 == y2 && x1 == x2) by (nonlinear_arith)
        requires
            0 <= x1 < w,
            0 <= x2 < w,
            0 <= y1,
            0 <= y2,
            y1 * w + x1 == y2 * w + x2,
    ;
}

/// Every flat buffer index is the index of a pixel of the grid.
pub proof fn lemma_flat_to_coord(w: int, h: int, j: int)
    requires
        0 <= j < w * h,
        0 <= w,
        0 <= h,
    ensures
        w > 0,
        0 <= j % w < w,
        0 <= j / w < h,
        pix(w, j % w, j / w) == j,
{
    if w <= 0 {
        assert(w * h <= 0) by (nonlinear_arith)
            requires
                w <= 0,
                h >= 0,
        ;
    }
    vstd::arithmetic::div_mod::lemma_fundamental_div_mod(j, w);
    vstd::arithmetic::div_mod::lemma_mod_bound(j, w);
    vstd::arithmetic::div_mod::lemma_div_pos_is_pos(j, w);
    if j / w >= h {
        assert(w * (j / w) >= w * h) by (nonlinear_arith)
            requires
                j / w >= h,
                w > 0,
        ;
    }
    assert((j / w) * w == w * (j / w)) by (nonlinear_arith);
}

} // verus!
