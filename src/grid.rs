use vstd::prelude::*;

use vstd::arithmetic::div_mod::{
    lemma_div_pos_is_pos,
    lemma_fundamental_div_mod,
    lemma_fundamental_div_mod_converse,
    lemma_mod_pos_bound,
};

verus! {

/// The anti-diagonal `row + col` of cell `u` on a grid of width `w`.
pub open spec fn diag_main(w: int, u: int) -> int {
    u / w + u % w
}

/// The mirrored anti-diagonal `row + w - col` of cell `u`.
pub open spec fn diag_anti(w: int, u: int) -> int {
    u / w + w - u % w
}

pub open spec fn b2i(b: bool) -> int {
    if b {
        1
    } else {
        0
    }
}

/// Row and column of a cell of an `h × w` grid.
pub proof fn lemma_cell(h: int, w: int, u: int)
    requires
        0 < w,
        0 <= u < h * w,
    ensures
        0 <= u / w < h,
        0 <= u % w < w,
        u == (u / w) * w + u % w,
        0 <= diag_main(w, u) < h + w - 1,
        0 < diag_anti(w, u) < h + w,
{
    lemma_fundamental_div_mod(u, w);
    lemma_mod_pos_bound(u, w);
    lemma_div_pos_is_pos(u, w);
    let q = u / w;
    assert(q * w == w * q) by (nonlinear_arith);
    assert(q < h) by (nonlinear_arith)
        requires
            u == q * w + u % w,
            0 <= u % w,
            u < h * w,
            0 < w,
    ;
}

/// The cell at row `r` and column `c`.
pub proof fn lemma_cell_of(h: int, w: int, r: int, c: int)
    requires
        0 <= r < h,
        0 <= c < w,
    ensures
        (r * w + c) / w == r,
        (r * w + c) % w == c,
        0 <= r * w + c < h * w,
        r * w <= (h - 1) * w,
{
    lemma_fundamental_div_mod_converse(r * w + c, w, r, c);
    assert(0 <= r * w + c < h * w) by (nonlinear_arith)
        requires
            0 <= r < h,
            0 <= c < w,
    ;
    assert(r * w <= (h - 1) * w) by (nonlinear_arith)
        requires
            0 <= r < h,
            0 <= c < w,
    ;
}

/// A grid whose cell count fits leaves room for its two sides.
pub proof fn lemma_sides(h: int, w: int)
    requires
        1 <= h,
        1 <= w,
    ensures
        h + w <= h * w + 1,
{
    assert((h - 1) * (w - 1) >= 0) by (nonlinear_arith)
        requires
            1 <= h,
            1 <= w,
    ;
    assert((h - 1) * (w - 1) == h * w - h - w + 1) by (nonlinear_arith);
}

/// The cell below `u` is one anti-diagonal further.
pub proof fn lemma_below(w: int, u: int)
    requires
        0 < w,
        0 <= u,
    ensures
        (u + w) / w == u / w + 1,
        (u + w) % w == u % w,
        diag_main(w, u + w) == diag_main(w, u) + 1,
{
    lemma_fundamental_div_mod(u, w);
    lemma_mod_pos_bound(u, w);
    let q = u / w;
    assert(q * w == w * q) by (nonlinear_arith);
    assert((q + 1) * w == q * w + w) by (nonlinear_arith);
    lemma_fundamental_div_mod_converse(u + w, w, q + 1, u % w);
}

/// The cell right of `u`, in the same row, is one anti-diagonal further.
pub proof fn lemma_beside(w: int, y: int)
    requires
        0 < w,
        1 <= y,
        y % w > 0,
    ensures
        (y - 1) / w == y / w,
        (y - 1) % w == y % w - 1,
        diag_main(w, y) == diag_main(w, y - 1) + 1,
{
    lemma_fundamental_div_mod(y, w);
    lemma_mod_pos_bound(y, w);
    let q = y / w;
    assert(q * w == w * q) by (nonlinear_arith);
    lemma_fundamental_div_mod_converse(y - 1, w, q, y % w - 1);
}

} // verus!
