//! Facts of arithmetic that the layout rests on.

use vstd::prelude::*;

verus! {

/// Place `r` of row `q` in rows of length `d` has the index `q * d + r`,
/// from which division gives the row back and the remainder the place.
pub proof fn lemma_row_major(q: int, r: int, d: int)
    requires
        0 <= q,
        0 <= r < d,
    ensures
        0 <= q * d <= q * d + r,
        (q * d + r) / d == q,
        (q * d + r) % d == r,
{
    assert(0 <= q * d) by (nonlinear_arith)
        requires
            0 <= q,
            0 <= d,
    ;
    vstd::arithmetic::div_mod::lemma_fundamental_div_mod_converse(q * d + r, d, q, r);
}

/// Place `r` of row `q` lies inside a grid of `h` rows of length `d`.
pub proof fn lemma_inside_grid(q: int, r: int, d: int, h: int)
    requires
        0 <= q < h,
        0 <= r < d,
    ensures
        0 <= q * d + r < h * d,
        q * d + d <= h * d,
        (q + 1) * d == q * d + d,
{
    assert(0 <= q * d && q * d + d <= h * d && (q + 1) * d == q * d + d) by (nonlinear_arith)
        requires
            0 <= q < h,
            0 <= d,
    ;
}

/// An index into a grid of `h` rows of length `w` splits into a row below
/// `h` and a place below `w`.
pub proof fn lemma_split_index(c: int, w: int, h: int)
    requires
        0 <= c < w * h,
        0 <= w,
        0 <= h,
    ensures
        0 < w,
        0 <= c / w < h,
        0 <= c % w < w,
        c == (c / w) * w + c % w,
{
    assert(0 < w) by (nonlinear_arith)
        requires
            0 <= c < w * h,
            0 <= w,
    ;
    vstd::arithmetic::div_mod::lemma_fundamental_div_mod(c, w);
    vstd::arithmetic::div_mod::lemma_mod_bound(c, w);
    let q = c / w;
    assert(c == w * q + c % w);
    assert(0 <= q < h) by (nonlinear_arith)
        requires
            c == w * q + c % w,
            0 <= c % w < w,
            0 <= c < w * h,
            0 < w,
    ;
    assert(w * q == q * w) by (nonlinear_arith);
}

/// The cell in column `x` of row `y` lies inside a grid of `w` by `h` cells
/// laid out row by row.
pub proof fn lemma_cell_in_grid(x: int, y: int, w: int, h: int)
    requires
        0 <= x < w,
        0 <= y < h,
    ensures
        0 <= y * w + x < w * h,
        y * w <= y * w + x,
{
    assert(0 <= y * w) by (nonlinear_arith)
        requires
            0 <= y,
            0 <= w,
    ;
    assert(y * w + w <= w * h) by (nonlinear_arith)
        requires
            0 <= y < h,
            0 <= w,
    ;
}

} // verus!
