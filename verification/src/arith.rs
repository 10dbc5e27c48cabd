//! Arithmetic of row-major indices and of multiples.

use vstd::prelude::*;

verus! {

/// A position inside a `w * h` grid has a row-major index inside `w * h`.
pub proof fn lemma_row_major(w: int, h: int, x: int, y: int)
    requires
        0 <= x < w,
        0 <= y < h,
    ensures
        0 <= y * w <= y * w + x < w * h,
{
    assert(0 <= y * w && y * w + w <= w * h) by (nonlinear_arith)
        requires
            0 <= y,
            y + 1 <= h,
            0 <= w,
    ;
}

/// Different positions of a grid have different row-major indices.
pub proof fn lemma_row_major_injective(w: int, x: int, y: int, x2: int, y2: int)
    requires
        0 <= x < w,
        0 <= x2 < w,
        0 <= y,
        0 <= y2,
        y * w + x == y2 * w + x2,
    ensures
        x == x2,
        y == y2,
{
    if y < y2 {
        assert(y2 * w >= y * w + w) by (nonlinear_arith)
            requires
                y + 1 <= y2,
                0 <= w,
        ;
    } else if y2 < y {
        assert(y * w >= y2 * w + w) by (nonlinear_arith)
            requires
                y2 + 1 <= y,
                0 <= w,
        ;
    }
}

/// Whole rows of a `w * h` screen lie inside its pixel array.
pub proof fn lemma_rows_in_range(w: int, h: int, y_start: int, y_end: int)
    requires
        0 <= w,
        0 <= y_start <= y_end <= h,
    ensures
        0 <= y_start * w <= y_end * w <= w * h,
{
    assert(0 <= y_start * w <= y_end * w <= w * h) by (nonlinear_arith)
        requires
            0 <= w,
            0 <= y_start <= y_end <= h,
    ;
}

/// A multiple of `unit` up to the `n`-th stays within what bounds the
/// `n`-th, and so does its factor.
pub proof fn lemma_scaled(n: int, k: int, unit: int, max: int)
    requires
        0 <= k <= n,
        1 <= unit,
        n * unit <= max,
    ensures
        0 <= k * unit <= n * unit,
        k * unit <= max,
        k <= max,
        n <= max,
        n >= 1 ==> unit <= max,
{
    if n >= 1 {
        assert(unit <= n * unit) by (nonlinear_arith)
            requires
                1 <= n,
                1 <= unit,
        ;
    }
    assert(0 <= k * unit <= n * unit) by (nonlinear_arith)
        requires
            0 <= k <= n,
            1 <= unit,
    ;
    assert(k <= k * unit && n <= n * unit) by (nonlinear_arith)
        requires
            0 <= k <= n,
            1 <= unit,
    ;
}

/// The next multiple of `unit` after the `k`-th lies `unit` further.
pub proof fn lemma_step(k: int, unit: int)
    ensures
        (k + 1) * unit - k * unit == unit,
{
    assert((k + 1) * unit - k * unit == unit) by (nonlinear_arith);
}

/// The squared length of a segment along one axis is the square of its
/// extent along that axis.
pub proof fn lemma_axis_length(dx: int, dy: int)
    requires
        dx == 0 || dy == 0,
    ensures
        dy == 0 ==> dx * dx + dy * dy == dx * dx,
        dx == 0 ==> dx * dx + dy * dy == dy * dy,
{
    assert(0 * 0 == 0) by (nonlinear_arith);
}

/// The square of a number is the square of its negative.
pub proof fn lemma_square_sign(d: int)
    ensures
        (-d) * (-d) == d * d,
{
    assert((-d) * (-d) == d * d) by (nonlinear_arith);
}

} // verus!
