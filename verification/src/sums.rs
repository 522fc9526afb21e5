//! Sums of an integer field over a rectangle of lattice sites.
//!
//! Every observable of the lattice (energy, magnetization, population
//! counts) is such a sum. The lemmas here say how a sum reacts when the field
//! changes at one site, and how it is bounded by bounds on the field.

use vstd::prelude::*;

verus! {

/// An integer attached to every site `(row, column)`.
pub type Field = spec_fn(int, int) -> int;

/// Sum of `f` over the first `w` columns of row `i`.
pub open spec fn row_sum(f: Field, i: int, w: int) -> int
    decreases w,
{
    if w <= 0 {
        0
    } else {
        row_sum(f, i, w - 1) + f(i, w - 1)
    }
}

/// Sum of `f` over the first `h` rows, `w` columns each.
pub open spec fn rect_sum(f: Field, h: int, w: int) -> int
    decreases h,
{
    if h <= 0 {
        0
    } else {
        rect_sum(f, h - 1, w) + row_sum(f, h - 1, w)
    }
}

/// Two fields that agree on row `i` except possibly at column `j0` have row
/// sums that differ by the change at that column.
pub proof fn lemma_row_sum_change(f: Field, g: Field, i: int, w: int, j0: int)
    requires
        forall|j: int| 0 <= j < w && j != j0 ==> #[trigger] f(i, j) == g(i, j),
    ensures
        row_sum(g, i, w) - row_sum(f, i, w) == (if 0 <= j0 < w {
            g(i, j0) - f(i, j0)
        } else {
            0
        }),
    decreases w,
{
    if w > 0 {
        lemma_row_sum_change(f, g, i, w - 1, j0);
    }
}

/// Two fields that agree on the rectangle except possibly at `(i0, j0)` have
/// sums that differ by the change at that site.
pub proof fn lemma_rect_sum_change(f: Field, g: Field, h: int, w: int, i0: int, j0: int)
    requires
        forall|i: int, j: int|
            0 <= i < h && 0 <= j < w && !(i == i0 && j == j0) ==> #[trigger] f(i, j) == g(i, j),
    ensures
        rect_sum(g, h, w) - rect_sum(f, h, w) == (if 0 <= i0 < h && 0 <= j0 < w {
            g(i0, j0) - f(i0, j0)
        } else {
            0
        }),
    decreases h,
{
    if h > 0 {
        lemma_rect_sum_change(f, g, h - 1, w, i0, j0);
        if h - 1 == i0 {
            lemma_row_sum_change(f, g, h - 1, w, j0);
        } else {
            lemma_row_sum_change(f, g, h - 1, w, -1);
        }
    }
}

/// Where `d` is the site-wise difference of `f` and `g`, its row sum is the
/// difference of their row sums.
pub proof fn lemma_row_sum_difference(f: Field, g: Field, d: Field, i: int, w: int)
    requires
        forall|j: int| 0 <= j < w ==> #[trigger] d(i, j) == f(i, j) - g(i, j),
    ensures
        row_sum(d, i, w) == row_sum(f, i, w) - row_sum(g, i, w),
    decreases w,
{
    if w > 0 {
        lemma_row_sum_difference(f, g, d, i, w - 1);
    }
}

/// Where `d` is the site-wise difference of `f` and `g`, its sum is the
/// difference of their sums.
pub proof fn lemma_rect_sum_difference(f: Field, g: Field, d: Field, h: int, w: int)
    requires
        forall|i: int, j: int| 0 <= i < h && 0 <= j < w ==> #[trigger] d(i, j) == f(i, j) - g(i, j),
    ensures
        rect_sum(d, h, w) == rect_sum(f, h, w) - rect_sum(g, h, w),
    decreases h,
{
    if h > 0 {
        lemma_rect_sum_difference(f, g, d, h - 1, w);
        lemma_row_sum_difference(f, g, d, h - 1, w);
    }
}

/// A field between `lo` and `hi` on row `i` has a row sum between `lo * w`
/// and `hi * w`.
pub proof fn lemma_row_sum_bounds(f: Field, i: int, w: int, lo: int, hi: int)
    requires
        0 <= w,
        forall|j: int| 0 <= j < w ==> lo <= #[trigger] f(i, j) <= hi,
    ensures
        lo * w <= row_sum(f, i, w) <= hi * w,
    decreases w,
{
    if w > 0 {
        lemma_row_sum_bounds(f, i, w - 1, lo, hi);
        assert(lo * w == lo * (w - 1) + lo && hi * w == hi * (w - 1) + hi) by (nonlinear_arith);
    } else {
        assert(lo * w == 0 && hi * w == 0) by (nonlinear_arith)
            requires
                w == 0,
        ;
    }
}

/// A field between `lo` and `hi` on the rectangle has a sum between
/// `lo * (h * w)` and `hi * (h * w)`.
pub proof fn lemma_rect_sum_bounds(f: Field, h: int, w: int, lo: int, hi: int)
    requires
        0 <= h,
        0 <= w,
        forall|i: int, j: int| 0 <= i < h && 0 <= j < w ==> lo <= #[trigger] f(i, j) <= hi,
    ensures
        lo * (h * w) <= rect_sum(f, h, w) <= hi * (h * w),
    decreases h,
{
    if h > 0 {
        lemma_rect_sum_bounds(f, h - 1, w, lo, hi);
        lemma_row_sum_bounds(f, h - 1, w, lo, hi);
        assert(lo * (h * w) == lo * ((h - 1) * w) + lo * w && hi * (h * w) == hi * ((h - 1) * w)
            + hi * w) by (nonlinear_arith);
    } else {
        assert(lo * (h * w) == 0 && hi * (h * w) == 0) by (nonlinear_arith)
            requires
                h == 0,
        ;
    }
}

} // verus!
