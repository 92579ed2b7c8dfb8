//! Finite sums over the cells of a rectangle.

use vstd::prelude::*;

verus! {

/// The sum of `f(i, j)` over the columns `i < n` of row `j`.
pub open spec fn row_sum(f: spec_fn(int, int) -> nat, n: int, j: int) -> nat
    decreases n,
{
    if n <= 0 {
        0
    } else {
        row_sum(f, n - 1, j) + f(n - 1, j)
    }
}

/// The sum of `f(i, j)` over the columns `i < width` and the rows
/// `j < height`.
pub open spec fn grid_sum(f: spec_fn(int, int) -> nat, width: int, height: int) -> nat
    decreases height,
{
    if height <= 0 {
        0
    } else {
        grid_sum(f, width, height - 1) + row_sum(f, width, height - 1)
    }
}

/// Sums along a row of functions that agree on it are equal.
pub proof fn lemma_row_sum_equal(
    f: spec_fn(int, int) -> nat,
    g: spec_fn(int, int) -> nat,
    n: int,
    j: int,
)
    requires
        forall|i: int| 0 <= i < n ==> #[trigger] f(i, j) == g(i, j),
    ensures
        row_sum(f, n, j) == row_sum(g, n, j),
    decreases n,
{
    if n > 0 {
        lemma_row_sum_equal(f, g, n - 1, j);
    }
}

/// Sums over a rectangle of functions that agree on it are equal.
pub proof fn lemma_grid_sum_equal(
    f: spec_fn(int, int) -> nat,
    g: spec_fn(int, int) -> nat,
    width: int,
    height: int,
)
    requires
        forall|i: int, j: int|
            0 <= i < width && 0 <= j < height ==> #[trigger] f(i, j) == g(i, j),
    ensures
        grid_sum(f, width, height) == grid_sum(g, width, height),
    decreases height,
{
    if height > 0 {
        lemma_grid_sum_equal(f, g, width, height - 1);
        lemma_row_sum_equal(f, g, width, height - 1);
    }
}

/// A sum along a row, no term above `bound`, is at most the number of terms
/// times `bound`.
pub proof fn lemma_row_sum_bound(f: spec_fn(int, int) -> nat, n: int, j: int, bound: nat)
    requires
        0 <= n,
        forall|i: int| 0 <= i < n ==> #[trigger] f(i, j) <= bound,
    ensures
        row_sum(f, n, j) <= n * bound,
    decreases n,
{
    if n > 0 {
        lemma_row_sum_bound(f, n - 1, j, bound);
        assert((n - 1) * bound + bound == n * bound) by (nonlinear_arith);
    }
}

/// A sum over a rectangle, no term above `bound`, is at most the number of
/// cells times `bound`.
pub proof fn lemma_grid_sum_bound(
    f: spec_fn(int, int) -> nat,
    width: int,
    height: int,
    bound: nat,
)
    requires
        0 <= width,
        0 <= height,
        forall|i: int, j: int|
            0 <= i < width && 0 <= j < height ==> #[trigger] f(i, j) <= bound,
    ensures
        grid_sum(f, width, height) <= width * height * bound,
    decreases height,
{
    if height > 0 {
        lemma_grid_sum_bound(f, width, height - 1, bound);
        lemma_row_sum_bound(f, width, height - 1, bound);
        assert(width * (height - 1) * bound + width * bound == width * height * bound)
            by (nonlinear_arith);
    } else {
        assert(width * height * bound == 0) by (nonlinear_arith)
            requires
                height == 0,
        ;
    }
}

/// A sum along a row grows with the number of its terms.
pub proof fn lemma_row_sum_grows(f: spec_fn(int, int) -> nat, m: int, n: int, j: int)
    requires
        m <= n,
    ensures
        row_sum(f, m, j) <= row_sum(f, n, j),
    decreases n - m,
{
    if m < n {
        lemma_row_sum_grows(f, m, n - 1, j);
    }
}

/// A sum over a rectangle grows with the number of its rows.
pub proof fn lemma_grid_sum_grows(f: spec_fn(int, int) -> nat, width: int, m: int, n: int)
    requires
        m <= n,
    ensures
        grid_sum(f, width, m) <= grid_sum(f, width, n),
    decreases n - m,
{
    if m < n {
        lemma_grid_sum_grows(f, width, m, n - 1);
    }
}

/// A sum along a row is no less than any of its terms.
pub proof fn lemma_row_sum_term(f: spec_fn(int, int) -> nat, n: int, j: int, i: int)
    requires
        0 <= i < n,
    ensures
        f(i, j) <= row_sum(f, n, j),
    decreases n,
{
    if i < n - 1 {
        lemma_row_sum_term(f, n - 1, j, i);
    }
}

/// A sum over a rectangle is no less than any of its terms.
pub proof fn lemma_grid_sum_term(
    f: spec_fn(int, int) -> nat,
    width: int,
    height: int,
    i: int,
    j: int,
)
    requires
        0 <= i < width,
        0 <= j < height,
    ensures
        f(i, j) <= grid_sum(f, width, height),
    decreases height,
{
    if j < height - 1 {
        lemma_grid_sum_term(f, width, height - 1, i, j);
    } else {
        lemma_row_sum_term(f, width, j, i);
    }
}

/// A sum along a row is zero when each of its terms is.
pub proof fn lemma_row_sum_zero(f: spec_fn(int, int) -> nat, n: int, j: int)
    requires
        forall|i: int| 0 <= i < n ==> #[trigger] f(i, j) == 0,
    ensures
        row_sum(f, n, j) == 0,
    decreases n,
{
    if n > 0 {
        lemma_row_sum_zero(f, n - 1, j);
    }
}

/// A sum over a rectangle is zero when each of its terms is.
pub proof fn lemma_grid_sum_zero(f: spec_fn(int, int) -> nat, width: int, height: int)
    requires
        forall|i: int, j: int| 0 <= i < width && 0 <= j < height ==> #[trigger] f(i, j) == 0,
    ensures
        grid_sum(f, width, height) == 0,
    decreases height,
{
    if height > 0 {
        lemma_grid_sum_zero(f, width, height - 1);
        lemma_row_sum_zero(f, width, height - 1);
    }
}

/// Where two functions differ in column `at` alone, their sums along a row
/// differ by what the functions differ there.
pub proof fn lemma_row_sum_one_change(
    f: spec_fn(int, int) -> nat,
    g: spec_fn(int, int) -> nat,
    n: int,
    j: int,
    at: int,
)
    requires
        0 <= at < n,
        forall|i: int| 0 <= i < n && i != at ==> #[trigger] f(i, j) == g(i, j),
    ensures
        row_sum(f, n, j) + g(at, j) == row_sum(g, n, j) + f(at, j),
    decreases n,
{
    if at == n - 1 {
        lemma_row_sum_equal(f, g, n - 1, j);
    } else {
        lemma_row_sum_one_change(f, g, n - 1, j, at);
    }
}

/// Where two functions differ in the cell `(x, y)` alone, their sums over a
/// rectangle that holds it differ by what the functions differ there.
pub proof fn lemma_grid_sum_one_change(
    f: spec_fn(int, int) -> nat,
    g: spec_fn(int, int) -> nat,
    width: int,
    height: int,
    x: int,
    y: int,
)
    requires
        0 <= x < width,
        0 <= y < height,
        forall|i: int, j: int|
            0 <= i < width && 0 <= j < height && (i != x || j != y) ==> #[trigger] f(i, j) == g(
                i,
                j,
            ),
    ensures
        grid_sum(f, width, height) + g(x, y) == grid_sum(g, width, height) + f(x, y),
    decreases height,
{
    if y == height - 1 {
        lemma_grid_sum_equal(f, g, width, height - 1);
        lemma_row_sum_one_change(f, g, width, y, x);
    } else {
        lemma_grid_sum_one_change(f, g, width, height - 1, x, y);
        lemma_row_sum_equal(f, g, width, height - 1);
    }
}

} // verus!
