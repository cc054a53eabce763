//! Finite sums of real numbers over the indices `0 .. m`.

use vstd::prelude::*;

verus! {

/// The sum of `f(0)`, ..., `f(m - 1)`.
pub open spec fn sum(f: spec_fn(int) -> real, m: nat) -> real
    decreases m,
{
    if m == 0 {
        0real
    } else {
        sum(f, (m - 1) as nat) + f(m - 1)
    }
}

/// Sums of equal terms are equal.
pub proof fn lemma_sum_same(f: spec_fn(int) -> real, g: spec_fn(int) -> real, m: nat)
    requires
        forall|i: int| 0 <= i < m ==> #[trigger] f(i) == g(i),
    ensures
        sum(f, m) == sum(g, m),
    decreases m,
{
    if m > 0 {
        lemma_sum_same(f, g, (m - 1) as nat);
    }
}

/// A sum of zeros is zero.
pub proof fn lemma_sum_nothing(f: spec_fn(int) -> real, m: nat)
    requires
        forall|i: int| 0 <= i < m ==> #[trigger] f(i) == 0real,
    ensures
        sum(f, m) == 0real,
    decreases m,
{
    if m > 0 {
        lemma_sum_nothing(f, (m - 1) as nat);
    }
}

/// A sum with one term that may differ from zero is that term.
pub proof fn lemma_sum_single(f: spec_fn(int) -> real, a: int, m: nat)
    requires
        forall|i: int| 0 <= i < m && i != a ==> #[trigger] f(i) == 0real,
    ensures
        sum(f, m) == if 0 <= a < m {
            f(a)
        } else {
            0real
        },
    decreases m,
{
    if m > 0 {
        lemma_sum_single(f, a, (m - 1) as nat);
    }
}

/// A factor common to all terms can be taken out of the sum.
pub proof fn lemma_sum_scaled(c: real, f: spec_fn(int) -> real, g: spec_fn(int) -> real, m: nat)
    requires
        forall|i: int| 0 <= i < m ==> #[trigger] g(i) == c * f(i),
    ensures
        sum(g, m) == c * sum(f, m),
    decreases m,
{
    if m > 0 {
        lemma_sum_scaled(c, f, g, (m - 1) as nat);
        let rest = sum(f, (m - 1) as nat);
        let last = f(m - 1);
        assert(c * (rest + last) == c * rest + c * last) by (nonlinear_arith);
    } else {
        assert(c * 0real == 0real) by (nonlinear_arith);
    }
}

/// The sum of sums is the sum of the terms added.
pub proof fn lemma_sum_added(
    f: spec_fn(int) -> real,
    g: spec_fn(int) -> real,
    h: spec_fn(int) -> real,
    m: nat,
)
    requires
        forall|i: int| 0 <= i < m ==> #[trigger] h(i) == f(i) + g(i),
    ensures
        sum(h, m) == sum(f, m) + sum(g, m),
    decreases m,
{
    if m > 0 {
        lemma_sum_added(f, g, h, (m - 1) as nat);
    }
}

/// A table may be summed by rows or by columns.
pub proof fn lemma_sum_swapped(
    f: spec_fn(int, int) -> real,
    rows: spec_fn(int) -> real,
    cols: spec_fn(int) -> real,
    m: nat,
    n: nat,
)
    requires
        forall|i: int| 0 <= i < m ==> #[trigger] rows(i) == sum(|j: int| f(i, j), n),
        forall|j: int| 0 <= j < n ==> #[trigger] cols(j) == sum(|i: int| f(i, j), m),
    ensures
        sum(rows, m) == sum(cols, n),
    decreases m,
{
    if m == 0 {
        lemma_sum_nothing(cols, n);
    } else {
        let above = |j: int| sum(|i: int| f(i, j), (m - 1) as nat);
        let last = |j: int| f(m - 1, j);
        lemma_sum_swapped(f, rows, above, (m - 1) as nat, n);
        lemma_sum_added(above, last, cols, n);
    }
}

} // verus!
