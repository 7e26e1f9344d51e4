//! Finite sums over index ranges and the quadratic form of a square matrix,
//! with the facts about them that the Laplacian laws rest on.

use vstd::prelude::*;

verus! {

broadcast use vstd::seq_lib::group_seq_properties;

/// `f(0) + f(1) + ... + f(n - 1)`.
pub open spec fn sum_to(n: int, f: spec_fn(int) -> int) -> int
    decreases n,
{
    if n <= 0 {
        0
    } else {
        sum_to(n - 1, f) + f(n - 1)
    }
}

/// The quadratic form `x^T M x = sum_i x_i * (sum_j M_ij * x_j)` of the
/// `n` x `n` matrix with entries `m(i, j)`.
pub open spec fn quadratic_form(n: int, m: spec_fn(int, int) -> int, x: Seq<int>) -> int {
    sum_to(n, |i: int| x[i] * sum_to(n, |j: int| m(i, j) * x[j]))
}

/// Sums of functions that agree on the range are equal.
pub proof fn lemma_sum_ext(n: int, f: spec_fn(int) -> int, g: spec_fn(int) -> int)
    requires
        forall|k: int| 0 <= k < n ==> #[trigger] f(k) == g(k),
    ensures
        sum_to(n, f) == sum_to(n, g),
    decreases n,
{
    if n > 0 {
        lemma_sum_ext(n - 1, f, g);
    }
}

/// The sum of a pointwise sum is the sum of the sums.
pub proof fn lemma_sum_add(n: int, f: spec_fn(int) -> int, g: spec_fn(int) -> int, h: spec_fn(int) -> int)
    requires
        forall|k: int| 0 <= k < n ==> #[trigger] h(k) == f(k) + g(k),
    ensures
        sum_to(n, h) == sum_to(n, f) + sum_to(n, g),
    decreases n,
{
    if n > 0 {
        lemma_sum_add(n - 1, f, g, h);
    }
}

/// A constant factor comes out of a sum.
pub proof fn lemma_sum_scale(n: int, c: int, f: spec_fn(int) -> int, h: spec_fn(int) -> int)
    requires
        forall|k: int| 0 <= k < n ==> #[trigger] h(k) == c * f(k),
    ensures
        sum_to(n, h) == c * sum_to(n, f),
    decreases n,
{
    if n > 0 {
        lemma_sum_scale(n - 1, c, f, h);
        vstd::arithmetic::mul::lemma_mul_is_distributive_add(c, sum_to(n - 1, f), f(n - 1));
    }
}

/// A sum of non-negative terms is non-negative.
pub proof fn lemma_sum_nonneg(n: int, f: spec_fn(int) -> int)
    requires
        forall|k: int| 0 <= k < n ==> #[trigger] f(k) >= 0,
    ensures
        sum_to(n, f) >= 0,
    decreases n,
{
    if n > 0 {
        lemma_sum_nonneg(n - 1, f);
    }
}

/// A sum that is `v` at `i` and `0` elsewhere is `v`.
pub proof fn lemma_sum_single(n: int, i: int, v: int, f: spec_fn(int) -> int)
    requires
        0 <= i < n,
        forall|k: int| 0 <= k < n ==> #[trigger] f(k) == (if k == i { v } else { 0 }),
    ensures
        sum_to(n, f) == v,
    decreases n,
{
    if n - 1 == i {
        lemma_sum_zero(n - 1, f);
    } else {
        lemma_sum_single(n - 1, i, v, f);
    }
}

/// A sum of zeros is zero.
pub proof fn lemma_sum_zero(n: int, f: spec_fn(int) -> int)
    requires
        forall|k: int| 0 <= k < n ==> #[trigger] f(k) == 0,
    ensures
        sum_to(n, f) == 0,
    decreases n,
{
    if n > 0 {
        lemma_sum_zero(n - 1, f);
    }
}

/// The order of a double sum over a rectangle does not matter.
pub proof fn lemma_sum_swap(n: int, m: int, f: spec_fn(int, int) -> int)
    requires
        0 <= n,
        0 <= m,
    ensures
        sum_to(n, |i: int| sum_to(m, |j: int| f(i, j))) == sum_to(m, |j: int| sum_to(n, |i: int| f(i, j))),
    decreases n,
{
    if n > 0 {
        let rows = |i: int| sum_to(m, |j: int| f(i, j));
        let cols = |j: int| sum_to(n, |i: int| f(i, j));
        let cols_before = |j: int| sum_to(n - 1, |i: int| f(i, j));
        let last_row = |j: int| f(n - 1, j);
        lemma_sum_swap(n - 1, m, f);
        assert(sum_to(n - 1, rows) == sum_to(m, cols_before));
        assert(sum_to(n, rows) == sum_to(n - 1, rows) + sum_to(m, last_row));
        assert forall|j: int| 0 <= j < m implies #[trigger] cols(j) == cols_before(j) + last_row(j) by {
        }
        lemma_sum_add(m, cols_before, last_row, cols);
    } else {
        lemma_sum_zero(m, |j: int| sum_to(n, |i: int| f(i, j)));
    }
}

/// Counting the indices in `[0, n)` that `s` contains: at most `s.len()`,
/// and exactly `s.len()` when the entries of `s` are distinct and in range.
pub proof fn lemma_sum_contains(n: int, s: Seq<int>, f: spec_fn(int) -> int)
    requires
        0 <= n,
        forall|k: int| 0 <= k < n ==> #[trigger] f(k) == (if s.contains(k) { 1int } else { 0 }),
    ensures
        sum_to(n, f) <= s.len(),
        (s.no_duplicates() && forall|a: int| 0 <= a < s.len() ==> 0 <= #[trigger] s[a] < n)
            ==> sum_to(n, f) == s.len(),
    decreases s.len(),
{
    if s.len() == 0 {
        lemma_sum_zero(n, f);
    } else {
        let t = s.drop_last();
        let a = s.last();
        let g = |k: int| if t.contains(k) { 1int } else { 0 };
        lemma_sum_contains(n, t, g);
        assert(s =~= t.push(a));
        if t.contains(a) {
            // `a` is counted already
            lemma_sum_ext(n, f, g);
        } else {
            let e = |k: int| if k == a { 1int } else { 0 };
            lemma_sum_add(n, g, e, f);
            if 0 <= a < n {
                lemma_sum_single(n, a, 1, e);
            } else {
                lemma_sum_zero(n, e);
            }
        }
        if s.no_duplicates() && forall|b: int| 0 <= b < s.len() ==> 0 <= #[trigger] s[b] < n {
            assert(t.no_duplicates());
            assert forall|b: int| 0 <= b < t.len() implies 0 <= #[trigger] t[b] < n by {
                assert(t[b] == s[b]);
            }
            assert(!t.contains(a)) by {
                if t.contains(a) {
                    let b = choose|b: int| 0 <= b < t.len() && t[b] == a;
                    assert(s[b] == s[s.len() - 1]);
                }
            }
            assert(0 <= s[s.len() - 1] < n);
        }
    }
}

/// The sum of row `i` of the `n` x `n` matrix with entries `m(i, j)`.
pub open spec fn row_sum(n: int, m: spec_fn(int, int) -> int, i: int) -> int {
    sum_to(n, |j: int| m(i, j))
}

/// `m(i, j) * (x_i x_j - x_i^2)`: row `i`'s term of the quadratic form
/// after its row sum has been taken out.
pub open spec fn centered_term(m: spec_fn(int, int) -> int, x: Seq<int>, i: int, j: int) -> int {
    m(i, j) * (x[i] * x[j] - x[i] * x[i])
}

/// One row of the quadratic form splits into its centred terms and
/// `x_i^2` times the row sum.
proof fn lemma_row_split(n: int, m: spec_fn(int, int) -> int, x: Seq<int>, i: int)
    requires
        0 <= n,
    ensures
        x[i] * sum_to(n, |j: int| m(i, j) * x[j]) == sum_to(n, |j: int| centered_term(m, x, i, j))
            + x[i] * x[i] * sum_to(n, |j: int| m(i, j)),
{
    let xi = x[i];
    let row = |j: int| m(i, j) * x[j];
    let scaled = |j: int| xi * (m(i, j) * x[j]);
    let centered = |j: int| centered_term(m, x, i, j);
    let entries = |j: int| m(i, j);
    let diag = |j: int| (xi * xi) * m(i, j);
    lemma_sum_scale(n, xi, row, scaled);
    lemma_sum_scale(n, xi * xi, entries, diag);
    assert forall|j: int| 0 <= j < n implies #[trigger] scaled(j) == centered(j) + diag(j) by {
        let a = m(i, j);
        let b = x[j];
        assert(xi * (a * b) == a * (xi * b - xi * xi) + (xi * xi) * a) by (nonlinear_arith);
    }
    lemma_sum_add(n, centered, diag, scaled);
}

/// A symmetric matrix with non-positive off-diagonal entries and
/// non-negative row sums (a weakly diagonally dominant one) has a
/// non-negative quadratic form: it is positive semidefinite.
pub proof fn lemma_quadratic_form_nonneg(n: int, m: spec_fn(int, int) -> int, x: Seq<int>)
    requires
        0 <= n,
        x.len() == n,
        forall|i: int, j: int| 0 <= i < n && 0 <= j < n ==> #[trigger] m(i, j) == m(j, i),
        forall|i: int, j: int| 0 <= i < n && 0 <= j < n && i != j ==> #[trigger] m(i, j) <= 0,
        forall|i: int| 0 <= i < n ==> #[trigger] row_sum(n, m, i) >= 0,
    ensures
        quadratic_form(n, m, x) >= 0,
{
    let a = |i: int, j: int| centered_term(m, x, i, j);
    let b = |i: int, j: int| centered_term(m, x, j, i);
    let a_rows = |i: int| sum_to(n, |j: int| a(i, j));
    let b_rows = |i: int| sum_to(n, |j: int| b(i, j));
    let rows = |i: int| x[i] * sum_to(n, |j: int| m(i, j) * x[j]);
    let weighted = |i: int| x[i] * x[i] * row_sum(n, m, i);
    // Q = A + sum_i x_i^2 r_i
    assert forall|i: int| 0 <= i < n implies #[trigger] rows(i) == a_rows(i) + weighted(i) by {
        lemma_row_split(n, m, x, i);
        lemma_sum_ext(n, |j: int| centered_term(m, x, i, j), |j: int| a(i, j));
    }
    lemma_sum_add(n, a_rows, weighted, rows);
    assert forall|i: int| 0 <= i < n implies #[trigger] weighted(i) >= 0 by {
        let r = row_sum(n, m, i);
        assert(x[i] * x[i] * r >= 0) by (nonlinear_arith)
            requires
                r >= 0,
        ;
    }
    lemma_sum_nonneg(n, weighted);
    // A = B by exchanging the order of summation
    lemma_sum_swap(n, n, b);
    assert forall|j: int| 0 <= j < n implies sum_to(n, |i: int| b(i, j)) == #[trigger] a_rows(j) by {
        lemma_sum_ext(n, |i: int| b(i, j), |i: int| a(j, i));
    }
    lemma_sum_ext(n, |j: int| sum_to(n, |i: int| b(i, j)), a_rows);
    // A + B is a sum of -m_ij (x_i - x_j)^2 >= 0
    let both = |i: int| a_rows(i) + b_rows(i);
    lemma_sum_add(n, a_rows, b_rows, both);
    assert forall|i: int| 0 <= i < n implies #[trigger] both(i) >= 0 by {
        let t = |j: int| a(i, j) + b(i, j);
        lemma_sum_add(n, |j: int| a(i, j), |j: int| b(i, j), t);
        assert forall|j: int| 0 <= j < n implies #[trigger] t(j) >= 0 by {
            let mij = m(i, j);
            let xi = x[i];
            let xj = x[j];
            assert(m(j, i) == mij);
            assert(t(j) == mij * (xi * xj - xi * xi) + mij * (xj * xi - xj * xj));
            if i == j {
                assert(mij * (xi * xj - xi * xi) + mij * (xj * xi - xj * xj) == 0) by (nonlinear_arith)
                    requires
                        xi == xj,
                ;
            } else {
                assert(mij * (xi * xj - xi * xi) + mij * (xj * xi - xj * xj) >= 0) by (nonlinear_arith)
                    requires
                        mij <= 0,
                {
                    assert(mij * (xi * xj - xi * xi) + mij * (xj * xi - xj * xj) == (-mij) * ((xi - xj) * (xi - xj)));
                    assert((xi - xj) * (xi - xj) >= 0);
                }
            }
        }
        lemma_sum_nonneg(n, t);
    }
    lemma_sum_nonneg(n, both);
}

} // verus!
