//! Sums of real numbers, and the folds of an exact number type as such sums.

use vstd::prelude::*;

use crate::exact::exact;
use crate::scalar::{dot_steps, fold_is, is_zero, mul_add_is, sum_is, sum_steps, total_is, Scalar};

verus! {

/// `f(0) + .. + f(n - 1)`.
pub open spec fn sum_to(n: nat, f: spec_fn(int) -> real) -> real
    decreases n,
{
    if n == 0 {
        0 as real
    } else {
        sum_to((n - 1) as nat, f) + f(n - 1)
    }
}

/// The product `x * y`.
pub open spec fn times(x: real, y: real) -> real {
    x * y
}

/// The sum of the numbers in `x`.
pub open spec fn total_of<F>(val: spec_fn(F) -> real, x: Seq<F>) -> real {
    sum_to(x.len(), |i: int| val(x[i]))
}

/// The inner product of `x` and `y`.
pub open spec fn inner<F>(val: spec_fn(F) -> real, x: Seq<F>, y: Seq<F>) -> real {
    sum_to(x.len(), |i: int| times(val(x[i]), val(y[i])))
}

/// Sums of the same terms are the same.
pub proof fn lemma_sum_same(n: nat, f: spec_fn(int) -> real, g: spec_fn(int) -> real)
    requires
        forall|i: int| 0 <= i < n ==> #[trigger] f(i) == g(i),
    ensures
        sum_to(n, f) == sum_to(n, g),
    decreases n,
{
    if n > 0 {
        lemma_sum_same((n - 1) as nat, f, g);
        assert(f(n - 1) == g(n - 1));
    }
}

/// Sums add term by term.
pub proof fn lemma_sum_add(
    n: nat,
    f: spec_fn(int) -> real,
    g: spec_fn(int) -> real,
    h: spec_fn(int) -> real,
)
    requires
        forall|i: int| 0 <= i < n ==> #[trigger] h(i) == f(i) + g(i),
    ensures
        sum_to(n, h) == sum_to(n, f) + sum_to(n, g),
    decreases n,
{
    if n > 0 {
        lemma_sum_add((n - 1) as nat, f, g, h);
        assert(h(n - 1) == f(n - 1) + g(n - 1));
    }
}

/// A factor of all terms is a factor of the sum.
pub proof fn lemma_sum_scale(n: nat, k: real, f: spec_fn(int) -> real, h: spec_fn(int) -> real)
    requires
        forall|i: int| 0 <= i < n ==> #[trigger] h(i) == times(k, f(i)),
    ensures
        sum_to(n, h) == times(k, sum_to(n, f)),
    decreases n,
{
    if n > 0 {
        lemma_sum_scale((n - 1) as nat, k, f, h);
        assert(h(n - 1) == times(k, f(n - 1)));
        let a = sum_to((n - 1) as nat, f);
        let b = f(n - 1);
        assert(k * (a + b) == k * a + k * b) by (nonlinear_arith);
    } else {
        assert(k * 0 as real == 0 as real) by (nonlinear_arith);
    }
}

/// A sum of zeros is zero.
pub proof fn lemma_sum_zero(n: nat, f: spec_fn(int) -> real)
    requires
        forall|i: int| 0 <= i < n ==> #[trigger] f(i) == 0 as real,
    ensures
        sum_to(n, f) == 0 as real,
    decreases n,
{
    if n > 0 {
        lemma_sum_zero((n - 1) as nat, f);
        assert(f(n - 1) == 0 as real);
    }
}

/// A sum with one term that is not zero is that term.
pub proof fn lemma_sum_one(n: nat, at: int, f: spec_fn(int) -> real)
    requires
        0 <= at < n,
        forall|i: int| 0 <= i < n && i != at ==> #[trigger] f(i) == 0 as real,
    ensures
        sum_to(n, f) == f(at),
    decreases n,
{
    if at == n - 1 {
        lemma_sum_zero((n - 1) as nat, f);
    } else {
        lemma_sum_one((n - 1) as nat, at, f);
        assert(f(n - 1) == 0 as real);
    }
}

/// A sum of positive terms is positive.
pub proof fn lemma_sum_positive(n: nat, f: spec_fn(int) -> real)
    requires
        0 < n,
        forall|i: int| 0 <= i < n ==> #[trigger] f(i) > 0 as real,
    ensures
        sum_to(n, f) > 0 as real,
    decreases n,
{
    reveal_with_fuel(sum_to, 2);
    assert(f(n - 1) > 0 as real);
    if n > 1 {
        lemma_sum_positive((n - 1) as nat, f);
    }
}

/// A sum of two parts.
pub proof fn lemma_sum_parts(n: nat, m: nat, f: spec_fn(int) -> real)
    ensures
        sum_to(n + m, f) == sum_to(n, f) + sum_to(m, |i: int| f(n + i)),
    decreases m,
{
    if m > 0 {
        lemma_sum_parts(n, (m - 1) as nat, f);
    }
}

/// Double sums do not depend on the order.
pub proof fn lemma_sum_swap(n: nat, m: nat, f: spec_fn(int, int) -> real)
    ensures
        sum_to(n, |i: int| sum_to(m, |j: int| f(i, j))) == sum_to(
            m,
            |j: int| sum_to(n, |i: int| f(i, j)),
        ),
    decreases n,
{
    let rows = |i: int| sum_to(m, |j: int| f(i, j));
    let columns = |j: int| sum_to(n, |i: int| f(i, j));
    if n == 0 {
        lemma_sum_zero(m, columns);
    } else {
        let k = (n - 1) as nat;
        lemma_sum_swap(k, m, f);
        let shorter = |j: int| sum_to(k, |i: int| f(i, j));
        let last = |j: int| f(k as int, j);
        assert forall|j: int| 0 <= j < m implies #[trigger] columns(j) == shorter(j) + last(j) by {
            lemma_sum_same(k, |i: int| f(i, j), |i: int| f(i, j));
        }
        lemma_sum_add(m, shorter, last, columns);
        assert(rows(k as int) == sum_to(m, last)) by {
            lemma_sum_same(m, |j: int| f(k as int, j), last);
        }
    }
}

/// Products in any order.
proof fn lemma_three_factors(d: real, w: real, x: real)
    ensures
        times(d, times(w, x)) == times(x, times(w, d)),
{
    assert(d * (w * x) == x * (w * d)) by (nonlinear_arith);
}

/// A matrix and its transpose are adjoint: where `y` is the matrix `w` times `x`
/// and `g` its transpose times `d`, `d` and `y` have the inner product that `g`
/// and `x` have.
pub proof fn lemma_transpose(
    m: nat,
    k: nat,
    w: spec_fn(int, int) -> real,
    d: spec_fn(int) -> real,
    x: spec_fn(int) -> real,
    y: spec_fn(int) -> real,
    g: spec_fn(int) -> real,
)
    requires
        forall|o: int|
            0 <= o < m ==> #[trigger] y(o) == sum_to(k, |i: int| times(w(o, i), x(i))),
        forall|i: int|
            0 <= i < k ==> #[trigger] g(i) == sum_to(m, |o: int| times(w(o, i), d(o))),
    ensures
        sum_to(m, |o: int| times(d(o), y(o))) == sum_to(k, |i: int| times(g(i), x(i))),
{
    let term = |o: int, i: int| times(d(o), times(w(o, i), x(i)));
    let left = |o: int| times(d(o), y(o));
    let rows = |o: int| sum_to(k, |i: int| term(o, i));
    assert forall|o: int| 0 <= o < m implies #[trigger] left(o) == rows(o) by {
        lemma_sum_scale(k, d(o), |i: int| times(w(o, i), x(i)), |i: int| term(o, i));
    }
    lemma_sum_same(m, left, rows);
    lemma_sum_swap(m, k, term);
    let right = |i: int| times(g(i), x(i));
    let columns = |i: int| sum_to(m, |o: int| term(o, i));
    assert forall|i: int| 0 <= i < k implies #[trigger] right(i) == columns(i) by {
        let f = |o: int| times(w(o, i), d(o));
        let h = |o: int| term(o, i);
        assert forall|o: int| 0 <= o < m implies #[trigger] h(o) == times(x(i), f(o)) by {
            lemma_three_factors(d(o), w(o, i), x(i));
        }
        lemma_sum_scale(m, x(i), f, h);
        let (p, q) = (g(i), x(i));
        assert(p * q == q * p) by (nonlinear_arith);
    }
    lemma_sum_same(k, right, columns);
}

/// The sum over a matrix is the sum of the sums over its rows.
pub proof fn lemma_sum_rows(n: nat, c: nat, f: spec_fn(int) -> real)
    ensures
        sum_to(n * c, f) == sum_to(n, |r: int| sum_to(c, |i: int| f(r * c + i))),
    decreases n,
{
    let rows = |r: int| sum_to(c, |i: int| f(r * c + i));
    if n == 0 {
        assert(n * c == 0) by (nonlinear_arith)
            requires
                n == 0,
        ;
    } else {
        let k = (n - 1) as nat;
        lemma_sum_rows(k, c, f);
        assert(n * c == k * c + c) by (nonlinear_arith)
            requires
                n == k + 1,
        ;
        lemma_sum_parts(k * c, c, f);
        lemma_sum_same(c, |i: int| f((k * c) as int + i), |i: int| f(k * c + i));
        assert(rows(k as int) == sum_to(c, |i: int| f((k * c) as int + i))) by {
            lemma_sum_same(c, |i: int| f(k * c + i), |i: int| f((k * c) as int + i));
        }
    }
}

/// A dot product on top of `init`, as a sum.
pub proof fn lemma_dot_value<F: Scalar>(
    val: spec_fn(F) -> real,
    n: nat,
    init: F,
    x: Seq<F>,
    y: Seq<F>,
    r: F,
)
    requires
        exact(val),
        fold_is(n, init, dot_steps(x, y), r),
    ensures
        val(r) == val(init) + sum_to(n, |i: int| times(val(x[i]), val(y[i]))),
    decreases n,
{
    if n > 0 {
        let k = (n - 1) as nat;
        let step = dot_steps(x, y);
        let p = choose|p: F| fold_is(k, init, step, p) && #[trigger] step(k, p, r);
        lemma_dot_value(val, k, init, x, y, p);
        assert(mul_add_is(p, x[k as int], y[k as int], r));
    }
}

/// A total, as a sum.
pub proof fn lemma_total_value<F: Scalar>(val: spec_fn(F) -> real, x: Seq<F>, r: F)
    requires
        exact(val),
        total_is(x, r),
    ensures
        val(r) == total_of(val, x),
{
    let z = choose|z: F| #[trigger] is_zero(z) && fold_is(x.len(), z, sum_steps(x), r);
    lemma_sum_value(val, x.len(), z, x, r);
}

proof fn lemma_sum_value<F: Scalar>(
    val: spec_fn(F) -> real,
    n: nat,
    init: F,
    x: Seq<F>,
    r: F,
)
    requires
        exact(val),
        fold_is(n, init, sum_steps(x), r),
    ensures
        val(r) == val(init) + sum_to(n, |i: int| val(x[i])),
    decreases n,
{
    if n > 0 {
        let k = (n - 1) as nat;
        let step = sum_steps(x);
        let p = choose|p: F| fold_is(k, init, step, p) && #[trigger] step(k, p, r);
        lemma_sum_value(val, k, init, x, p);
        assert(sum_is(p, x[k as int], r));
    }
}

} // verus!
