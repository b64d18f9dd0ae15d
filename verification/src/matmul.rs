//! Plain matrix multiplication.

use vstd::prelude::*;

use crate::arena::{lemma_row_bounds, lemma_slot, row, row_of};
use crate::ops::linear::column;
use crate::scalar::{dot_from_is, dot_steps, fold_is, is_zero, lemma_fold_push, mul_add_is, Scalar};

verus! {

/// `r` is the sum of the products `x[p] * y[p]`, from zero on.
pub open spec fn dot_is<F: Scalar>(x: Seq<F>, y: Seq<F>, r: F) -> bool {
    exists|zero: F| #[trigger] is_zero(zero) && dot_from_is(zero, x, y, r)
}

/// `out` is the `m x n` product of the `m x k` matrix `a` and the `k x n` matrix
/// `b`, all row-major.
pub open spec fn matmul_is<F: Scalar>(
    a: Seq<F>,
    b: Seq<F>,
    m: int,
    k: int,
    n: int,
    out: Seq<F>,
) -> bool {
    &&& out.len() == m * n
    &&& forall|i: int, j: int|
        0 <= i < m && 0 <= j < n ==> dot_is(
            row(a, i, k),
            column(b, k, n, j),
            #[trigger] row(out, i, n)[j],
        )
}

/// Row-major matrix product: `out[m x n] = a[m x k] * b[k x n]`.
pub fn matmul<F: Scalar>(out: &mut [F], a: &[F], b: &[F], m: usize, k: usize, n: usize)
    requires
        a@.len() == m * k,
        b@.len() == k * n,
        old(out)@.len() == m * n,
    ensures
        matmul_is(a@, b@, m as int, k as int, n as int, final(out)@),
{
    for i in 0..m
        invariant
            a@.len() == m * k,
            b@.len() == k * n,
            out@.len() == m * n,
            forall|q: int, j: int|
                0 <= q < i && 0 <= j < n ==> dot_is(
                    row(a@, q, k as int),
                    column(b@, k as int, n as int, j),
                    #[trigger] row(out@, q, n as int)[j],
                ),
    {
        let x = row_of(a, i, m, k);
        for j in 0..n
            invariant
                i < m,
                x@ == row(a@, i as int, k as int),
                x@.len() == k,
                b@.len() == k * n,
                out@.len() == m * n,
                forall|q: int, p: int|
                    0 <= q < m && 0 <= p < n && (q < i || q == i && p < j) ==> dot_is(
                        row(a@, q, k as int),
                        column(b@, k as int, n as int, p),
                        #[trigger] row(out@, q, n as int)[p],
                    ),
        {
            let sum = dot_column(x, b, k, n, j);
            let ghost before = out@;
            proof {
                lemma_row_bounds(i as int, m as int, n as int);
                lemma_slot(i as int, j as int, m as int, n as int);
                assert(out@.len() == out.len());
            }
            out[i * n + j] = sum;
            proof {
                assert forall|q: int, p: int|
                    0 <= q < m && 0 <= p < n && (q < i || q == i && p < j + 1) implies dot_is(
                    row(a@, q, k as int),
                    column(b@, k as int, n as int, p),
                    #[trigger] row(out@, q, n as int)[p],
                ) by {
                    lemma_slot(q, p, m as int, n as int);
                    lemma_row_bounds(q, m as int, n as int);
                    if q < i || p < j {
                        assert(q * n + p != i * n + j);
                        assert(row(out@, q, n as int)[p] == row(before, q, n as int)[p]);
                    }
                }
            }
        }
    }
}

/// The dot product of `x` and column `j` of the `k x n` matrix `b`.
fn dot_column<F: Scalar>(x: &[F], b: &[F], k: usize, n: usize, j: usize) -> (r: F)
    requires
        x@.len() == k,
        b@.len() == k * n,
        j < n,
    ensures
        dot_is(x@, column(b@, k as int, n as int, j as int), r),
{
    let ghost y = column(b@, k as int, n as int, j as int);
    let zero = F::zero();
    let mut sum = zero;
    for p in 0..k
        invariant
            x@.len() == k,
            b@.len() == k * n,
            j < n,
            y == column(b@, k as int, n as int, j as int),
            fold_is(p as nat, zero, dot_steps(x@, y), sum),
    {
        proof {
            lemma_slot(p as int, j as int, k as int, n as int);
            lemma_row_bounds(p as int, k as int, n as int);
            assert(b@.len() == b.len());
        }
        let next = sum.plus(x[p].times(b[p * n + j]));
        proof {
            assert(y[p as int] == b@[p * n + j]);
            assert(mul_add_is(sum, x@[p as int], y[p as int], next));
            lemma_fold_push(p as nat, zero, dot_steps(x@, y), sum, next);
        }
        sum = next;
    }
    assert(is_zero(zero));
    sum
}

} // verus!
