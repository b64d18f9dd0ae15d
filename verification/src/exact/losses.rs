//! Probabilities and losses where the arithmetic is exact.

use vstd::prelude::*;

use crate::arena::{lemma_row_bounds, row};
use crate::exact::exact;
use crate::exact::gate::{exponential, sum_to_product};
use crate::ops::attention::{guarded_reciprocal_is, weights_are};
use crate::ops::loss::{
    logit_gradient_at, logit_gradient_is, logit_gradient_row_is, loss_is, losses_are, max_steps,
    mean_loss_is, peak_is, reciprocal_is, shifted_exp_is, shifted_exps_are, softmax_is,
    softmax_row_is,
};
use crate::ops::pointwise::each_times_is;
use crate::scalar::{
    difference_is, exp_is, fold_is, is_neg_infinity, product_is, quotient_is, ratio_is,
    running_max_is, total_is, Scalar,
};
use crate::sums::{
    lemma_sum_positive, lemma_sum_same, lemma_sum_scale, lemma_total_value, sum_to, times,
};

verus! {

/// The softmax of a row: each probability times the sum of the exponentials of
/// the row is the exponential of its entry.
pub proof fn lemma_softmax_values<F: Scalar>(
    val: spec_fn(F) -> real,
    ex: spec_fn(real) -> real,
    x: Seq<F>,
    n: int,
    v: int,
    p: Seq<F>,
    r: int,
    j: int,
)
    requires
        exact(val),
        exponential(val, ex),
        0 <= r < n,
        0 <= j < v,
        x.len() == n * v,
        softmax_is(x, n, v, p),
    ensures
        p.len() == n * v,
        val(p[r * v + j]) * sum_to(v as nat, |k: int| ex(val(x[r * v + k]))) == ex(
            val(x[r * v + j]),
        ),
        val(p[r * v + j]) > 0 as real,
{
    reveal(softmax_is);
    lemma_row_bounds(r, n, v);
    let xr = row(x, r, v);
    let y = row(p, r, v);
    assert(softmax_row_is(xr, y));
    let (m, e, s, inv) = choose|m: F, e: Seq<F>, s: F, inv: F|
        #[trigger] peak_is(xr, m) && #[trigger] shifted_exps_are(xr, m, e) && #[trigger] total_is(
            e,
            s,
        ) && #[trigger] reciprocal_is(s, inv) && each_times_is(e, inv, y);
    assert(each_times_is(e, inv, y));
    lemma_weighed(val, ex, xr, m, e, s, inv, y, j);
    lemma_sum_same(v as nat, |k: int| ex(val(xr[k])), |k: int| ex(val(x[r * v + k])));
}

/// Shifted exponentials over their sum do not depend on the shift.
pub(crate) proof fn lemma_weighed<F: Scalar>(
    val: spec_fn(F) -> real,
    ex: spec_fn(real) -> real,
    x: Seq<F>,
    m: F,
    e: Seq<F>,
    s: F,
    inv: F,
    y: Seq<F>,
    j: int,
)
    requires
        exact(val),
        exponential(val, ex),
        0 <= j < x.len(),
        shifted_exps_are(x, m, e),
        total_is(e, s),
        val(s) > 0 as real ==> reciprocal_is(s, inv),
        each_times_is(e, inv, y),
    ensures
        y.len() == x.len(),
        val(y[j]) * sum_to(x.len(), |k: int| ex(val(x[k]))) == ex(val(x[j])),
        val(y[j]) > 0 as real,
{
    let n = x.len();
    let top = ex(val(m));
    let ef = |i: int| val(e[i]);
    let xf = |i: int| ex(val(x[i]));
    assert forall|i: int| 0 <= i < n implies #[trigger] xf(i) == times(top, ef(i)) && ef(i)
        > 0 as real by {
        assert(shifted_exp_is(x[i], m, e[i]));
        let d = choose|d: F| #[trigger] difference_is(x[i], m, d) && exp_is(d, e[i]);
        assert(val(x[i]) == val(d) + val(m));
        assert(sum_to_product(ex, val(d), val(m)));
        let (p, q) = (ex(val(d)), top);
        assert(p * q == q * p) by (nonlinear_arith);
    }
    assert forall|i: int| 0 <= i < n implies #[trigger] ef(i) > 0 as real by {
        assert(xf(i) == times(top, ef(i)));
    }
    lemma_sum_scale(n, top, ef, xf);
    lemma_sum_positive(n, ef);
    lemma_total_value(val, e, s);
    lemma_sum_same(n, ef, |i: int| val(e[i]));
    lemma_sum_same(n, xf, |k: int| ex(val(x[k])));
    assert(product_is(e[j], inv, y[j]));
    assert(xf(j) == times(top, ef(j)) && ef(j) > 0 as real);
    let (a, b, c) = (val(e[j]), val(inv), val(s));
    assert(b * c == 1 as real);
    assert((a * b) * (top * c) == (top * a) * (b * c)) by (nonlinear_arith);
    let z = top * a;
    assert(z * 1 as real == z) by (nonlinear_arith);
    assert(b > 0 as real) by (nonlinear_arith)
        requires
            c > 0 as real,
            b * c == 1 as real,
    ;
    assert(a * b > 0 as real) by (nonlinear_arith)
        requires
            a > 0 as real,
            b > 0 as real,
    ;
}

/// The loss of a token: the exponential of its negative is the probability of
/// the target.
pub proof fn lemma_loss_values<F: Scalar>(
    val: spec_fn(F) -> real,
    ex: spec_fn(real) -> real,
    p: Seq<F>,
    targets: Seq<u16>,
    n: int,
    v: int,
    losses: Seq<F>,
    r: int,
)
    requires
        exact(val),
        exponential(val, ex),
        0 <= r < n,
        losses_are(p, targets, n, v, losses),
        val(p[r * v + targets[r]]) > 0 as real,
    ensures
        losses.len() == n,
        ex(-val(losses[r])) == val(p[r * v + targets[r]]),
{
    reveal(losses_are);
    assert(loss_is(p[r * v + targets[r]], losses[r]));
}

/// The mean loss times the number of tokens is the sum of their losses.
pub proof fn lemma_mean_values<F: Scalar>(val: spec_fn(F) -> real, losses: Seq<F>, mean: F)
    requires
        exact(val),
        0 < losses.len() <= usize::MAX,
        mean_loss_is(losses, mean),
    ensures
        val(mean) * (losses.len() as int as real) == sum_to(losses.len(), |r: int| val(losses[r])),
{
    reveal(mean_loss_is);
    let (sum, count) = choose|sum: F, count: F|
        #[trigger] total_is(losses, sum) && #[trigger] ratio_is(losses.len() as usize, 1, count)
            && quotient_is(sum, count, mean);
    lemma_total_value(val, losses, sum);
    let k = val(count);
    assert(k * (1 as int as real) == losses.len() as int as real);
    assert(k * 1 as real == k) by (nonlinear_arith);
    lemma_sum_same(losses.len(), |i: int| val(losses[i]), |r: int| val(losses[r]));
}

/// The gradient of the logits adds to what was there the probability, less one
/// at the target, times the weight of a token's loss.
pub proof fn lemma_logit_gradient_values<F: Scalar>(
    val: spec_fn(F) -> real,
    p: Seq<F>,
    targets: Seq<u16>,
    n: int,
    v: int,
    dmean: F,
    old_d: Seq<F>,
    new_d: Seq<F>,
    r: int,
    j: int,
)
    requires
        exact(val),
        0 <= r < n,
        0 <= j < v,
        p.len() == n * v,
        old_d.len() == n * v,
        logit_gradient_is(p, targets, n, v, dmean, old_d, new_d),
    ensures
        new_d.len() == n * v,
        val(new_d[r * v + j]) == val(old_d[r * v + j]) + (val(p[r * v + j]) - (if j == targets[r] {
            1 as real
        } else {
            0 as real
        })) * val(dmean),
{
    reveal(logit_gradient_is);
    lemma_row_bounds(r, n, v);
    let pr = row(p, r, v);
    let o = row(old_d, r, v);
    let d = row(new_d, r, v);
    assert(logit_gradient_row_is(pr, targets[r] as int, dmean, o, d));
    assert(logit_gradient_at(pr[j], j == targets[r] as int, dmean, o[j], d[j]));
}

/// The maximum of `x` is no less than any of its values.
proof fn lemma_peak_tops<F: Scalar>(
    val: spec_fn(F) -> real,
    x: Seq<F>,
    n: nat,
    bottom: F,
    m: F,
    i: int,
)
    requires
        exact(val),
        0 <= i < n <= x.len(),
        fold_is(n, bottom, max_steps(x), m),
    ensures
        val(x[i]) <= val(m),
    decreases n,
{
    let steps = max_steps(x);
    let k = (n - 1) as nat;
    let p = choose|p: F| fold_is(k, bottom, steps, p) && #[trigger] steps(k, p, m);
    assert(running_max_is(p, x[k as int], m));
    if i < k {
        lemma_peak_tops(val, x, k, bottom, p, i);
    }
}

/// `y` is made of the exponentials of `x`, each shifted down by `m`, which is no
/// less than any of them: no exponential is taken of a number above zero.
pub open spec fn shifted_below<F: Scalar>(
    val: spec_fn(F) -> real,
    x: Seq<F>,
    y: Seq<F>,
    m: F,
    e: Seq<F>,
    k: F,
) -> bool {
    &&& forall|i: int| 0 <= i < x.len() ==> val(#[trigger] x[i]) <= val(m)
    &&& shifted_exps_are(x, m, e)
    &&& each_times_is(e, k, y)
}

/// The softmax over the vocabulary takes no exponential of a number above zero.
pub proof fn lemma_softmax_shifted<F: Scalar>(
    val: spec_fn(F) -> real,
    x: Seq<F>,
    n: int,
    v: int,
    p: Seq<F>,
    r: int,
)
    requires
        exact(val),
        0 <= r < n,
        x.len() == n * v,
        softmax_is(x, n, v, p),
    ensures
        exists|m: F, e: Seq<F>, k: F| #[trigger]
            shifted_below(val, row(x, r, v), row(p, r, v), m, e, k),
{
    reveal(softmax_is);
    let (xr, y) = (row(x, r, v), row(p, r, v));
    assert(softmax_row_is(xr, y));
    let (m, e, s, k) = choose|m: F, e: Seq<F>, s: F, k: F|
        #[trigger] peak_is(xr, m) && #[trigger] shifted_exps_are(xr, m, e) && #[trigger] total_is(
            e,
            s,
        ) && #[trigger] reciprocal_is(s, k) && each_times_is(e, k, y);
    lemma_peak(val, xr, m);
    assert(shifted_below(val, xr, y, m, e, k));
}

/// Nor does the softmax of attention scores.
pub proof fn lemma_weights_shifted<F: Scalar>(val: spec_fn(F) -> real, x: Seq<F>, y: Seq<F>)
    requires
        exact(val),
        weights_are(x, y),
    ensures
        exists|m: F, e: Seq<F>, k: F| #[trigger] shifted_below(val, x, y, m, e, k),
{
    let (m, e, s, k) = choose|m: F, e: Seq<F>, s: F, k: F|
        #[trigger] peak_is(x, m) && #[trigger] shifted_exps_are(x, m, e) && #[trigger] total_is(
            e,
            s,
        ) && #[trigger] guarded_reciprocal_is(s, k) && each_times_is(e, k, y);
    lemma_peak(val, x, m);
    assert(shifted_below(val, x, y, m, e, k));
}

proof fn lemma_peak<F: Scalar>(val: spec_fn(F) -> real, x: Seq<F>, m: F)
    requires
        exact(val),
        peak_is(x, m),
    ensures
        forall|i: int| 0 <= i < x.len() ==> val(#[trigger] x[i]) <= val(m),
{
    let bottom = choose|bottom: F|
        #[trigger] is_neg_infinity(bottom) && fold_is(x.len(), bottom, max_steps(x), m);
    assert forall|i: int| 0 <= i < x.len() implies val(#[trigger] x[i]) <= val(m) by {
        lemma_peak_tops(val, x, x.len(), bottom, m, i);
    }
}

} // verus!
