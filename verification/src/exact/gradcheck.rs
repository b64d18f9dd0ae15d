//! What the gradient check computes where the arithmetic is exact.

use vstd::prelude::*;

use crate::arena::{lemma_row_bounds, row};
use crate::exact::exact;
use crate::exact::gate::{exponential, sum_to_product};
use crate::gradcheck::{
    analytic_at, analytic_entry_is, analytic_is, analytic_row_is, central_is, logit_grad_is,
    logit_grad_with, logit_loss_is, numerical_grad_is, numerical_grad_with, rel_error_is,
    softmax_parts_are, wide_exp_is, wide_exps_are, wide_losses_are, wide_prob_is, wide_row_loss_is,
    worst_error_is, worst_step_is, worst_steps,
};
use crate::layout::Config;
use crate::model::{wide_grads_are, wide_loss_is};
use crate::model::backward::backward_is;
use crate::model::forward::{batch_loss_is, forward_is, scored_is};
use crate::ops::loss::{ids_below, indicator_is, shifted_exp_is};
use crate::scalar::{
    difference_is, exp_is, fold_is, is_zero, larger_is, largest_is, ln_is, negation_is, product_is,
    quotient_is, ratio_is, total_is, widened_is, Scalar, Single,
};
use crate::sums::{
    lemma_sum_positive, lemma_sum_same, lemma_sum_scale, lemma_total_value, sum_to, times,
};

verus! {

/// Widening keeps the value.
pub open spec fn exact_widening<F: Single>(
    val: spec_fn(F) -> real,
    wide: spec_fn(F::Wide) -> real,
) -> bool {
    forall|a: F, w: F::Wide| #[trigger] widened_is(a, w) ==> wide(w) == val(a)
}

/// One shifted exponential: the exponential of the value is that of the shift
/// times it.
proof fn lemma_wide_exp<F: Single>(
    val: spec_fn(F) -> real,
    wide: spec_fn(F::Wide) -> real,
    ex: spec_fn(real) -> real,
    x: F,
    m: F::Wide,
    e: F::Wide,
)
    requires
        exact(wide),
        exponential(wide, ex),
        exact_widening(val, wide),
        wide_exp_is(x, m, e),
    ensures
        wide(e) > 0 as real,
        ex(val(x)) == times(ex(wide(m)), wide(e)),
{
    let w = choose|w: F::Wide| #[trigger] widened_is(x, w) && shifted_exp_is(w, m, e);
    let d = choose|d: F::Wide| #[trigger] difference_is(w, m, d) && exp_is(d, e);
    assert(val(x) == wide(d) + wide(m));
    assert(sum_to_product(ex, wide(d), wide(m)));
    let (p, q) = (ex(wide(d)), ex(wide(m)));
    assert(p * q == q * p) by (nonlinear_arith);
}

/// A probability in double precision, times the sum of the exponentials of the
/// row, is the exponential of its entry.
proof fn lemma_wide_prob<F: Single>(
    val: spec_fn(F) -> real,
    wide: spec_fn(F::Wide) -> real,
    ex: spec_fn(real) -> real,
    x: Seq<F>,
    m: F::Wide,
    sum: F::Wide,
    j: int,
    p: F::Wide,
)
    requires
        exact(wide),
        exponential(wide, ex),
        exact_widening(val, wide),
        0 <= j < x.len(),
        softmax_parts_are(x, m, sum),
        wide_prob_is(x, m, sum, j, p),
    ensures
        wide(p) > 0 as real,
        times(wide(p), sum_to(x.len(), |k: int| ex(val(x[k])))) == ex(val(x[j])),
{
    let n = x.len();
    let (top, e) = choose|top: F, e: Seq<F::Wide>| #[trigger]
        largest_is(x, top) && widened_is(top, m) && #[trigger] wide_exps_are(x, m, e) && total_is(
            e,
            sum,
        );
    let t = ex(wide(m));
    let ef = |k: int| wide(e[k]);
    let xf = |k: int| ex(val(x[k]));
    assert forall|k: int| 0 <= k < n implies #[trigger] xf(k) == times(t, ef(k)) by {
        lemma_wide_exp(val, wide, ex, x[k], m, e[k]);
    }
    assert forall|k: int| 0 <= k < n implies #[trigger] ef(k) > 0 as real by {
        lemma_wide_exp(val, wide, ex, x[k], m, e[k]);
    }
    lemma_sum_scale(n, t, ef, xf);
    lemma_sum_positive(n, ef);
    lemma_total_value(wide, e, sum);
    lemma_sum_same(n, ef, |k: int| wide(e[k]));
    lemma_sum_same(n, xf, |k: int| ex(val(x[k])));
    let q = choose|q: F::Wide| #[trigger] wide_exp_is(x[j], m, q) && quotient_is(q, sum, p);
    lemma_wide_exp(val, wide, ex, x[j], m, q);
    let (a, b, c) = (wide(p), wide(sum), wide(q));
    assert(a * b == c);
    assert(a * (t * b) == t * (a * b)) by (nonlinear_arith);
    assert(a > 0 as real) by (nonlinear_arith)
        requires
            b > 0 as real,
            c > 0 as real,
            a * b == c,
    ;
}

/// The losses of the rows: the exponential of the negative of each, times the sum
/// of the exponentials of the row, is the exponential of the target's logit.
pub open spec fn row_losses<F, G>(
    val: spec_fn(F) -> real,
    wide: spec_fn(G) -> real,
    ex: spec_fn(real) -> real,
    logits: Seq<F>,
    targets: Seq<u16>,
    n: int,
    v: int,
    losses: Seq<G>,
) -> bool {
    &&& losses.len() == n
    &&& forall|r: int|
        0 <= r < n ==> times(
            ex(-wide(#[trigger] losses[r])),
            sum_to(v as nat, |k: int| ex(val(logits[r * v + k]))),
        ) == ex(val(logits[r * v + targets[r]]))
}

/// The loss in double precision, times the number of rows, is the sum of the
/// losses of the rows.
pub proof fn lemma_logit_loss<F: Single>(
    val: spec_fn(F) -> real,
    wide: spec_fn(F::Wide) -> real,
    ex: spec_fn(real) -> real,
    logits: Seq<F>,
    targets: Seq<u16>,
    n: int,
    v: int,
    l: F::Wide,
)
    requires
        exact(wide),
        exponential(wide, ex),
        exact_widening(val, wide),
        0 < n <= usize::MAX,
        logits.len() == n * v,
        targets.len() == n,
        ids_below(targets, v),
        logit_loss_is(logits, targets, n, v, l),
    ensures
        exists|losses: Seq<F::Wide>| #[trigger]
            row_losses(val, wide, ex, logits, targets, n, v, losses) && times(wide(l), n as real)
                == sum_to(n as nat, |r: int| wide(losses[r])),
{
    let (losses, sum, count) = choose|losses: Seq<F::Wide>, sum: F::Wide, count: F::Wide|
        #[trigger] wide_losses_are(logits, targets, n, v, losses) && #[trigger] total_is(
            losses,
            sum,
        ) && #[trigger] ratio_is(n as usize, 1, count) && quotient_is(sum, count, l);
    assert forall|r: int| 0 <= r < n implies times(
        ex(-wide(#[trigger] losses[r])),
        sum_to(v as nat, |k: int| ex(val(logits[r * v + k]))),
    ) == ex(val(logits[r * v + targets[r]])) by {
        let x = row(logits, r, v);
        let j = targets[r] as int;
        lemma_row_bounds(r, n, v);
        assert(targets[r] < v);
        assert(wide_row_loss_is(x, j, losses[r]));
        let (m, s, p, g) = choose|m: F::Wide, s: F::Wide, p: F::Wide, g: F::Wide| #[trigger]
            softmax_parts_are(x, m, s) && #[trigger] wide_prob_is(x, m, s, j, p) && #[trigger]
            ln_is(p, g) && negation_is(g, losses[r]);
        lemma_wide_prob(val, wide, ex, x, m, s, j, p);
        assert(-wide(losses[r]) == wide(g));
        lemma_sum_same(v as nat, |k: int| ex(val(x[k])), |k: int| ex(val(logits[r * v + k])));
    }
    lemma_total_value(wide, losses, sum);
    lemma_sum_same(n as nat, |i: int| wide(losses[i]), |r: int| wide(losses[r]));
    let k = wide(count);
    assert(k * (1 as int as real) == n as usize as int as real);
    assert(k * 1 as real == k) by (nonlinear_arith);
    assert(times(wide(l), k) == wide(sum));
    assert(row_losses(val, wide, ex, logits, targets, n, v, losses));
}

/// The analytic gradient of logit `j` of row `r`: times the number of rows, and
/// with one added at the target, it is the probability of the logit.
pub proof fn lemma_analytic<F: Single>(
    val: spec_fn(F) -> real,
    wide: spec_fn(F::Wide) -> real,
    ex: spec_fn(real) -> real,
    logits: Seq<F>,
    targets: Seq<u16>,
    n: int,
    v: int,
    a: Seq<F::Wide>,
    r: int,
    j: int,
)
    requires
        exact(wide),
        exponential(wide, ex),
        exact_widening(val, wide),
        0 <= r < n <= usize::MAX,
        0 <= j < v,
        logits.len() == n * v,
        analytic_is(logits, targets, n, v, a),
    ensures
        a.len() == n * v,
        times(
            times(wide(a[r * v + j]), n as real) + if j == targets[r] {
                1 as real
            } else {
                0 as real
            },
            sum_to(v as nat, |k: int| ex(val(logits[r * v + k]))),
        ) == ex(val(logits[r * v + j])),
{
    let count = choose|count: F::Wide| #[trigger]
        ratio_is(n as usize, 1, count) && forall|r: int|
            0 <= r < n ==> analytic_row_is(
                row(logits, r, v),
                targets[r] as int,
                count,
                #[trigger] row(a, r, v),
            );
    lemma_row_bounds(r, n, v);
    let x = row(logits, r, v);
    let y = row(a, r, v);
    let t = targets[r] as int;
    assert(analytic_row_is(x, t, count, y));
    let (m, sum) = choose|m: F::Wide, sum: F::Wide| #[trigger]
        softmax_parts_are(x, m, sum) && forall|j: int|
            0 <= j < y.len() ==> analytic_entry_is(x, t, count, m, sum, j, #[trigger] y[j]);
    assert(analytic_entry_is(x, t, count, m, sum, j, y[j]));
    let p = choose|p: F::Wide| #[trigger]
        wide_prob_is(x, m, sum, j, p) && analytic_at(p, j == t, count, y[j]);
    lemma_wide_prob(val, wide, ex, x, m, sum, j, p);
    lemma_sum_same(v as nat, |k: int| ex(val(x[k])), |k: int| ex(val(logits[r * v + k])));
    let k = wide(count);
    assert(k * (1 as int as real) == n as usize as int as real);
    assert(k * 1 as real == k) by (nonlinear_arith);
    let (ind, d) = choose|ind: F::Wide, d: F::Wide|
        indicator_is(j == t, ind) && #[trigger] difference_is(p, ind, d) && quotient_is(
            d,
            count,
            y[j],
        );
    assert(times(wide(y[j]), k) == wide(d));
    assert(wide(d) + wide(ind) == wide(p));
}

/// A central difference times twice the step is the difference of the losses.
proof fn lemma_central<F: Scalar>(val: spec_fn(F) -> real, lp: F, lm: F, eps: F, g: F)
    requires
        exact(val),
        val(eps) != 0 as real,
        central_is(lp, lm, eps, g),
    ensures
        times(val(g), 2 as real * val(eps)) == val(lp) - val(lm),
{
    let (d, two, step) = choose|d: F, two: F, step: F| #[trigger]
        difference_is(lp, lm, d) && #[trigger] ratio_is(2, 1, two) && #[trigger] product_is(
            two,
            eps,
            step,
        ) && quotient_is(d, step, g);
    let a = val(two);
    assert(a * (1 as int as real) == 2 as int as real);
    assert(a * 1 as real == a) by (nonlinear_arith);
    assert(val(step) == 2 as real * val(eps));
    assert(times(val(g), val(step)) == val(d));
}

/// The numerical gradient by parameter `i`, times twice the step, is the loss
/// with the parameter a step higher less the loss with it a step lower, all
/// other parameters the same.
pub proof fn lemma_numerical_grad<F: Single>(
    val: spec_fn(F) -> real,
    c: Config,
    params: Seq<F>,
    ids: Seq<u16>,
    targets: Seq<u16>,
    i: int,
    eps: F,
    g: F,
)
    requires
        exact(val),
        val(eps) != 0 as real,
        0 <= i < params.len(),
        numerical_grad_is(c, params, ids, targets, i, eps, g),
    ensures
        exists|up: Seq<F>, down: Seq<F>, lp: F, lm: F| #[trigger]
            batch_loss_is(c, up, ids, targets, None, lp) && #[trigger] batch_loss_is(
                c,
                down,
                ids,
                targets,
                None,
                lm,
            ) && up.len() == params.len() && down.len() == params.len() && (forall|k: int|
                0 <= k < params.len() && k != i ==> #[trigger] up[k] == params[k]) && (forall|
                k: int,
            |
                0 <= k < params.len() && k != i ==> #[trigger] down[k] == params[k]) && val(up[i])
                == val(params[i]) + val(eps) && val(down[i]) == val(params[i]) - val(eps) && times(
                val(g),
                2 as real * val(eps),
            ) == val(lp) - val(lm),
{
    let (high, low, lp, lm) = choose|high: F, low: F, lp: F, lm: F| #[trigger]
        numerical_grad_with(c, params, ids, targets, i, eps, g, high, low, lp, lm);
    lemma_central(val, lp, lm, eps, g);
    let (up, down) = (params.update(i, high), params.update(i, low));
    assert(batch_loss_is(c, up, ids, targets, None, lp));
    assert(batch_loss_is(c, down, ids, targets, None, lm));
}

/// The numerical gradient by logit `i`, times twice the step, is the loss with
/// the logit a step higher less the loss with it a step lower.
pub proof fn lemma_numerical_logit_grad<F: Single>(
    val: spec_fn(F) -> real,
    wide: spec_fn(F::Wide) -> real,
    logits: Seq<F>,
    targets: Seq<u16>,
    n: int,
    v: int,
    i: int,
    eps: F,
    g: F::Wide,
)
    requires
        exact(val),
        exact(wide),
        exact_widening(val, wide),
        val(eps) != 0 as real,
        0 <= i < logits.len(),
        logit_grad_is(logits, targets, n, v, i, eps, g),
    ensures
        exists|high: F, low: F, lp: F::Wide, lm: F::Wide| #[trigger]
            logit_loss_is(logits.update(i, high), targets, n, v, lp) && #[trigger] logit_loss_is(
                logits.update(i, low),
                targets,
                n,
                v,
                lm,
            ) && val(high) == val(logits[i]) + val(eps) && val(low) == val(logits[i]) - val(eps)
                && times(wide(g), 2 as real * val(eps)) == wide(lp) - wide(lm),
{
    let (high, low, lp, lm, step) = choose|
        high: F,
        low: F,
        lp: F::Wide,
        lm: F::Wide,
        step: F::Wide,
    | #[trigger]
        logit_grad_with(logits, targets, n, v, i, eps, g, high, low, lp, lm, step);
    lemma_central(wide, lp, lm, step, g);
    assert(logit_loss_is(logits.update(i, high), targets, n, v, lp));
    assert(logit_loss_is(logits.update(i, low), targets, n, v, lm));
}

/// The largest error is no smaller than the one at any logit.
proof fn lemma_worst_from<F: Single>(
    wide: spec_fn(F::Wide) -> real,
    logits: Seq<F>,
    targets: Seq<u16>,
    n: int,
    v: int,
    eps: F,
    a: Seq<F::Wide>,
    zero: F::Wide,
    m: nat,
    worst: F::Wide,
    k: int,
)
    requires
        exact(wide),
        0 <= k < m,
        fold_is(m, zero, worst_steps(logits, targets, n, v, eps, a), worst),
    ensures
        exists|numeric: F::Wide, rel: F::Wide| #[trigger]
            logit_grad_is(logits, targets, n, v, k, eps, numeric) && #[trigger] rel_error_is(
                a[k],
                numeric,
                rel,
            ) && wide(rel) <= wide(worst),
    decreases m,
{
    let step = worst_steps(logits, targets, n, v, eps, a);
    let q = (m - 1) as nat;
    let p = choose|p: F::Wide| fold_is(q, zero, step, p) && #[trigger] step(q, p, worst);
    assert(worst_step_is(logits, targets, n, v, eps, a, q as int, p, worst));
    if k < q {
        lemma_worst_from(wide, logits, targets, n, v, eps, a, zero, q, p, k);
    }
}

/// The largest error over the logits is no smaller than the relative error
/// between the analytic and the numerical gradient of any of them.
pub proof fn lemma_worst_error<F: Single>(
    wide: spec_fn(F::Wide) -> real,
    logits: Seq<F>,
    targets: Seq<u16>,
    n: int,
    v: int,
    eps: F,
    worst: F::Wide,
    k: int,
)
    requires
        exact(wide),
        0 <= k < n * v,
        worst_error_is(logits, targets, n, v, eps, worst),
    ensures
        exists|a: Seq<F::Wide>, numeric: F::Wide, rel: F::Wide|
            #[trigger] analytic_is(logits, targets, n, v, a) && #[trigger]
            logit_grad_is(logits, targets, n, v, k, eps, numeric) && #[trigger] rel_error_is(
                a[k],
                numeric,
                rel,
            ) && wide(rel) <= wide(worst),
{
    let (a, zero) = choose|a: Seq<F::Wide>, zero: F::Wide| #[trigger]
        analytic_is(logits, targets, n, v, a) && #[trigger] is_zero(zero)
            && fold_is(
            (n * v) as nat,
            zero,
            worst_steps(logits, targets, n, v, eps, a),
            worst,
        );
    lemma_worst_from(wide, logits, targets, n, v, eps, a, zero, (n * v) as nat, worst, k);
}

/// The error after `m` logits is the one that it starts from or that of a logit.
proof fn lemma_worst_found<F: Single>(
    wide: spec_fn(F::Wide) -> real,
    logits: Seq<F>,
    targets: Seq<u16>,
    n: int,
    v: int,
    eps: F,
    a: Seq<F::Wide>,
    zero: F::Wide,
    m: nat,
    worst: F::Wide,
)
    requires
        exact(wide),
        fold_is(m, zero, worst_steps(logits, targets, n, v, eps, a), worst),
    ensures
        worst == zero || exists|k: int|
            0 <= k < m && #[trigger] error_at(logits, targets, n, v, eps, a, k, worst),
    decreases m,
{
    if m > 0 {
        let step = worst_steps(logits, targets, n, v, eps, a);
        let q = (m - 1) as nat;
        let p = choose|p: F::Wide| fold_is(q, zero, step, p) && #[trigger] step(q, p, worst);
        assert(worst_step_is(logits, targets, n, v, eps, a, q as int, p, worst));
        let (numeric, rel) = choose|numeric: F::Wide, rel: F::Wide| #[trigger]
            logit_grad_is(logits, targets, n, v, q as int, eps, numeric) && #[trigger] rel_error_is(
                a[q as int],
                numeric,
                rel,
            ) && larger_is(p, rel, worst);
        lemma_worst_found(wide, logits, targets, n, v, eps, a, zero, q, p);
        if wide(worst) == wide(rel) {
            assert(error_at(logits, targets, n, v, eps, a, q as int, worst));
        } else {
            assert(wide(worst) == wide(p));
        }
    }
}

/// `e` is the relative error at logit `k`.
pub open spec fn error_at<F: Single>(
    logits: Seq<F>,
    targets: Seq<u16>,
    n: int,
    v: int,
    eps: F,
    a: Seq<F::Wide>,
    k: int,
    e: F::Wide,
) -> bool {
    exists|numeric: F::Wide| #[trigger]
        logit_grad_is(logits, targets, n, v, k, eps, numeric) && rel_error_is(a[k], numeric, e)
}

/// The largest error is zero or the relative error at some logit.
pub proof fn lemma_worst_attained<F: Single>(
    wide: spec_fn(F::Wide) -> real,
    logits: Seq<F>,
    targets: Seq<u16>,
    n: int,
    v: int,
    eps: F,
    worst: F::Wide,
)
    requires
        exact(wide),
        worst_error_is(logits, targets, n, v, eps, worst),
    ensures
        wide(worst) == 0 as real || exists|a: Seq<F::Wide>, k: int| #[trigger]
            analytic_is(logits, targets, n, v, a) && 0 <= k < n * v && #[trigger] error_at(
                logits,
                targets,
                n,
                v,
                eps,
                a,
                k,
                worst,
            ),
{
    let (a, zero) = choose|a: Seq<F::Wide>, zero: F::Wide| #[trigger]
        analytic_is(logits, targets, n, v, a) && #[trigger] is_zero(zero) && fold_is(
            (n * v) as nat,
            zero,
            worst_steps(logits, targets, n, v, eps, a),
            worst,
        );
    lemma_worst_found(wide, logits, targets, n, v, eps, a, zero, (n * v) as nat, worst);
}

/// The loss in double precision is that of a forward pass without dropout, over
/// parameters that have the values of the model's.
pub proof fn lemma_wide_loss<F: Single>(
    val: spec_fn(F) -> real,
    wide: spec_fn(F::Wide) -> real,
    c: Config,
    params: Seq<F>,
    ids: Seq<u16>,
    targets: Seq<u16>,
    loss: F::Wide,
)
    requires
        exact_widening(val, wide),
        wide_loss_is(c, params, ids, targets, loss),
    ensures
        exists|w: Seq<F::Wide>| #[trigger]
            batch_loss_is(c, w, ids, targets, None, loss) && w.len() == params.len() && forall|
                i: int,
            |
                0 <= i < w.len() ==> wide(#[trigger] w[i]) == val(params[i]),
{
}

/// The gradients in double precision are those of a backward pass behind such a
/// forward pass.
pub proof fn lemma_wide_grads<F: Single>(
    val: spec_fn(F) -> real,
    wide: spec_fn(F::Wide) -> real,
    c: Config,
    params: Seq<F>,
    ids: Seq<u16>,
    targets: Seq<u16>,
    grads: Seq<F::Wide>,
)
    requires
        exact_widening(val, wide),
        wide_grads_are(c, params, ids, targets, grads),
    ensures
        exists|w: Seq<F::Wide>, acts: Seq<F::Wide>, gacts: Seq<F::Wide>, loss: F::Wide| #[trigger]
            backward_is(c, w, ids, targets, None, acts, grads, gacts) && forward_is(
                c,
                w,
                ids,
                None,
                acts,
            ) && #[trigger] scored_is(c, acts, targets, loss) && w.len() == params.len() && forall|
                i: int,
            |
                0 <= i < w.len() ==> wide(#[trigger] w[i]) == val(params[i]),
{
}

} // verus!
