//! Gradients by central differences, to check analytic ones against.

use vstd::prelude::*;

use crate::arena::{copied, flatten, row, row_of};
use crate::layout::{act_layout, Config};
use crate::model::forward::{batch_ids, batch_loss_is, forward_is};
use crate::model::layer::lemma_shapes;
use crate::model::unique::single_valued;
use crate::model::Gpt;
use crate::ops::loss::{ids_below, indicator_is, shifted_exp_is};
use crate::scalar::{
    abs_is, difference_is, fold_is, is_zero, larger_is, largest, largest_is, lemma_fold_push,
    ln_is, negation_is, product_is, quotient_is, ratio_is, sum_is, total, total_is, widened_is,
    Scalar, Single,
};

verus! {

/// `r` is `1e-12`.
pub open spec fn tiny_is<F: Scalar>(r: F) -> bool {
    exists|micro: F| #[trigger] ratio_is(1, 1_000_000, micro) && product_is(micro, micro, r)
}

/// `r` is the largest of `|a|`, `|b|` and `1e-12`.
pub open spec fn magnitude_is<F: Scalar>(a: F, b: F, r: F) -> bool {
    exists|x: F, y: F, m: F, tiny: F| #[trigger]
        abs_is(a, x) && #[trigger] abs_is(b, y) && #[trigger] larger_is(x, y, m) && #[trigger]
        tiny_is(tiny) && larger_is(m, tiny, r)
}

/// `r` is the relative error `|a - b| / max(|a|, |b|, 1e-12)`.
pub open spec fn rel_error_is<F: Scalar>(a: F, b: F, r: F) -> bool {
    exists|den: F, d: F, num: F| #[trigger]
        magnitude_is(a, b, den) && #[trigger] difference_is(a, b, d) && #[trigger] abs_is(d, num)
            && quotient_is(num, den, r)
}

/// Relative error `|a - b| / max(|a|, |b|, 1e-12)`.
pub fn rel_error<F: Scalar>(a: F, b: F) -> (r: F)
    ensures
        rel_error_is(a, b, r),
{
    let micro = F::from_ratio(1, 1_000_000);
    let tiny = micro.times(micro);
    assert(tiny_is(tiny));
    let den = a.abs().larger(b.abs()).larger(tiny);
    assert(magnitude_is(a, b, den));
    a.minus(b).abs().divide(den)
}

/// Taken the other way round, the difference of `a` and `b` has the same
/// magnitude and the larger of their magnitudes is the same. So it is of
/// floating-point numbers that are numbers.
pub open spec fn swaps<F: Scalar>(a: F, b: F) -> bool {
    &&& forall|d: F, e: F, x: F, y: F|
        difference_is(a, b, d) && difference_is(b, a, e) && #[trigger] abs_is(d, x) && #[trigger]
        abs_is(e, y) ==> x == y
    &&& forall|x: F, y: F, m: F, n: F|
        abs_is(a, x) && abs_is(b, y) && #[trigger] larger_is(x, y, m) && #[trigger] larger_is(
            y,
            x,
            n,
        ) ==> m == n
}

/// The relative error is symmetric.
pub proof fn lemma_rel_error_symmetric<F: Scalar>(a: F, b: F, r: F, s: F)
    requires
        single_valued::<F>(),
        swaps(a, b),
        rel_error_is(a, b, r),
        rel_error_is(b, a, s),
    ensures
        r == s,
{
    let (den1, d1, num1) = choose|den: F, d: F, num: F| #[trigger]
        magnitude_is(a, b, den) && #[trigger] difference_is(a, b, d) && #[trigger] abs_is(d, num)
            && quotient_is(num, den, r);
    let (den2, d2, num2) = choose|den: F, d: F, num: F| #[trigger]
        magnitude_is(b, a, den) && #[trigger] difference_is(b, a, d) && #[trigger] abs_is(d, num)
            && quotient_is(num, den, s);
    assert(num1 == num2);
    lemma_magnitude_symmetric(a, b, den1, den2);
}

proof fn lemma_magnitude_symmetric<F: Scalar>(a: F, b: F, r: F, s: F)
    requires
        single_valued::<F>(),
        swaps(a, b),
        magnitude_is(a, b, r),
        magnitude_is(b, a, s),
    ensures
        r == s,
{
    let (x1, y1, m1, t1) = choose|x: F, y: F, m: F, tiny: F| #[trigger]
        abs_is(a, x) && #[trigger] abs_is(b, y) && #[trigger] larger_is(x, y, m) && #[trigger]
        tiny_is(tiny) && larger_is(m, tiny, r);
    let (x2, y2, m2, t2) = choose|x: F, y: F, m: F, tiny: F| #[trigger]
        abs_is(b, x) && #[trigger] abs_is(a, y) && #[trigger] larger_is(x, y, m) && #[trigger]
        tiny_is(tiny) && larger_is(m, tiny, s);
    assert(x1 == y2 && y1 == x2);
    assert(m1 == m2);
    assert(t1 == t2);
}

/// `a` less itself is zero, and zero has no magnitude and stays zero over the
/// magnitude of `a`. So it is of finite floating-point numbers.
pub open spec fn cancels<F: Scalar>(a: F) -> bool {
    &&& forall|d: F| #[trigger] difference_is(a, a, d) ==> is_zero(d)
    &&& forall|z: F, x: F| is_zero(z) && #[trigger] abs_is(z, x) ==> is_zero(x)
    &&& forall|z: F, den: F, r: F|
        is_zero(z) && magnitude_is(a, a, den) && #[trigger] quotient_is(z, den, r) ==> is_zero(r)
}

/// The relative error of equal values is zero.
pub proof fn lemma_rel_error_zero<F: Scalar>(a: F, r: F)
    requires
        cancels(a),
        rel_error_is(a, a, r),
    ensures
        is_zero(r),
{
}

/// `r` is `(lp - lm) / (2 * eps)`.
pub open spec fn central_is<F: Scalar>(lp: F, lm: F, eps: F, r: F) -> bool {
    exists|d: F, two: F, step: F| #[trigger]
        difference_is(lp, lm, d) && #[trigger] ratio_is(2, 1, two) && #[trigger] product_is(
            two,
            eps,
            step,
        ) && quotient_is(d, step, r)
}

/// `(lp - lm) / (2 * eps)`.
fn central<F: Scalar>(lp: F, lm: F, eps: F) -> (r: F)
    ensures
        central_is(lp, lm, eps, r),
{
    let d = lp.minus(lm);
    let step = F::from_ratio(2, 1).times(eps);
    d.divide(step)
}

/// `g` is the central difference of the loss by parameter `i`, by the loss `lp`
/// with the parameter `eps` higher and the loss `lm` with it `eps` lower.
pub open spec fn numerical_grad_with<F: Single>(
    c: Config,
    params: Seq<F>,
    ids: Seq<u16>,
    targets: Seq<u16>,
    i: int,
    eps: F,
    g: F,
    high: F,
    low: F,
    lp: F,
    lm: F,
) -> bool {
    &&& sum_is(params[i], eps, high)
    &&& difference_is(params[i], eps, low)
    &&& batch_loss_is(c, params.update(i, high), ids, targets, None, lp)
    &&& batch_loss_is(c, params.update(i, low), ids, targets, None, lm)
    &&& central_is(lp, lm, eps, g)
}

/// `g` is the central difference of the loss by parameter `i`.
pub open spec fn numerical_grad_is<F: Single>(
    c: Config,
    params: Seq<F>,
    ids: Seq<u16>,
    targets: Seq<u16>,
    i: int,
    eps: F,
    g: F,
) -> bool {
    exists|high: F, low: F, lp: F, lm: F| #[trigger]
        numerical_grad_with(c, params, ids, targets, i, eps, g, high, low, lp, lm)
}

/// Central-difference gradient of the loss by parameter `i`. The parameters are
/// what they were afterwards.
pub fn numerical_grad<F: Single>(
    model: &mut Gpt<F>,
    ids: &[u16],
    targets: &[u16],
    i: usize,
    eps: F,
) -> (g: F)
    requires
        old(model).wf(),
        old(model).cfg.runs(),
        batch_ids(old(model).cfg, ids@),
        batch_ids(old(model).cfg, targets@),
        i < old(model).params@.len(),
    ensures
        final(model).wf(),
        *final(model) == (Gpt {
            params: final(model).params,
            acts: final(model).acts,
            ..*old(model)
        }),
        final(model).params@ == old(model).params@,
        numerical_grad_is(
            old(model).cfg,
            old(model).params@,
            ids@,
            targets@,
            i as int,
            eps,
            g,
        ),
{
    let ghost params = model.params@;
    let orig = model.param(i);
    let high = orig.plus(eps);
    model.set_param(i, high);
    let lp = model.forward(ids, Some(targets)).unwrap();
    let low = orig.minus(eps);
    model.set_param(i, low);
    let lm = model.forward(ids, Some(targets)).unwrap();
    model.set_param(i, orig);
    let g = central(lp, lm, eps);
    proof {
        let k = i as int;
        assert(params.update(k, high).update(k, low) =~= params.update(k, low));
        assert(params.update(k, low).update(k, orig) =~= params);
        assert(numerical_grad_with(
            model.cfg,
            params,
            ids@,
            targets@,
            k,
            eps,
            g,
            high,
            low,
            lp,
            lm,
        ));
    }
    g
}

/// `e` is `exp(x - m)` in double precision.
pub open spec fn wide_exp_is<F: Single>(x: F, m: F::Wide, e: F::Wide) -> bool {
    exists|w: F::Wide| #[trigger] widened_is(x, w) && shifted_exp_is(w, m, e)
}

/// `e[j]` is `exp(x[j] - m)` in double precision.
pub open spec fn wide_exps_are<F: Single>(x: Seq<F>, m: F::Wide, e: Seq<F::Wide>) -> bool {
    &&& e.len() == x.len()
    &&& forall|j: int| 0 <= j < e.len() ==> wide_exp_is(x[j], m, #[trigger] e[j])
}

/// `m` is the largest value of `x` and `sum` the sum of the `exp(x[j] - m)`, both
/// in double precision.
pub open spec fn softmax_parts_are<F: Single>(x: Seq<F>, m: F::Wide, sum: F::Wide) -> bool {
    exists|top: F, e: Seq<F::Wide>| #[trigger]
        largest_is(x, top) && widened_is(top, m) && #[trigger] wide_exps_are(x, m, e) && total_is(
            e,
            sum,
        )
}

/// `p` is the probability of entry `j` in the softmax of `x`, in double
/// precision.
pub open spec fn wide_prob_is<F: Single>(
    x: Seq<F>,
    m: F::Wide,
    sum: F::Wide,
    j: int,
    p: F::Wide,
) -> bool {
    exists|e: F::Wide| #[trigger] wide_exp_is(x[j], m, e) && quotient_is(e, sum, p)
}

/// `l` is the cross-entropy of the target `j` in the softmax of `x`, in double
/// precision.
pub open spec fn wide_row_loss_is<F: Single>(x: Seq<F>, j: int, l: F::Wide) -> bool {
    exists|m: F::Wide, sum: F::Wide, p: F::Wide, g: F::Wide| #[trigger]
        softmax_parts_are(x, m, sum) && #[trigger] wide_prob_is(x, m, sum, j, p) && #[trigger]
        ln_is(p, g) && negation_is(g, l)
}

/// The losses of the rows.
pub open spec fn wide_losses_are<F: Single>(
    logits: Seq<F>,
    targets: Seq<u16>,
    n: int,
    v: int,
    losses: Seq<F::Wide>,
) -> bool {
    &&& losses.len() == n
    &&& forall|r: int|
        0 <= r < n ==> wide_row_loss_is(
            row(logits, r, v),
            targets[r] as int,
            #[trigger] losses[r],
        )
}

/// `l` is the mean cross-entropy of `n` rows of `v` logits, in double precision.
pub open spec fn logit_loss_is<F: Single>(
    logits: Seq<F>,
    targets: Seq<u16>,
    n: int,
    v: int,
    l: F::Wide,
) -> bool {
    exists|losses: Seq<F::Wide>, sum: F::Wide, count: F::Wide| #[trigger]
        wide_losses_are(logits, targets, n, v, losses) && #[trigger] total_is(losses, sum)
            && #[trigger] ratio_is(n as usize, 1, count) && quotient_is(sum, count, l)
}

/// The largest value of `x` and the sum of the `exp(x[j] - m)`, both in double
/// precision.
fn softmax_parts<F: Single>(x: &[F]) -> (res: (F::Wide, F::Wide))
    ensures
        softmax_parts_are(x@, res.0, res.1),
{
    let top = largest(x);
    let m = top.widen();
    let mut e: Vec<F::Wide> = Vec::with_capacity(x.len());
    for j in 0..x.len()
        invariant
            e@.len() == j,
            forall|k: int| 0 <= k < j ==> wide_exp_is(x@[k], m, #[trigger] e@[k]),
    {
        e.push(wide_exp(x[j], m));
    }
    let sum = total(e.as_slice());
    assert(wide_exps_are(x@, m, e@));
    (m, sum)
}

/// `exp(x - m)` in double precision.
fn wide_exp<F: Single>(x: F, m: F::Wide) -> (e: F::Wide)
    ensures
        wide_exp_is(x, m, e),
{
    let w = x.widen();
    let e = w.minus(m).exp();
    assert(shifted_exp_is(w, m, e));
    e
}

/// The mean cross-entropy of `n` rows of `v` logits, in double precision.
pub fn loss_from_logits<F: Single>(logits: &[F], targets: &[u16], n: usize, v: usize) -> (l:
    F::Wide)
    requires
        logits@.len() == n * v,
        targets@.len() == n,
        ids_below(targets@, v as int),
    ensures
        logit_loss_is(logits@, targets@, n as int, v as int, l),
{
    let mut losses: Vec<F::Wide> = Vec::with_capacity(n);
    for r in 0..n
        invariant
            logits@.len() == n * v,
            targets@.len() == n,
            ids_below(targets@, v as int),
            losses@.len() == r,
            forall|q: int|
                0 <= q < r ==> wide_row_loss_is(
                    row(logits@, q, v as int),
                    targets@[q] as int,
                    #[trigger] losses@[q],
                ),
    {
        let x = row_of(logits, r, n, v);
        let (m, sum) = softmax_parts(x);
        assert(targets@[r as int] < v);
        let e = wide_exp(x[targets[r] as usize], m);
        let p = e.divide(sum);
        assert(wide_prob_is(x@, m, sum, targets@[r as int] as int, p));
        losses.push(p.ln().negate());
    }
    let sum = total(losses.as_slice());
    let count = <F::Wide as Scalar>::from_ratio(n, 1);
    assert(wide_losses_are(logits@, targets@, n as int, v as int, losses@));
    sum.divide(count)
}

/// `g` is the central difference of the mean cross-entropy by logit `idx`, by
/// the losses with the logit `eps` higher and lower.
pub open spec fn logit_grad_with<F: Single>(
    logits: Seq<F>,
    targets: Seq<u16>,
    n: int,
    v: int,
    idx: int,
    eps: F,
    g: F::Wide,
    high: F,
    low: F,
    lp: F::Wide,
    lm: F::Wide,
    step: F::Wide,
) -> bool {
    &&& sum_is(logits[idx], eps, high)
    &&& difference_is(logits[idx], eps, low)
    &&& logit_loss_is(logits.update(idx, high), targets, n, v, lp)
    &&& logit_loss_is(logits.update(idx, low), targets, n, v, lm)
    &&& widened_is(eps, step)
    &&& central_is(lp, lm, step, g)
}

/// `g` is the central difference of the mean cross-entropy by logit `idx`.
pub open spec fn logit_grad_is<F: Single>(
    logits: Seq<F>,
    targets: Seq<u16>,
    n: int,
    v: int,
    idx: int,
    eps: F,
    g: F::Wide,
) -> bool {
    exists|high: F, low: F, lp: F::Wide, lm: F::Wide, step: F::Wide| #[trigger]
        logit_grad_with(logits, targets, n, v, idx, eps, g, high, low, lp, lm, step)
}

/// Central-difference gradient of the mean cross-entropy by one logit. The
/// logits are what they were afterwards.
pub fn numerical_logit_grad<F: Single>(
    logits: &mut [F],
    targets: &[u16],
    n: usize,
    v: usize,
    idx: usize,
    eps: F,
) -> (g: F::Wide)
    requires
        old(logits)@.len() == n * v,
        targets@.len() == n,
        ids_below(targets@, v as int),
        idx < n * v,
    ensures
        final(logits)@ == old(logits)@,
        logit_grad_is(old(logits)@, targets@, n as int, v as int, idx as int, eps, g),
{
    let ghost start = logits@;
    assert(logits@.len() == logits.len());
    let orig = logits[idx];
    let high = orig.plus(eps);
    logits[idx] = high;
    let lp = loss_from_logits(logits, targets, n, v);
    let low = orig.minus(eps);
    logits[idx] = low;
    assert(logits@ =~= start.update(idx as int, low));
    let lm = loss_from_logits(logits, targets, n, v);
    logits[idx] = orig;
    let step = eps.widen();
    let g = central(lp, lm, step);
    proof {
        assert(logits@ =~= start);
        assert(logit_grad_with(
            start,
            targets@,
            n as int,
            v as int,
            idx as int,
            eps,
            g,
            high,
            low,
            lp,
            lm,
            step,
        ));
    }
    g
}

/// `a` is the analytic gradient `(p - 1{hit}) / n` of the mean cross-entropy by
/// a logit of probability `p`.
pub open spec fn analytic_at<F: Scalar>(p: F, hit: bool, count: F, a: F) -> bool {
    exists|ind: F, d: F|
        indicator_is(hit, ind) && #[trigger] difference_is(p, ind, d) && quotient_is(d, count, a)
}

/// The analytic gradients of one row.
pub open spec fn analytic_row_is<F: Single>(
    x: Seq<F>,
    target: int,
    count: F::Wide,
    a: Seq<F::Wide>,
) -> bool {
    &&& a.len() == x.len()
    &&& exists|m: F::Wide, sum: F::Wide| #[trigger]
        softmax_parts_are(x, m, sum) && forall|j: int|
            0 <= j < a.len() ==> analytic_entry_is(x, target, count, m, sum, j, #[trigger] a[j])
}

/// The analytic gradient of entry `j` of a row.
pub open spec fn analytic_entry_is<F: Single>(
    x: Seq<F>,
    target: int,
    count: F::Wide,
    m: F::Wide,
    sum: F::Wide,
    j: int,
    a: F::Wide,
) -> bool {
    exists|p: F::Wide| #[trigger]
        wide_prob_is(x, m, sum, j, p) && analytic_at(p, j == target, count, a)
}

/// The analytic gradients of the mean cross-entropy by all logits.
pub open spec fn analytic_is<F: Single>(
    logits: Seq<F>,
    targets: Seq<u16>,
    n: int,
    v: int,
    a: Seq<F::Wide>,
) -> bool {
    &&& a.len() == n * v
    &&& exists|count: F::Wide| #[trigger]
        ratio_is(n as usize, 1, count) && forall|r: int|
            0 <= r < n ==> analytic_row_is(
                row(logits, r, v),
                targets[r] as int,
                count,
                #[trigger] row(a, r, v),
            )
}

/// The analytic gradients of one row.
fn analytic_row<F: Single>(x: &[F], target: usize, count: F::Wide) -> (a: Vec<F::Wide>)
    ensures
        analytic_row_is(x@, target as int, count, a@),
{
    let (m, sum) = softmax_parts(x);
    let mut a: Vec<F::Wide> = Vec::with_capacity(x.len());
    for j in 0..x.len()
        invariant
            a@.len() == j,
            forall|k: int|
                0 <= k < j ==> analytic_entry_is(
                    x@,
                    target as int,
                    count,
                    m,
                    sum,
                    k,
                    #[trigger] a@[k],
                ),
    {
        let p = wide_exp(x[j], m).divide(sum);
        assert(wide_prob_is(x@, m, sum, j as int, p));
        let ind = if j == target {
            <F::Wide as Scalar>::one()
        } else {
            <F::Wide as Scalar>::zero()
        };
        assert(indicator_is(j == target, ind));
        let g = p.minus(ind).divide(count);
        assert(analytic_at(p, j as int == target as int, count, g));
        a.push(g);
    }
    a
}

/// The analytic gradients of the mean cross-entropy by all logits.
fn analytic<F: Single>(logits: &[F], targets: &[u16], n: usize, v: usize) -> (a: Vec<F::Wide>)
    requires
        logits@.len() == n * v,
        targets@.len() == n,
    ensures
        analytic_is(logits@, targets@, n as int, v as int, a@),
{
    let count = <F::Wide as Scalar>::from_ratio(n, 1);
    let mut rows: Vec<Vec<F::Wide>> = Vec::with_capacity(n);
    for r in 0..n
        invariant
            logits@.len() == n * v,
            targets@.len() == n,
            rows@.len() == r,
            forall|q: int|
                0 <= q < r ==> (#[trigger] rows@[q])@.len() == v && analytic_row_is(
                    row(logits@, q, v as int),
                    targets@[q] as int,
                    count,
                    rows@[q]@,
                ),
    {
        rows.push(analytic_row(row_of(logits, r, n, v), targets[r] as usize, count));
    }
    let a = flatten(&rows, v);
    proof {
        assert forall|r: int| 0 <= r < n implies analytic_row_is(
            row(logits@, r, v as int),
            targets@[r] as int,
            count,
            #[trigger] row(a@, r, v as int),
        ) by {
            assert(row(a@, r, v as int) == rows@[r]@);
        }
        assert(ratio_is(n, 1, count));
    }
    a
}

/// The steps of the largest relative error: logit `k` adds that of its analytic
/// and its numerical gradient.
pub open spec fn worst_steps<F: Single>(
    logits: Seq<F>,
    targets: Seq<u16>,
    n: int,
    v: int,
    eps: F,
    a: Seq<F::Wide>,
) -> spec_fn(nat, F::Wide, F::Wide) -> bool {
    |k: nat, worst: F::Wide, next: F::Wide|
        worst_step_is(logits, targets, n, v, eps, a, k as int, worst, next)
}

/// `next` is the larger of `worst` and the relative error at logit `k`.
pub open spec fn worst_step_is<F: Single>(
    logits: Seq<F>,
    targets: Seq<u16>,
    n: int,
    v: int,
    eps: F,
    a: Seq<F::Wide>,
    k: int,
    worst: F::Wide,
    next: F::Wide,
) -> bool {
    exists|numeric: F::Wide, rel: F::Wide| #[trigger]
        logit_grad_is(logits, targets, n, v, k, eps, numeric) && #[trigger] rel_error_is(
            a[k],
            numeric,
            rel,
        ) && larger_is(worst, rel, next)
}

/// `worst` is the largest relative error over all logits between the analytic
/// gradient and the central difference of the mean cross-entropy.
pub open spec fn worst_error_is<F: Single>(
    logits: Seq<F>,
    targets: Seq<u16>,
    n: int,
    v: int,
    eps: F,
    worst: F::Wide,
) -> bool {
    exists|a: Seq<F::Wide>, zero: F::Wide| #[trigger]
        analytic_is(logits, targets, n, v, a) && #[trigger] is_zero(zero) && fold_is(
            (n * v) as nat,
            zero,
            worst_steps(logits, targets, n, v, eps, a),
            worst,
        )
}

/// The largest relative error over all logits.
pub fn worst_error<F: Single>(
    logits: &mut [F],
    targets: &[u16],
    n: usize,
    v: usize,
    eps: F,
) -> (worst: F::Wide)
    requires
        old(logits)@.len() == n * v,
        targets@.len() == n,
        ids_below(targets@, v as int),
    ensures
        final(logits)@ == old(logits)@,
        worst_error_is(old(logits)@, targets@, n as int, v as int, eps, worst),
{
    let ghost start = logits@;
    let a = analytic(logits, targets, n, v);
    let zero = <F::Wide as Scalar>::zero();
    let ghost steps = worst_steps(start, targets@, n as int, v as int, eps, a@);
    let mut worst = zero;
    let total_logits = logits.len();
    for k in 0..total_logits
        invariant
            total_logits == n * v,
            logits@ == start,
            logits@.len() == n * v,
            targets@.len() == n,
            ids_below(targets@, v as int),
            a@.len() == n * v,
            steps == worst_steps(start, targets@, n as int, v as int, eps, a@),
            fold_is(k as nat, zero, steps, worst),
    {
        let numeric = numerical_logit_grad(logits, targets, n, v, k, eps);
        let rel = rel_error(a[k], numeric);
        let next = worst.larger(rel);
        proof {
            assert(worst_step_is(
                start,
                targets@,
                n as int,
                v as int,
                eps,
                a@,
                k as int,
                worst,
                next,
            ));
            assert(steps(k as nat, worst, next));
            lemma_fold_push(k as nat, zero, steps, worst, next);
        }
        worst = next;
    }
    assert(is_zero(zero));
    worst
}

/// `worst` is the largest relative error over the logits of a forward pass.
pub open spec fn validated_is<F: Single>(
    c: Config,
    params: Seq<F>,
    ids: Seq<u16>,
    targets: Seq<u16>,
    eps: F,
    worst: F::Wide,
) -> bool {
    exists|acts: Seq<F>| #[trigger]
        forward_is(c, params, ids, None, acts) && worst_error_is(
            act_layout(c).logits.of(acts),
            targets,
            c.tokens(),
            c.vocab_size as int,
            eps,
            worst,
        )
}

/// Validate the harness: compare the analytic gradient of softmax and
/// cross-entropy, `(probs - onehot) / n`, with the central difference, over
/// every logit of a forward pass. Gives back the largest relative error.
pub fn validate_softmax_ce<F: Single>(
    model: &mut Gpt<F>,
    ids: &[u16],
    targets: &[u16],
    eps: F,
) -> (worst: F::Wide)
    requires
        old(model).wf(),
        old(model).cfg.runs(),
        batch_ids(old(model).cfg, ids@),
        batch_ids(old(model).cfg, targets@),
    ensures
        final(model).wf(),
        *final(model) == (Gpt { acts: final(model).acts, ..*old(model) }),
        validated_is(old(model).cfg, old(model).params@, ids@, targets@, eps, worst),
{
    proof {
        lemma_shapes(model.cfg);
    }
    let _ = model.forward(ids, Some(targets));
    let mut logits = copied(model.logits());
    let n = model.cfg.batch_size * model.cfg.block_size;
    let v = model.cfg.vocab_size;
    worst_error(logits.as_mut_slice(), targets, n, v, eps)
}

} // verus!
