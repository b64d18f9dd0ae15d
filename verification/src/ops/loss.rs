//! Softmax over the vocabulary and the cross-entropy loss, with the backward
//! pass of both in one.

use vstd::prelude::*;

use crate::arena::{flatten, lemma_row_bounds, only_changed, par_map, row, row_of, store, tensor};
use crate::layout::lemma_nonneg;
use crate::ops::pointwise::{each_times, each_times_is};
use crate::scalar::{
    difference_is, exp_is, fold_is, is_neg_infinity, is_one, is_zero, lemma_fold_push, ln_is,
    negation_is, product_is, quotient_is, ratio_is, running_max_is, sum_is, total, total_is, Scalar,
};

verus! {

/// The steps of a maximum: the larger of what was seen and `x[i]`.
pub open spec fn max_steps<F: Scalar>(x: Seq<F>) -> spec_fn(nat, F, F) -> bool {
    |i: nat, m: F, r: F| running_max_is(m, x[i as int], r)
}

/// `r` is the maximum of `x`, or negative infinity where `x` holds nothing
/// larger.
pub open spec fn peak_is<F: Scalar>(x: Seq<F>, r: F) -> bool {
    exists|bottom: F|
        #[trigger] is_neg_infinity(bottom) && fold_is(x.len(), bottom, max_steps(x), r)
}

/// The maximum of `x`.
pub fn peak<F: Scalar>(x: &[F]) -> (r: F)
    ensures
        peak_is(x@, r),
{
    let bottom = F::neg_infinity();
    let mut m = bottom;
    for i in 0..x.len()
        invariant
            fold_is(i as nat, bottom, max_steps(x@), m),
    {
        let v = x[i];
        let next = if v.exceeds(m) { v } else { m };
        proof {
            lemma_fold_push(i as nat, bottom, max_steps(x@), m, next);
        }
        m = next;
    }
    assert(is_neg_infinity(bottom));
    m
}

/// `r` is `exp(x - m)`.
pub open spec fn shifted_exp_is<F: Scalar>(x: F, m: F, r: F) -> bool {
    exists|d: F| #[trigger] difference_is(x, m, d) && exp_is(d, r)
}

/// `e[i]` is `exp(x[i] - m)`.
pub open spec fn shifted_exps_are<F: Scalar>(x: Seq<F>, m: F, e: Seq<F>) -> bool {
    &&& e.len() == x.len()
    &&& forall|i: int| 0 <= i < x.len() ==> shifted_exp_is(x[i], m, #[trigger] e[i])
}

/// The values `exp(x[i] - m)`.
pub fn shifted_exps<F: Scalar>(x: &[F], m: F) -> (e: Vec<F>)
    ensures
        shifted_exps_are(x@, m, e@),
{
    let mut e: Vec<F> = Vec::with_capacity(x.len());
    for i in 0..x.len()
        invariant
            e@.len() == i,
            forall|j: int| 0 <= j < i ==> shifted_exp_is(x@[j], m, #[trigger] e@[j]),
    {
        let v = x[i].minus(m).exp();
        assert(shifted_exp_is(x@[i as int], m, v));
        e.push(v);
    }
    e
}

/// `r` is `1 / x`.
pub open spec fn reciprocal_is<F: Scalar>(x: F, r: F) -> bool {
    exists|one: F| #[trigger] is_one(one) && quotient_is(one, x, r)
}

/// `y` is the softmax of `x`: `exp(x[i] - max) / sum`.
pub open spec fn softmax_row_is<F: Scalar>(x: Seq<F>, y: Seq<F>) -> bool {
    exists|m: F, e: Seq<F>, sum: F, inv: F|
        #[trigger] peak_is(x, m) && #[trigger] shifted_exps_are(x, m, e) && #[trigger] total_is(
            e,
            sum,
        ) && #[trigger] reciprocal_is(sum, inv) && each_times_is(e, inv, y)
}

/// `probs` is the softmax of `logits` row by row (`n` rows of `v`).
#[verifier::opaque]
pub open spec fn softmax_is<F: Scalar>(logits: Seq<F>, n: int, v: int, probs: Seq<F>) -> bool {
    &&& probs.len() == n * v
    &&& forall|r: int|
        0 <= r < n ==> softmax_row_is(row(logits, r, v), #[trigger] row(probs, r, v))
}

/// The softmax of one row.
fn softmax_row<F: Scalar>(x: &[F]) -> (y: Vec<F>)
    ensures
        softmax_row_is(x@, y@),
        y@.len() == x@.len(),
{
    let m = peak(x);
    let e = shifted_exps(x, m);
    let sum = total(e.as_slice());
    let inv = F::one().divide(sum);
    assert(reciprocal_is(sum, inv));
    each_times(e.as_slice(), inv)
}

/// The tensor at `probs_off` becomes the softmax of the one at `logits_off`,
/// the rows in parallel.
pub fn softmax_forward<F: Scalar>(
    acts: &mut [F],
    probs_off: usize,
    logits_off: usize,
    n: usize,
    v: usize,
)
    requires
        n * v <= usize::MAX,
        logits_off + n * v <= old(acts).len(),
        probs_off + n * v <= old(acts).len(),
    ensures
        only_changed(old(acts)@, final(acts)@, probs_off as int, n * v),
        softmax_is(
            tensor(old(acts)@, logits_off as int, n * v),
            n as int,
            v as int,
            tensor(final(acts)@, probs_off as int, n * v),
        ),
{
    proof {
        reveal(softmax_is);
        lemma_nonneg(n as int, v as int);
    }
    let logits: &[F] = &acts[logits_off..logits_off + n * v];
    let rows = par_map(n, |r: usize| -> (y: Vec<F>)
        requires r < n, logits@.len() == n * v,
        ensures softmax_row_is(row(logits@, r as int, v as int), y@), y@.len() == v,
        { softmax_row(row_of(logits, r, n, v)) });
    let flat = flatten(&rows, v);
    store(acts, probs_off, flat.as_slice());
}

/// `l` is `-ln(p)`.
pub open spec fn loss_is<F: Scalar>(p: F, l: F) -> bool {
    exists|g: F| #[trigger] ln_is(p, g) && negation_is(g, l)
}

/// `losses[r]` is `-ln` of the probability of the target in row `r`.
#[verifier::opaque]
pub open spec fn losses_are<F: Scalar>(
    probs: Seq<F>,
    targets: Seq<u16>,
    n: int,
    v: int,
    losses: Seq<F>,
) -> bool {
    &&& losses.len() == n
    &&& forall|r: int|
        0 <= r < n ==> loss_is(probs[r * v + targets[r]], #[trigger] losses[r])
}

/// Every id stands for an entry of a vocabulary of `v`.
pub open spec fn ids_below(ids: Seq<u16>, v: int) -> bool {
    forall|i: int| 0 <= i < ids.len() ==> #[trigger] ids[i] < v
}

/// The cross-entropy of each token, at `losses_off`, from the probabilities at
/// `probs_off`.
pub fn crossentropy_forward<F: Scalar>(
    acts: &mut [F],
    losses_off: usize,
    probs_off: usize,
    targets: &[u16],
    n: usize,
    v: usize,
)
    requires
        n * v <= usize::MAX,
        probs_off + n * v <= old(acts).len(),
        losses_off + n <= old(acts).len(),
        targets@.len() == n,
        ids_below(targets@, v as int),
    ensures
        only_changed(old(acts)@, final(acts)@, losses_off as int, n as int),
        losses_are(
            tensor(old(acts)@, probs_off as int, n * v),
            targets@,
            n as int,
            v as int,
            tensor(final(acts)@, losses_off as int, n as int),
        ),
{
    proof {
        reveal(losses_are);
        lemma_nonneg(n as int, v as int);
    }
    let probs: &[F] = &acts[probs_off..probs_off + n * v];
    let mut losses: Vec<F> = Vec::with_capacity(n);
    for r in 0..n
        invariant
            probs@.len() == n * v,
            targets@.len() == n,
            ids_below(targets@, v as int),
            losses@.len() == r,
            forall|q: int|
                0 <= q < r ==> loss_is(probs@[q * v + targets@[q]], #[trigger] losses@[q]),
    {
        proof {
            lemma_row_bounds(r as int, n as int, v as int);
        }
        let p = row_of(probs, r, n, v)[targets[r] as usize];
        let l = p.ln().negate();
        assert(loss_is(p, l));
        losses.push(l);
    }
    store(acts, losses_off, losses.as_slice());
}

/// `r` is the mean of the losses.
#[verifier::opaque]
pub open spec fn mean_loss_is<F: Scalar>(losses: Seq<F>, r: F) -> bool {
    exists|sum: F, count: F|
        #[trigger] total_is(losses, sum) && #[trigger] ratio_is(losses.len() as usize, 1, count)
            && quotient_is(sum, count, r)
}

/// The mean of the losses.
pub fn mean_loss<F: Scalar>(losses: &[F]) -> (r: F)
    ensures
        mean_loss_is(losses@, r),
{
    proof {
        reveal(mean_loss_is);
    }
    total(losses).divide(F::from_ratio(losses.len(), 1))
}

/// `ind` is one where `hit`, else zero.
pub open spec fn indicator_is<F: Scalar>(hit: bool, ind: F) -> bool {
    if hit {
        is_one(ind)
    } else {
        is_zero(ind)
    }
}

/// `new_d` is `old_d + (p - ind) * dmean`.
pub open spec fn logit_gradient_at<F: Scalar>(
    p: F,
    hit: bool,
    dmean: F,
    old_d: F,
    new_d: F,
) -> bool {
    exists|ind: F, d: F, g: F|
        indicator_is(hit, ind) && #[trigger] difference_is(p, ind, d) && #[trigger] product_is(
            d,
            dmean,
            g,
        ) && sum_is(old_d, g, new_d)
}

/// `new_d` is `old_d` plus the gradient of one token's loss by its logits:
/// `(probs - onehot(target)) * dmean`.
pub open spec fn logit_gradient_row_is<F: Scalar>(
    p: Seq<F>,
    target: int,
    dmean: F,
    old_d: Seq<F>,
    new_d: Seq<F>,
) -> bool {
    &&& new_d.len() == p.len()
    &&& forall|j: int|
        0 <= j < p.len() ==> logit_gradient_at(p[j], j == target, dmean, old_d[j], #[trigger] new_d[j])
}

/// `new_d` is `old_d` plus the gradient of the losses by the logits, row by
/// row.
#[verifier::opaque]
pub open spec fn logit_gradient_is<F: Scalar>(
    probs: Seq<F>,
    targets: Seq<u16>,
    n: int,
    v: int,
    dmean: F,
    old_d: Seq<F>,
    new_d: Seq<F>,
) -> bool {
    &&& new_d.len() == n * v
    &&& forall|r: int|
        0 <= r < n ==> logit_gradient_row_is(
            row(probs, r, v),
            targets[r] as int,
            dmean,
            row(old_d, r, v),
            #[trigger] row(new_d, r, v),
        )
}

/// One row of the backward pass.
fn logit_gradient_row<F: Scalar>(p: &[F], target: usize, dmean: F, old_d: &[F]) -> (new_d: Vec<F>)
    requires
        p.len() == old_d.len(),
    ensures
        logit_gradient_row_is(p@, target as int, dmean, old_d@, new_d@),
{
    let mut new_d: Vec<F> = Vec::with_capacity(p.len());
    for j in 0..p.len()
        invariant
            p.len() == old_d.len(),
            new_d@.len() == j,
            forall|i: int|
                0 <= i < j ==> logit_gradient_at(
                    p@[i],
                    i == target,
                    dmean,
                    old_d@[i],
                    #[trigger] new_d@[i],
                ),
    {
        let ind = if j == target { F::one() } else { F::zero() };
        let next = old_d[j].plus(p[j].minus(ind).times(dmean));
        assert(indicator_is(j == target, ind));
        assert(logit_gradient_at(p@[j as int], j == target, dmean, old_d@[j as int], next));
        new_d.push(next);
    }
    new_d
}

/// Backward of softmax and cross-entropy in one: adds
/// `(probs - onehot(target)) * dmean` to the logit gradients at `dlogits_off`,
/// the rows in parallel.
pub fn crossentropy_softmax_backward<F: Scalar>(
    gacts: &mut [F],
    dlogits_off: usize,
    acts: &[F],
    probs_off: usize,
    targets: &[u16],
    n: usize,
    v: usize,
    dmean: F,
)
    requires
        n * v <= usize::MAX,
        dlogits_off + n * v <= old(gacts).len(),
        probs_off + n * v <= acts.len(),
        targets@.len() == n,
    ensures
        only_changed(old(gacts)@, final(gacts)@, dlogits_off as int, n * v),
        logit_gradient_is(
            tensor(acts@, probs_off as int, n * v),
            targets@,
            n as int,
            v as int,
            dmean,
            tensor(old(gacts)@, dlogits_off as int, n * v),
            tensor(final(gacts)@, dlogits_off as int, n * v),
        ),
{
    proof {
        reveal(logit_gradient_is);
        lemma_nonneg(n as int, v as int);
    }
    let dlogits: &[F] = &gacts[dlogits_off..dlogits_off + n * v];
    let probs: &[F] = &acts[probs_off..probs_off + n * v];
    let rows = par_map(n, |r: usize| -> (y: Vec<F>)
        requires r < n, probs@.len() == n * v, dlogits@.len() == n * v, targets@.len() == n,
        ensures logit_gradient_row_is(row(probs@, r as int, v as int), targets@[r as int] as int, dmean, row(dlogits@, r as int, v as int), y@), y@.len() == v,
        { logit_gradient_row(row_of(probs, r, n, v), targets[r] as usize, dmean, row_of(dlogits, r, n, v)) });
    let flat = flatten(&rows, v);
    store(gacts, dlogits_off, flat.as_slice());
}

} // verus!
