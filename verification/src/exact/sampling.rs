//! How a draw picks a token where the arithmetic is exact.

use vstd::prelude::*;

use crate::exact::exact;
use crate::exact::gate::{exponential, sum_to_product};
use crate::ops::loss::shifted_exp_is;
use crate::sample::{
    all_kept, cut_is, drawn_with, picked_from, picked_is, running_sums_are, sampled_is,
    sampled_with,
};
use crate::scalar::{
    at_least_is, difference_is, exp_is, is_zero, quotient_is, sum_is, total_is, Scalar,
};
use crate::sums::{
    lemma_sum_positive, lemma_sum_same, lemma_sum_scale, lemma_total_value, sum_to, times,
};

verus! {

/// Being at least as large is answered exactly.
pub open spec fn exact_order<F: Scalar>(val: spec_fn(F) -> real) -> bool {
    forall|a: F, b: F, r: bool| #[trigger] at_least_is(a, b, r) ==> r == (val(a) >= val(b))
}

/// The weights of the tokens: `w(j)` is the exponential of logit `j` over the
/// temperature.
pub open spec fn token_weights<F>(
    val: spec_fn(F) -> real,
    ex: spec_fn(real) -> real,
    logits: Seq<F>,
    temperature: F,
    w: spec_fn(int) -> real,
) -> bool {
    forall|j: int|
        0 <= j < logits.len() ==> weighed_as(val, ex, logits[j], temperature, #[trigger] w(j))
}

/// The weight of a logit: the exponential of the number that, times the
/// temperature, is the logit.
pub open spec fn weighed_as<F>(
    val: spec_fn(F) -> real,
    ex: spec_fn(real) -> real,
    logit: F,
    temperature: F,
    weight: real,
) -> bool {
    exists|x: real| #[trigger] times(x, val(temperature)) == val(logit) && weight == ex(x)
}

/// The running sums, as sums.
proof fn lemma_running<F: Scalar>(
    val: spec_fn(F) -> real,
    zero: F,
    e: Seq<F>,
    accs: Seq<F>,
    k: int,
)
    requires
        exact(val),
        is_zero(zero),
        running_sums_are(zero, e, accs),
        0 <= k < accs.len(),
    ensures
        val(accs[k]) == sum_to((k + 1) as nat, |j: int| val(e[j])),
    decreases k,
{
    let f = |j: int| val(e[j]);
    if k > 0 {
        lemma_running(val, zero, e, accs, k - 1);
        lemma_sum_same(k as nat, f, |j: int| val(e[j]));
    } else {
        assert(sum_to(0, f) == 0 as real);
    }
    assert(sum_is(
        if k == 0 {
            zero
        } else {
            accs[k - 1]
        },
        e[k],
        accs[k],
    ));
    assert(sum_to((k + 1) as nat, f) == sum_to(k as nat, f) + f(k));
    lemma_sum_same((k + 1) as nat, f, |j: int| val(e[j]));
}

/// A pick from the exponentials `e`: those in front of it sum to less than the
/// bound, and with its own to at least that.
proof fn lemma_picked_between<F: Scalar>(
    val: spec_fn(F) -> real,
    kept: Seq<bool>,
    u: real,
    i: int,
    e: Seq<F>,
    sum: F,
    r: F,
)
    requires
        exact(val),
        exact_order(val),
        e.len() > 0,
        kept.len() == e.len(),
        all_kept(kept),
        u <= 1 as real,
        total_is(e, sum),
        val(r) == u * val(sum),
        forall|j: int| 0 <= j < e.len() ==> val(#[trigger] e[j]) > 0 as real,
        picked_is(e, kept, r, i),
    ensures
        0 <= i < e.len(),
        val(sum) == sum_to(e.len(), |j: int| val(e[j])),
        i == 0 || sum_to(i as nat, |j: int| val(e[j])) < val(r),
        val(r) <= sum_to((i + 1) as nat, |j: int| val(e[j])),
{
    reveal(picked_is);
    let n = e.len();
    let (zero, accs) = choose|zero: F, accs: Seq<F>| #[trigger]
        is_zero(zero) && #[trigger] running_sums_are(zero, e, accs) && picked_from(
            e,
            kept,
            accs,
            r,
            i,
        );
    assert(picked_from(e, kept, accs, r, i));
    let ef = |j: int| val(e[j]);
    lemma_total_value(val, e, sum);
    lemma_sum_same(n, ef, |j: int| val(e[j]));
    lemma_running(val, zero, e, accs, i);
    if i > 0 {
        lemma_running(val, zero, e, accs, i - 1);
        assert(kept[i - 1]);
        assert(at_least_is(accs[i - 1], r, false));
    }
    if at_least_is(accs[i], r, true) {
    } else {
        if i < n - 1 {
            assert(kept[n - 1]);
        }
        assert(i == n - 1);
        lemma_sum_positive(n, ef);
        lemma_at_most(u, val(sum));
    }
}

/// Where each weight is `top` times its exponential, the bounds carry over.
proof fn lemma_weighed_between(
    n: nat,
    i: nat,
    top: real,
    u: real,
    ef: spec_fn(int) -> real,
    w: spec_fn(int) -> real,
)
    requires
        i < n,
        top > 0 as real,
        forall|j: int| 0 <= j < n ==> #[trigger] w(j) == times(top, ef(j)),
        i == 0 || sum_to(i, ef) < u * sum_to(n, ef),
        u * sum_to(n, ef) <= sum_to(i + 1, ef),
    ensures
        i == 0 || sum_to(i, w) < times(u, sum_to(n, w)),
        times(u, sum_to(n, w)) <= sum_to(i + 1, w),
{
    lemma_sum_scale(n, top, ef, w);
    lemma_sum_scale(i, top, ef, w);
    lemma_sum_scale(i + 1, top, ef, w);
    if i > 0 {
        lemma_scaled_less(top, sum_to(i, ef), u, sum_to(n, ef));
    }
    lemma_scaled_at_most(top, sum_to(i + 1, ef), u, sum_to(n, ef));
}

/// Without a cut, a token is picked in proportion to its weight: laid out one
/// behind the other, the weights in front of the token sum to less than the draw
/// times the sum of all, and with its own to at least that; for a draw of zero it
/// is the first token.
pub proof fn lemma_sampled_by_weight<F: Scalar>(
    val: spec_fn(F) -> real,
    ex: spec_fn(real) -> real,
    logits: Seq<F>,
    temperature: F,
    top_k: Option<usize>,
    u: F,
    id: u16,
)
    requires
        exact(val),
        exponential(val, ex),
        exact_order(val),
        0 < logits.len() <= 0x1_0000,
        val(temperature) != 0 as real,
        0 as real <= val(u) <= 1 as real,
        top_k matches Some(k) ==> k >= logits.len(),
        sampled_is(logits, temperature, top_k, u, id),
    ensures
        id < logits.len(),
        exists|w: spec_fn(int) -> real| #[trigger]
            token_weights(val, ex, logits, temperature, w) && (id == 0 || sum_to(id as nat, w)
                < times(val(u), sum_to(logits.len(), w))) && times(
                val(u),
                sum_to(logits.len(), w),
            ) <= sum_to(id as nat + 1, w),
{
    reveal(sampled_is);
    reveal(cut_is);
    let n = logits.len();
    let (x, kept, y, i) = choose|x: Seq<F>, kept: Seq<bool>, y: Seq<F>, i: int| #[trigger]
        sampled_with(logits, temperature, top_k, u, id, x, kept, y, i);
    assert(i < 0x1_0000);
    assert(id == i);
    assert(y == x && all_kept(kept));
    let (m, e, sum, r) = choose|m: F, e: Seq<F>, sum: F, r: F| #[trigger]
        drawn_with(y, kept, u, i, m, e, sum, r);
    let top = ex(val(m));
    let ef = |j: int| val(e[j]);
    let w = |j: int| ex(val(x[j]));
    assert forall|j: int| 0 <= j < n implies #[trigger] w(j) == times(top, ef(j)) by {
        assert(shifted_exp_is(x[j], m, e[j]));
        let d = choose|d: F| #[trigger] difference_is(x[j], m, d) && exp_is(d, e[j]);
        assert(val(x[j]) == val(d) + val(m));
        assert(sum_to_product(ex, val(d), val(m)));
        let (p, q) = (ex(val(d)), top);
        assert(p * q == q * p) by (nonlinear_arith);
    }
    assert forall|j: int| 0 <= j < n implies #[trigger] ef(j) > 0 as real by {
        assert(shifted_exp_is(x[j], m, e[j]));
    }
    assert(token_weights(val, ex, logits, temperature, w)) by {
        assert forall|j: int| 0 <= j < logits.len() implies weighed_as(
            val,
            ex,
            logits[j],
            temperature,
            #[trigger] w(j),
        ) by {
            assert(quotient_is(logits[j], temperature, x[j]));
            assert(times(val(x[j]), val(temperature)) == val(logits[j]));
        }
    }
    let uv = val(u);
    assert(val(r) == uv * val(sum));
    lemma_picked_between(val, kept, uv, i, e, sum, r);
    lemma_sum_same(n, ef, |j: int| val(e[j]));
    lemma_sum_same(i as nat, ef, |j: int| val(e[j]));
    lemma_sum_same((i + 1) as nat, ef, |j: int| val(e[j]));
    lemma_weighed_between(n, i as nat, top, uv, ef, w);
}

/// A part of a number is no more than the number.
proof fn lemma_at_most(u: real, s: real)
    requires
        u <= 1 as real,
        s > 0 as real,
    ensures
        u * s <= s,
{
    assert(u * s <= s) by (nonlinear_arith)
        requires
            u <= 1 as real,
            s > 0 as real,
    ;
}

/// A positive factor keeps the order.
proof fn lemma_scaled_less(top: real, b: real, u: real, s: real)
    requires
        top > 0 as real,
        b < u * s,
    ensures
        times(top, b) < times(u, times(top, s)),
{
    let p = u * s;
    assert(top * b < top * p) by (nonlinear_arith)
        requires
            top > 0 as real,
            b < p,
    ;
    assert(top * (u * s) == u * (top * s)) by (nonlinear_arith);
}

/// The same where they may be equal.
proof fn lemma_scaled_at_most(top: real, a: real, u: real, s: real)
    requires
        top > 0 as real,
        u * s <= a,
    ensures
        times(u, times(top, s)) <= times(top, a),
{
    let p = u * s;
    assert(top * p <= top * a) by (nonlinear_arith)
        requires
            top > 0 as real,
            p <= a,
    ;
    assert(top * (u * s) == u * (top * s)) by (nonlinear_arith);
}

} // verus!
