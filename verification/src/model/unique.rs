//! Where the arithmetic gives one result for each operation, so do sums, dot
//! products and the tensor operations made of them.

use vstd::prelude::*;

use crate::arena::{lemma_row_bounds, lemma_unslot, row};
use crate::layout::lemma_nonneg;
use crate::ops::attention::{
    attends_is, guarded_reciprocal_is, head, kept_weights_are, mixes_is, score_is, value_channel,
    weighted_sum_is, weights_are,
};
use crate::ops::linear::{linear_row_is, unit_is};
use crate::ops::loss::{
    loss_is, losses_are, max_steps, mean_loss_is, peak_is, reciprocal_is, shifted_exp_is,
    shifted_exps_are, softmax_is, softmax_row_is,
};
use crate::ops::norm::{mean_square_is, normed_at, rmsnorm_row_is, rstd_is};
use crate::ops::pointwise::each_times_is;
use crate::ops::rope::{
    angle_is, head_turned_is, heads_turned_are, power_is, rope_row_is, rotated_back_is, rotated_is,
    turn_is, turns_are,
};
use crate::scalar::{
    abs_is, at_least_is, difference_is, dot_from_is, dot_steps, exceeds_is, exp_is, fold_is, is_neg_infinity,
    is_one, is_zero, larger_is, ln_is, mul_add_is, negation_is, order_key_is, product_is, quotient_is, ratio_is,
    running_max_is, sqrt_is, sum_is, sum_steps, total_is, Scalar,
};

verus! {

/// Each operation has at most one result.
pub open spec fn single_valued<F: Scalar>() -> bool {
    &&& forall|r: F, s: F| #[trigger] is_zero(r) && #[trigger] is_zero(s) ==> r == s
    &&& forall|r: F, s: F| #[trigger] is_one(r) && #[trigger] is_one(s) ==> r == s
    &&& forall|r: F, s: F| #[trigger]
        is_neg_infinity(r) && #[trigger] is_neg_infinity(s) ==> r == s
    &&& forall|n: usize, d: usize, r: F, s: F| #[trigger]
        ratio_is(n, d, r) && #[trigger] ratio_is(n, d, s) ==> r == s
    &&& forall|a: F, b: F, r: F, s: F| #[trigger]
        sum_is(a, b, r) && #[trigger] sum_is(a, b, s) ==> r == s
    &&& forall|a: F, b: F, r: F, s: F| #[trigger]
        difference_is(a, b, r) && #[trigger] difference_is(a, b, s) ==> r == s
    &&& forall|a: F, b: F, r: F, s: F| #[trigger]
        product_is(a, b, r) && #[trigger] product_is(a, b, s) ==> r == s
    &&& forall|a: F, b: F, r: F, s: F| #[trigger]
        quotient_is(a, b, r) && #[trigger] quotient_is(a, b, s) ==> r == s
    &&& forall|a: F, b: F, r: F, s: F| #[trigger]
        power_is(a, b, r) && #[trigger] power_is(a, b, s) ==> r == s
    &&& forall|a: F, r: F, s: F| #[trigger]
        negation_is(a, r) && #[trigger] negation_is(a, s) ==> r == s
    &&& forall|a: F, r: F, s: F| #[trigger] exp_is(a, r) && #[trigger] exp_is(a, s) ==> r == s
    &&& forall|a: F, r: F, s: F| #[trigger] ln_is(a, r) && #[trigger] ln_is(a, s) ==> r == s
    &&& forall|a: F, r: F, s: F| #[trigger] sqrt_is(a, r) && #[trigger] sqrt_is(a, s) ==> r == s
    &&& forall|a: F, r: F, s: F| #[trigger]
        call_ensures(F::sin, (a,), r) && #[trigger] call_ensures(F::sin, (a,), s) ==> r == s
    &&& forall|a: F, r: F, s: F| #[trigger]
        call_ensures(F::cos, (a,), r) && #[trigger] call_ensures(F::cos, (a,), s) ==> r == s
    &&& forall|a: F, r: F, s: F| #[trigger] abs_is(a, r) && #[trigger] abs_is(a, s) ==> r == s
    &&& forall|a: F, b: F, r: F, s: F| #[trigger]
        larger_is(a, b, r) && #[trigger] larger_is(a, b, s) ==> r == s
    &&& forall|a: F, b: F, r: bool, s: bool| #[trigger]
        exceeds_is(a, b, r) && #[trigger] exceeds_is(a, b, s) ==> r == s
    &&& forall|a: F, b: F, r: bool, s: bool| #[trigger]
        at_least_is(a, b, r) && #[trigger] at_least_is(a, b, s) ==> r == s
    &&& forall|a: F, r: i64, s: i64| #[trigger]
        order_key_is(a, r) && #[trigger] order_key_is(a, s) ==> r == s
}

/// Folds by steps with one result have one result.
pub(crate) proof fn lemma_fold_unique<A>(n: nat, init: A, step: spec_fn(nat, A, A) -> bool, r: A, s: A)
    requires
        forall|i: nat, a: A, x: A, y: A| #[trigger]
            step(i, a, x) && #[trigger] step(i, a, y) ==> x == y,
        fold_is(n, init, step, r),
        fold_is(n, init, step, s),
    ensures
        r == s,
    decreases n,
{
    if n > 0 {
        let p = choose|p: A|
            fold_is((n - 1) as nat, init, step, p) && #[trigger] step((n - 1) as nat, p, r);
        let q = choose|q: A|
            fold_is((n - 1) as nat, init, step, q) && #[trigger] step((n - 1) as nat, q, s);
        lemma_fold_unique((n - 1) as nat, init, step, p, q);
    }
}

pub(crate) proof fn lemma_dot_unique<F: Scalar>(init: F, x: Seq<F>, y: Seq<F>, r: F, s: F)
    requires
        single_valued::<F>(),
        dot_from_is(init, x, y, r),
        dot_from_is(init, x, y, s),
    ensures
        r == s,
{
    let step = dot_steps(x, y);
    assert forall|i: nat, a: F, p: F, q: F| #[trigger]
        step(i, a, p) && #[trigger] step(i, a, q) implies p == q by {
        assert(mul_add_is(a, x[i as int], y[i as int], p));
        assert(mul_add_is(a, x[i as int], y[i as int], q));
    }
    lemma_fold_unique(x.len(), init, step, r, s);
}

pub(crate) proof fn lemma_total_unique<F: Scalar>(x: Seq<F>, r: F, s: F)
    requires
        single_valued::<F>(),
        total_is(x, r),
        total_is(x, s),
    ensures
        r == s,
{
    let z = choose|z: F| #[trigger] is_zero(z) && fold_is(x.len(), z, sum_steps(x), r);
    let step = sum_steps(x);
    assert forall|i: nat, a: F, p: F, q: F| #[trigger]
        step(i, a, p) && #[trigger] step(i, a, q) implies p == q by {
        assert(sum_is(a, x[i as int], p));
        assert(sum_is(a, x[i as int], q));
    }
    lemma_fold_unique(x.len(), z, step, r, s);
}

pub(crate) proof fn lemma_peak_unique<F: Scalar>(x: Seq<F>, r: F, s: F)
    requires
        single_valued::<F>(),
        peak_is(x, r),
        peak_is(x, s),
    ensures
        r == s,
{
    let z = choose|z: F| #[trigger] is_neg_infinity(z) && fold_is(x.len(), z, max_steps(x), r);
    let step = max_steps(x);
    assert forall|i: nat, a: F, p: F, q: F| #[trigger]
        step(i, a, p) && #[trigger] step(i, a, q) implies p == q by {
        assert(running_max_is(a, x[i as int], p));
        assert(running_max_is(a, x[i as int], q));
    }
    lemma_fold_unique(x.len(), z, step, r, s);
}

pub(crate) proof fn lemma_exps_unique<F: Scalar>(x: Seq<F>, m: F, e: Seq<F>, f: Seq<F>)
    requires
        single_valued::<F>(),
        shifted_exps_are(x, m, e),
        shifted_exps_are(x, m, f),
    ensures
        e == f,
{
    assert forall|i: int| 0 <= i < x.len() implies e[i] == f[i] by {
        assert(shifted_exp_is(x[i], m, e[i]));
        assert(shifted_exp_is(x[i], m, f[i]));
    }
    assert(e =~= f);
}

pub(crate) proof fn lemma_each_times_unique<F: Scalar>(x: Seq<F>, k: F, y: Seq<F>, z: Seq<F>)
    requires
        single_valued::<F>(),
        each_times_is(x, k, y),
        each_times_is(x, k, z),
    ensures
        y == z,
{
    assert forall|i: int| 0 <= i < x.len() implies y[i] == z[i] by {
        assert(product_is(x[i], k, y[i]));
        assert(product_is(x[i], k, z[i]));
    }
    assert(y =~= z);
}

pub(crate) proof fn lemma_reciprocal_unique<F: Scalar>(x: F, r: F, s: F)
    requires
        single_valued::<F>(),
        reciprocal_is(x, r),
        reciprocal_is(x, s),
    ensures
        r == s,
{
}

pub(crate) proof fn lemma_linear_row_unique<F: Scalar>(
    x: Seq<F>,
    w: Seq<F>,
    oc: int,
    y: Seq<F>,
    z: Seq<F>,
)
    requires
        single_valued::<F>(),
        linear_row_is(x, w, None, oc, y),
        linear_row_is(x, w, None, oc, z),
    ensures
        y == z,
{
    assert forall|o: int| 0 <= o < oc implies y[o] == z[o] by {
        let wo = row(w, o, x.len() as int);
        assert(unit_is(x, wo, None, o, y[o]));
        assert(unit_is(x, wo, None, o, z[o]));
        let i = choose|i: F| is_zero(i) && #[trigger] dot_from_is(i, x, wo, y[o]);
        let j = choose|j: F| is_zero(j) && #[trigger] dot_from_is(j, x, wo, z[o]);
        assert(i == j);
        lemma_dot_unique(i, x, wo, y[o], z[o]);
    }
    assert(y =~= z);
}

pub(crate) proof fn lemma_rstd_unique<F: Scalar>(x: Seq<F>, r: F, s: F)
    requires
        single_valued::<F>(),
        rstd_is(x, r),
        rstd_is(x, s),
    ensures
        r == s,
{
    assert forall|a: F, b: F| #[trigger]
        mean_square_is(x, a) && #[trigger] mean_square_is(x, b) implies a == b by {
        let (z1, s1, c1) = choose|z1: F, s1: F, c1: F|
            #[trigger] is_zero(z1) && #[trigger] dot_from_is(z1, x, x, s1) && #[trigger] ratio_is(
                x.len() as usize,
                1,
                c1,
            ) && quotient_is(s1, c1, a);
        let (z2, s2, c2) = choose|z2: F, s2: F, c2: F|
            #[trigger] is_zero(z2) && #[trigger] dot_from_is(z2, x, x, s2) && #[trigger] ratio_is(
                x.len() as usize,
                1,
                c2,
            ) && quotient_is(s2, c2, b);
        assert(z1 == z2);
        lemma_dot_unique(z1, x, x, s1, s2);
        assert(c1 == c2);
    }
}

pub(crate) proof fn lemma_rmsnorm_row_unique<F: Scalar>(
    x: Seq<F>,
    w: Seq<F>,
    y: Seq<F>,
    z: Seq<F>,
    r: F,
    s: F,
)
    requires
        single_valued::<F>(),
        rmsnorm_row_is(x, w, y, r),
        rmsnorm_row_is(x, w, z, s),
    ensures
        y == z,
        r == s,
{
    lemma_rstd_unique(x, r, s);
    assert forall|i: int| 0 <= i < x.len() implies y[i] == z[i] by {
        assert(normed_at(x[i], r, w[i], y[i]));
        assert(normed_at(x[i], s, w[i], z[i]));
    }
    assert(y =~= z);
}

pub(crate) proof fn lemma_turns_unique<F: Scalar>(pos: usize, hs: usize, a: Seq<(F, F)>, b: Seq<(F, F)>)
    requires
        single_valued::<F>(),
        turns_are(pos, hs, a),
        turns_are(pos, hs, b),
    ensures
        a == b,
{
    assert forall|j: int| 0 <= j < a.len() implies a[j] == b[j] by {
        assert(turn_is(pos, j, hs, a[j]));
        assert(turn_is(pos, j, hs, b[j]));
        let s = choose|s: F|
            angle_is(pos, j, hs, s) && #[trigger] call_ensures(F::sin, (s,), a[j].0)
                && call_ensures(F::cos, (s,), a[j].1);
        let t = choose|t: F|
            angle_is(pos, j, hs, t) && #[trigger] call_ensures(F::sin, (t,), b[j].0)
                && call_ensures(F::cos, (t,), b[j].1);
        assert(s == t);
        assert(a[j].0 == b[j].0);
        assert(a[j].1 == b[j].1);
    }
    assert(a =~= b);
}

pub(crate) proof fn lemma_head_turned_unique<F: Scalar>(
    back: bool,
    turns: Seq<(F, F)>,
    x: Seq<F>,
    y: Seq<F>,
    z: Seq<F>,
)
    requires
        single_valued::<F>(),
        x.len() == 2 * turns.len(),
        head_turned_is(back, turns, x, y),
        head_turned_is(back, turns, x, z),
    ensures
        y == z,
{
    let n = turns.len() as int;
    assert forall|k: int| 0 <= k < y.len() implies y[k] == z[k] by {
        let j = if k < n {
            k
        } else {
            k - n
        };
        let sc = turns[j];
        if back {
            assert(rotated_back_is(x[j], x[j + n], sc, y[j], y[j + n]));
            assert(rotated_back_is(x[j], x[j + n], sc, z[j], z[j + n]));
        } else {
            assert(rotated_is(x[j], x[j + n], sc, y[j], y[j + n]));
            assert(rotated_is(x[j], x[j + n], sc, z[j], z[j + n]));
        }
    }
    assert(y =~= z);
}

/// A matrix is known by its rows.
pub(crate) proof fn lemma_rows_join<T>(y: Seq<T>, z: Seq<T>, n: int, c: int)
    requires
        0 <= n,
        0 <= c,
        y.len() == n * c,
        z.len() == n * c,
        forall|m: int| 0 <= m < n ==> #[trigger] row(y, m, c) == row(z, m, c),
    ensures
        y == z,
{
    assert forall|p: int| 0 <= p < y.len() implies y[p] == z[p] by {
        if c == 0 {
            assert(n * 0 == 0);
        } else {
            lemma_unslot(p, n, c);
            let m = p / c;
            lemma_row_bounds(m, n, c);
            assert(row(y, m, c)[p % c] == y[p]);
            assert(row(z, m, c)[p % c] == z[p]);
        }
    }
    assert(y =~= z);
}

/// A row of a block of rows is a row of the whole.
pub(crate) proof fn lemma_nested_row<T>(s: Seq<T>, b: int, t: int, c: int, bi: int, u: int)
    requires
        0 <= bi < b,
        0 <= u < t,
        0 <= c,
        s.len() == b * (t * c),
    ensures
        row(row(s, bi, t * c), u, c) == row(s, bi * t + u, c),
{
    lemma_nonneg(t, c);
    lemma_row_bounds(bi, b, t * c);
    lemma_row_bounds(u, t, c);
    assert(bi * (t * c) + u * c == (bi * t + u) * c) by (nonlinear_arith);
    assert(row(row(s, bi, t * c), u, c) =~= row(s, bi * t + u, c));
}

pub(crate) proof fn lemma_rope_row_unique<F: Scalar>(
    back: bool,
    pos: usize,
    nh: int,
    hs: usize,
    x: Seq<F>,
    y: Seq<F>,
    z: Seq<F>,
)
    requires
        single_valued::<F>(),
        0 <= nh,
        hs % 2 == 0,
        x.len() == (3 * nh) * hs,
        rope_row_is(back, pos, nh, hs, x, y),
        rope_row_is(back, pos, nh, hs, x, z),
    ensures
        y == z,
{
    let a = choose|a: Seq<(F, F)>| #[trigger]
        turns_are(pos, hs, a) && heads_turned_are(back, a, nh, hs as int, x, y);
    let b = choose|b: Seq<(F, F)>| #[trigger]
        turns_are(pos, hs, b) && heads_turned_are(back, b, nh, hs as int, x, z);
    lemma_turns_unique(pos, hs, a, b);
    assert forall|m: int| 0 <= m < 3 * nh implies #[trigger] row(y, m, hs as int) == row(
        z,
        m,
        hs as int,
    ) by {
        lemma_row_bounds(m, 3 * nh, hs as int);
        if m < 2 * nh {
            assert(head_turned_is(back, a, row(x, m, hs as int), row(y, m, hs as int)));
            assert(head_turned_is(back, a, row(x, m, hs as int), row(z, m, hs as int)));
            lemma_head_turned_unique(
                back,
                a,
                row(x, m, hs as int),
                row(y, m, hs as int),
                row(z, m, hs as int),
            );
        } else {
        }
    }
    lemma_rows_join(y, z, 3 * nh, hs as int);
}

pub(crate) proof fn lemma_weights_unique<F: Scalar>(x: Seq<F>, y: Seq<F>, z: Seq<F>)
    requires
        single_valued::<F>(),
        weights_are(x, y),
        weights_are(x, z),
    ensures
        y == z,
{
    let (m1, e1, s1, i1) = choose|m1: F, e1: Seq<F>, s1: F, i1: F|
        #[trigger] peak_is(x, m1) && #[trigger] shifted_exps_are(x, m1, e1) && #[trigger] total_is(
            e1,
            s1,
        ) && #[trigger] guarded_reciprocal_is(s1, i1) && each_times_is(e1, i1, y);
    let (m2, e2, s2, i2) = choose|m2: F, e2: Seq<F>, s2: F, i2: F|
        #[trigger] peak_is(x, m2) && #[trigger] shifted_exps_are(x, m2, e2) && #[trigger] total_is(
            e2,
            s2,
        ) && #[trigger] guarded_reciprocal_is(s2, i2) && each_times_is(e2, i2, z);
    lemma_peak_unique(x, m1, m2);
    lemma_exps_unique(x, m1, e1, e2);
    lemma_total_unique(e1, s1, s2);
    lemma_guarded_unique(s1, i1, i2);
    lemma_each_times_unique(e1, i1, y, z);
}

pub(crate) proof fn lemma_guarded_unique<F: Scalar>(x: F, r: F, s: F)
    requires
        single_valued::<F>(),
        guarded_reciprocal_is(x, r),
        guarded_reciprocal_is(x, s),
    ensures
        r == s,
{
    let a = choose|a: F| #[trigger]
        is_zero(a) && (exceeds_is(x, a, true) && reciprocal_is(x, r) || exceeds_is(x, a, false)
            && is_zero(r));
    let b = choose|b: F| #[trigger]
        is_zero(b) && (exceeds_is(x, b, true) && reciprocal_is(x, s) || exceeds_is(x, b, false)
            && is_zero(s));
    assert(a == b);
    if exceeds_is(x, a, true) && exceeds_is(x, a, false) {
        assert(true == false);
    }
}

pub(crate) proof fn lemma_score_unique<F: Scalar>(q: Seq<F>, k: Seq<F>, scale: F, r: F, s: F)
    requires
        single_valued::<F>(),
        score_is(q, k, scale, r),
        score_is(q, k, scale, s),
    ensures
        r == s,
{
    let (z1, d1) = choose|z1: F, d1: F|
        #[trigger] is_zero(z1) && #[trigger] dot_from_is(z1, q, k, d1) && product_is(d1, scale, r);
    let (z2, d2) = choose|z2: F, d2: F|
        #[trigger] is_zero(z2) && #[trigger] dot_from_is(z2, q, k, d2) && product_is(d2, scale, s);
    assert(z1 == z2);
    lemma_dot_unique(z1, q, k, d1, d2);
}

pub(crate) proof fn lemma_attends_unique<F: Scalar>(
    inp: Seq<F>,
    scale: F,
    t: int,
    nh: int,
    hs: int,
    h: int,
    ti: int,
    pre: Seq<F>,
    att: Seq<F>,
    pre2: Seq<F>,
    att2: Seq<F>,
)
    requires
        single_valued::<F>(),
        0 <= ti < t,
        attends_is(inp, scale, t, nh, hs, h, ti, pre, att),
        attends_is(inp, scale, t, nh, hs, h, ti, pre2, att2),
    ensures
        pre == pre2,
        att == att2,
{
    assert forall|u: int| 0 <= u < t implies pre[u] == pre2[u] by {
        if u <= ti {
            assert(score_is(
                head(inp, ti, 0, h, nh, hs),
                head(inp, u, 1, h, nh, hs),
                scale,
                pre[u],
            ));
            assert(score_is(
                head(inp, ti, 0, h, nh, hs),
                head(inp, u, 1, h, nh, hs),
                scale,
                pre2[u],
            ));
            lemma_score_unique(
                head(inp, ti, 0, h, nh, hs),
                head(inp, u, 1, h, nh, hs),
                scale,
                pre[u],
                pre2[u],
            );
        } else {
            assert(is_zero(pre[u]) && is_zero(pre2[u]));
        }
    }
    assert(pre =~= pre2);
    lemma_weights_unique(
        pre.subrange(0, ti + 1),
        att.subrange(0, ti + 1),
        att2.subrange(0, ti + 1),
    );
    assert forall|u: int| 0 <= u < t implies att[u] == att2[u] by {
        if u <= ti {
            assert(att[u] == att.subrange(0, ti + 1)[u]);
            assert(att2[u] == att2.subrange(0, ti + 1)[u]);
        } else {
            assert(is_zero(att[u]) && is_zero(att2[u]));
        }
    }
    assert(att =~= att2);
}

pub(crate) proof fn lemma_mixes_unique<F: Scalar>(
    inp: Seq<F>,
    att: Seq<F>,
    mask: Option<Seq<F>>,
    nh: int,
    hs: int,
    h: int,
    ti: int,
    y: Seq<F>,
    z: Seq<F>,
)
    requires
        single_valued::<F>(),
        0 <= ti,
        mixes_is(inp, att, mask, nh, hs, h, ti, y),
        mixes_is(inp, att, mask, nh, hs, h, ti, z),
    ensures
        y == z,
{
    let a = choose|ws: Seq<F>| #[trigger]
        kept_weights_are(att, mask, ti, ws) && y.len() == hs && forall|i: int|
            0 <= i < hs ==> weighted_sum_is(
                ws,
                value_channel(inp, ti + 1, h, nh, hs, i),
                #[trigger] y[i],
            );
    let b = choose|ws: Seq<F>| #[trigger]
        kept_weights_are(att, mask, ti, ws) && z.len() == hs && forall|i: int|
            0 <= i < hs ==> weighted_sum_is(
                ws,
                value_channel(inp, ti + 1, h, nh, hs, i),
                #[trigger] z[i],
            );
    assert forall|u: int| 0 <= u <= ti implies a[u] == b[u] by {
    }
    assert(a =~= b);
    assert forall|i: int| 0 <= i < hs implies y[i] == z[i] by {
        let x = value_channel(inp, ti + 1, h, nh, hs, i);
        assert(weighted_sum_is(a, x, y[i]));
        assert(weighted_sum_is(a, x, z[i]));
        let c = choose|c: F| #[trigger] is_zero(c) && dot_from_is(c, a, x, y[i]);
        let d = choose|d: F| #[trigger] is_zero(d) && dot_from_is(d, a, x, z[i]);
        assert(c == d);
        lemma_dot_unique(c, a, x, y[i], z[i]);
    }
    assert(y =~= z);
}

pub(crate) proof fn lemma_softmax_unique<F: Scalar>(x: Seq<F>, n: int, v: int, y: Seq<F>, z: Seq<F>)
    requires
        single_valued::<F>(),
        0 <= n,
        0 <= v,
        softmax_is(x, n, v, y),
        softmax_is(x, n, v, z),
    ensures
        y == z,
{
    reveal(softmax_is);
    assert forall|r: int| 0 <= r < n implies #[trigger] row(y, r, v) == row(z, r, v) by {
        let a = row(x, r, v);
        assert(softmax_row_is(a, row(y, r, v)));
        assert(softmax_row_is(a, row(z, r, v)));
        lemma_softmax_row_unique(a, row(y, r, v), row(z, r, v));
    }
    lemma_rows_join(y, z, n, v);
}

pub(crate) proof fn lemma_softmax_row_unique<F: Scalar>(x: Seq<F>, y: Seq<F>, z: Seq<F>)
    requires
        single_valued::<F>(),
        softmax_row_is(x, y),
        softmax_row_is(x, z),
    ensures
        y == z,
{
    let (m1, e1, s1, i1) = choose|m1: F, e1: Seq<F>, s1: F, i1: F|
        #[trigger] peak_is(x, m1) && #[trigger] shifted_exps_are(x, m1, e1) && #[trigger] total_is(
            e1,
            s1,
        ) && #[trigger] reciprocal_is(s1, i1) && each_times_is(e1, i1, y);
    let (m2, e2, s2, i2) = choose|m2: F, e2: Seq<F>, s2: F, i2: F|
        #[trigger] peak_is(x, m2) && #[trigger] shifted_exps_are(x, m2, e2) && #[trigger] total_is(
            e2,
            s2,
        ) && #[trigger] reciprocal_is(s2, i2) && each_times_is(e2, i2, z);
    lemma_peak_unique(x, m1, m2);
    lemma_exps_unique(x, m1, e1, e2);
    lemma_total_unique(e1, s1, s2);
    lemma_reciprocal_unique(s1, i1, i2);
    lemma_each_times_unique(e1, i1, y, z);
}

pub(crate) proof fn lemma_losses_unique<F: Scalar>(
    probs: Seq<F>,
    targets: Seq<u16>,
    n: int,
    v: int,
    a: Seq<F>,
    b: Seq<F>,
)
    requires
        single_valued::<F>(),
        losses_are(probs, targets, n, v, a),
        losses_are(probs, targets, n, v, b),
    ensures
        a == b,
{
    reveal(losses_are);
    assert forall|r: int| 0 <= r < n implies a[r] == b[r] by {
        assert(loss_is(probs[r * v + targets[r]], a[r]));
        assert(loss_is(probs[r * v + targets[r]], b[r]));
    }
    assert(a =~= b);
}

pub(crate) proof fn lemma_mean_loss_unique<F: Scalar>(losses: Seq<F>, r: F, s: F)
    requires
        single_valued::<F>(),
        mean_loss_is(losses, r),
        mean_loss_is(losses, s),
    ensures
        r == s,
{
    reveal(mean_loss_is);
    let (s1, c1) = choose|s1: F, c1: F|
        #[trigger] total_is(losses, s1) && #[trigger] ratio_is(losses.len() as usize, 1, c1)
            && quotient_is(s1, c1, r);
    let (s2, c2) = choose|s2: F, c2: F|
        #[trigger] total_is(losses, s2) && #[trigger] ratio_is(losses.len() as usize, 1, c2)
            && quotient_is(s2, c2, s);
    lemma_total_unique(losses, s1, s2);
    assert(c1 == c2);
}

} // verus!
