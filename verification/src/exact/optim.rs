//! What a step of AdamW does where the arithmetic is exact.

use vstd::prelude::*;

use crate::exact::{exact, magnitude};
use crate::exact::power::{exact_integer_powers, exact_roots, lemma_power_below_one, real_power};
use crate::model::backward::all_zero;
use crate::model::optim::{
    adam_is, adam_with, bias_correction_is, direction_is, first_moment_is, rest_is,
    second_moment_is, stepped_is, AdamW,
};
use crate::scalar::{
    difference_is, integer_power_is, is_zero, product_is, quotient_is, sqrt_is, sum_is, Scalar,
};
use crate::sums::times;

verus! {

/// The decays lie in `[0, 1)`, and the guard of the denominator is positive.
pub open spec fn sound_settings<F: Scalar>(val: spec_fn(F) -> real, h: AdamW<F>) -> bool {
    &&& 0 as real <= val(h.beta1) < 1 as real
    &&& 0 as real <= val(h.beta2) < 1 as real
    &&& val(h.eps) > 0 as real
}

/// The bias correction is `1 - beta^t`, which is positive.
proof fn lemma_correction<F: Scalar>(val: spec_fn(F) -> real, beta: F, t: i32, r: F)
    requires
        exact(val),
        exact_integer_powers(val),
        0 as real <= val(beta) < 1 as real,
        0 < t,
        bias_correction_is(beta, t, r),
    ensures
        val(r) == 1 as real - real_power(val(beta), t as nat),
        val(r) > 0 as real,
{
    let p = choose|p: F| #[trigger] integer_power_is(beta, t, p) && rest_is(p, r);
    lemma_power_below_one(val(beta), t as nat);
}

/// A moment is the mean of the old one and of what is new, weighed by `beta`.
proof fn lemma_moments<F: Scalar>(
    val: spec_fn(F) -> real,
    h: AdamW<F>,
    m: F,
    v: F,
    g: F,
    new_m: F,
    new_v: F,
)
    requires
        exact(val),
        first_moment_is(h.beta1, m, g, new_m),
        second_moment_is(h.beta2, v, g, new_v),
    ensures
        val(new_m) == val(h.beta1) * val(m) + (1 as real - val(h.beta1)) * val(g),
        val(new_v) == val(h.beta2) * val(v) + (1 as real - val(h.beta2)) * (val(g) * val(g)),
{
    let (rest, a, b) = choose|rest: F, a: F, b: F| #[trigger]
        rest_is(h.beta1, rest) && #[trigger] product_is(h.beta1, m, a) && #[trigger] product_is(
            rest,
            g,
            b,
        ) && sum_is(a, b, new_m);
    assert(val(rest) == 1 as real - val(h.beta1));
    let (rest2, a2, b2, c2) = choose|rest: F, a: F, b: F, b2: F| #[trigger]
        rest_is(h.beta2, rest) && #[trigger] product_is(h.beta2, v, a) && #[trigger] product_is(
            rest,
            g,
            b,
        ) && #[trigger] product_is(b, g, b2) && sum_is(a, b2, new_v);
    assert(val(rest2) == 1 as real - val(h.beta2));
    let (x, y) = (val(rest2), val(g));
    assert((x * y) * y == x * (y * y)) by (nonlinear_arith);
}

/// What step `t` makes of a parameter `p`, its moments `m` and `v` and its
/// gradient `g`: the moments take in the gradient, and the parameter moves by
/// the learning rate against `mh / (root + eps) + weight_decay * p`, where `mh`
/// and the square of `root` are the new moments over `1 - beta^t`.
pub open spec fn param_moved<F: Scalar>(
    val: spec_fn(F) -> real,
    h: AdamW<F>,
    t: nat,
    g: F,
    p: F,
    m: F,
    v: F,
    new_p: F,
    new_m: F,
    new_v: F,
    mh: real,
    root: real,
    move_by: real,
) -> bool {
    &&& val(new_m) == val(h.beta1) * val(m) + (1 as real - val(h.beta1)) * val(g)
    &&& val(new_v) == val(h.beta2) * val(v) + (1 as real - val(h.beta2)) * (val(g) * val(g))
    &&& mh * (1 as real - real_power(val(h.beta1), t)) == val(new_m)
    &&& root >= 0 as real
    &&& (root * root) * (1 as real - real_power(val(h.beta2), t)) == val(new_v)
    &&& move_by * (root + val(h.eps)) == mh
    &&& val(new_p) == val(p) - val(h.lr) * (move_by + val(h.weight_decay) * val(p))
}

/// In exact arithmetic step `t` moves each parameter as said, provided that the
/// second moment is not negative.
pub proof fn lemma_adam_moves<F: Scalar>(
    val: spec_fn(F) -> real,
    h: AdamW<F>,
    t: i32,
    g: Seq<F>,
    old_s: (Seq<F>, Seq<F>, Seq<F>),
    new_s: (Seq<F>, Seq<F>, Seq<F>),
    i: int,
)
    requires
        exact(val),
        exact_integer_powers(val),
        exact_roots(val),
        sound_settings(val, h),
        0 < t,
        0 <= i < old_s.0.len(),
        val(old_s.2[i]) >= 0 as real,
        adam_is(h, t, g, old_s, new_s),
    ensures
        val(new_s.2[i]) >= 0 as real,
        exists|mh: real, root: real, move_by: real|
            #[trigger] param_moved(
                val,
                h,
                t as nat,
                g[i],
                old_s.0[i],
                old_s.1[i],
                old_s.2[i],
                new_s.0[i],
                new_s.1[i],
                new_s.2[i],
                mh,
                root,
                move_by,
            ),
{
    let (bc1, bc2) = choose|bc1: F, bc2: F| #[trigger]
        bias_correction_is(h.beta1, t, bc1) && #[trigger] bias_correction_is(h.beta2, t, bc2)
            && adam_with(h, bc1, bc2, g, old_s, new_s);
    lemma_correction(val, h.beta1, t, bc1);
    lemma_correction(val, h.beta2, t, bc2);
    let (p, m, v) = (new_s.0[i], new_s.1[i], new_s.2[i]);
    assert(first_moment_is(h.beta1, old_s.1[i], g[i], m));
    assert(second_moment_is(h.beta2, old_s.2[i], g[i], v));
    lemma_moments(val, h, old_s.1[i], old_s.2[i], g[i], m, v);
    let (b, w, x) = (val(h.beta2), val(old_s.2[i]), val(g[i]));
    assert(b * w + (1 as real - b) * (x * x) >= 0 as real) by (nonlinear_arith)
        requires
            0 as real <= b < 1 as real,
            w >= 0 as real,
    {
        assert(b * w >= 0 as real);
        assert(x * x >= 0 as real);
        assert((1 as real - b) * (x * x) >= 0 as real);
    }
    let d = choose|d: F| #[trigger]
        direction_is(m, v, bc1, bc2, h.eps, d) && stepped_is(h, d, old_s.0[i], p);
    let (mh, vh, root, den) = choose|mh: F, vh: F, root: F, den: F| #[trigger]
        quotient_is(m, bc1, mh) && #[trigger] quotient_is(v, bc2, vh) && #[trigger] sqrt_is(
            vh,
            root,
        ) && #[trigger] sum_is(root, h.eps, den) && quotient_is(mh, den, d);
    let (q, c, n) = (val(vh), val(bc2), val(v));
    assert(q >= 0 as real) by (nonlinear_arith)
        requires
            c > 0 as real,
            q * c == n,
            n >= 0 as real,
    ;
    assert(stepped_is(h, d, old_s.0[i], p));
    let (decay, change, step) = choose|decay: F, change: F, step: F| #[trigger]
        product_is(h.weight_decay, old_s.0[i], decay) && #[trigger] sum_is(d, decay, change)
            && #[trigger] product_is(h.lr, change, step) && difference_is(old_s.0[i], step, p);
    assert(param_moved(
        val,
        h,
        t as nat,
        g[i],
        old_s.0[i],
        old_s.1[i],
        old_s.2[i],
        p,
        m,
        v,
        val(mh),
        val(root),
        val(d),
    ));
}

/// The states that steps `1, 2, ..` with the same gradients lead through.
pub open spec fn steady_run<F: Scalar>(
    h: AdamW<F>,
    g: Seq<F>,
    states: Seq<(Seq<F>, Seq<F>, Seq<F>)>,
) -> bool {
    &&& 0 < states.len() <= i32::MAX
    &&& forall|k: int|
        0 <= k < states.len() - 1 ==> adam_is(
            h,
            (k + 1) as i32,
            g,
            #[trigger] states[k],
            states[k + 1],
        )
    &&& states[0].1.len() == states[0].0.len()
    &&& states[0].2.len() == states[0].0.len()
    &&& all_zero(states[0].1)
    &&& all_zero(states[0].2)
}

/// One more factor of `b` between the corrections of two steps.
proof fn lemma_next_correction(b: real, q: real, x: real)
    ensures
        b * ((1 as real - q) * x) + (1 as real - b) * x == (1 as real - b * q) * x,
{
    assert(b * ((1 as real - q) * x) == b * x - (b * q) * x) by (nonlinear_arith);
    assert((1 as real - b) * x == x - b * x) by (nonlinear_arith);
    assert((1 as real - b * q) * x == x - (b * q) * x) by (nonlinear_arith);
}

/// Bias correction makes the moments unbiased: where they start from zero and
/// every one of the first `t` steps has the same gradient, the first moment is
/// the gradient times `1 - beta1^t`, and the second one the square of the
/// gradient times `1 - beta2^t`.
pub proof fn lemma_moments_unbiased<F: Scalar>(
    val: spec_fn(F) -> real,
    h: AdamW<F>,
    g: Seq<F>,
    states: Seq<(Seq<F>, Seq<F>, Seq<F>)>,
    t: nat,
    i: int,
)
    requires
        exact(val),
        exact_integer_powers(val),
        exact_roots(val),
        sound_settings(val, h),
        steady_run(h, g, states),
        t < states.len(),
        0 <= i < states[0].0.len(),
    ensures
        states[t as int].0.len() == states[0].0.len(),
        val(states[t as int].1[i]) == (1 as real - real_power(val(h.beta1), t)) * val(g[i]),
        val(states[t as int].2[i]) == (1 as real - real_power(val(h.beta2), t)) * (val(g[i]) * val(
            g[i],
        )),
        val(states[t as int].2[i]) >= 0 as real,
    decreases t,
{
    let x = val(g[i]);
    assert(x * x >= 0 as real) by (nonlinear_arith);
    if t == 0 {
        assert(is_zero(states[0].1[i]) && is_zero(states[0].2[i]));
        assert(0 as real * x == 0 as real && 0 as real * (x * x) == 0 as real)
            by (nonlinear_arith);
    } else {
        let k = (t - 1) as nat;
        lemma_moments_unbiased(val, h, g, states, k, i);
        let (old_s, new_s) = (states[k as int], states[t as int]);
        assert(adam_is(h, t as i32, g, states[k as int], states[k as int + 1]));
        lemma_adam_moves(val, h, t as i32, g, old_s, new_s, i);
        let (bc1, bc2) = choose|bc1: F, bc2: F| #[trigger]
            bias_correction_is(h.beta1, t as i32, bc1) && #[trigger] bias_correction_is(
                h.beta2,
                t as i32,
                bc2,
            ) && adam_with(h, bc1, bc2, g, old_s, new_s);
        lemma_next_correction(val(h.beta1), real_power(val(h.beta1), k), x);
        lemma_next_correction(val(h.beta2), real_power(val(h.beta2), k), x * x);
    }
}

/// With the same gradient `g` at every step, every step moves the parameter
/// alike: by the learning rate against `g / (|g| + eps) + weight_decay * p`,
/// whatever the number of the step.
pub proof fn lemma_steady_steps<F: Scalar>(
    val: spec_fn(F) -> real,
    h: AdamW<F>,
    g: Seq<F>,
    states: Seq<(Seq<F>, Seq<F>, Seq<F>)>,
    t: nat,
    i: int,
)
    requires
        exact(val),
        exact_integer_powers(val),
        exact_roots(val),
        sound_settings(val, h),
        steady_run(h, g, states),
        t + 1 < states.len(),
        0 <= i < states[0].0.len(),
    ensures
        exists|move_by: real|
            #[trigger] times(move_by, magnitude(val(g[i])) + val(h.eps)) == val(g[i]) && val(
                states[t as int + 1].0[i],
            ) == val(states[t as int].0[i]) - val(h.lr) * (move_by + val(h.weight_decay) * val(
                states[t as int].0[i],
            )),
{
    let n = t + 1;
    lemma_moments_unbiased(val, h, g, states, t, i);
    lemma_moments_unbiased(val, h, g, states, n, i);
    let (old_s, new_s) = (states[t as int], states[n as int]);
    assert(adam_is(h, n as i32, g, states[t as int], states[t as int + 1]));
    lemma_adam_moves(val, h, n as i32, g, old_s, new_s, i);
    let (mh, root, move_by) = choose|mh: real, root: real, move_by: real|
        #[trigger] param_moved(
            val,
            h,
            n,
            g[i],
            old_s.0[i],
            old_s.1[i],
            old_s.2[i],
            new_s.0[i],
            new_s.1[i],
            new_s.2[i],
            mh,
            root,
            move_by,
        );
    let x = val(g[i]);
    let c1 = 1 as real - real_power(val(h.beta1), n);
    let c2 = 1 as real - real_power(val(h.beta2), n);
    lemma_power_below_one(val(h.beta1), n);
    lemma_power_below_one(val(h.beta2), n);
    assert(mh == x) by (nonlinear_arith)
        requires
            c1 > 0 as real,
            mh * c1 == c1 * x,
    ;
    let s = root * root;
    assert(s == x * x) by (nonlinear_arith)
        requires
            c2 > 0 as real,
            s * c2 == c2 * (x * x),
    ;
    lemma_root(root, x);
    assert(times(move_by, magnitude(val(g[i])) + val(h.eps)) == val(g[i]));
}

/// The root of a square is the magnitude.
proof fn lemma_root(root: real, x: real)
    requires
        root >= 0 as real,
        root * root == x * x,
    ensures
        root == magnitude(x),
{
    let y = magnitude(x);
    assert((-x) * (-x) == x * x) by (nonlinear_arith);
    assert(root == y) by (nonlinear_arith)
        requires
            root >= 0 as real,
            y >= 0 as real,
            root * root == y * y,
    ;
}

} // verus!
