//! The AdamW optimizer.

use vstd::prelude::*;

use crate::scalar::{
    difference_is, integer_power_is, is_one, product_is, quotient_is, sqrt_is, sum_is, Scalar,
};

verus! {

/// Learning rate, moment decays, the guard of the denominator and the weight
/// decay.
pub struct AdamW<F> {
    pub lr: F,
    pub beta1: F,
    pub beta2: F,
    pub eps: F,
    pub weight_decay: F,
}

/// `r` is `1 - x`.
pub open spec fn rest_is<F: Scalar>(x: F, r: F) -> bool {
    exists|one: F| #[trigger] is_one(one) && difference_is(one, x, r)
}

/// `r` is the bias correction `1 - beta^t`.
pub open spec fn bias_correction_is<F: Scalar>(beta: F, t: i32, r: F) -> bool {
    exists|p: F| #[trigger] integer_power_is(beta, t, p) && rest_is(p, r)
}

/// `r` is `beta * m + (1 - beta) * g`.
pub open spec fn first_moment_is<F: Scalar>(beta: F, m: F, g: F, r: F) -> bool {
    exists|rest: F, a: F, b: F| #[trigger]
        rest_is(beta, rest) && #[trigger] product_is(beta, m, a) && #[trigger] product_is(
            rest,
            g,
            b,
        ) && sum_is(a, b, r)
}

/// `r` is `beta * v + (1 - beta) * g * g`.
pub open spec fn second_moment_is<F: Scalar>(beta: F, v: F, g: F, r: F) -> bool {
    exists|rest: F, a: F, b: F, b2: F| #[trigger]
        rest_is(beta, rest) && #[trigger] product_is(beta, v, a) && #[trigger] product_is(
            rest,
            g,
            b,
        ) && #[trigger] product_is(b, g, b2) && sum_is(a, b2, r)
}

/// `r` is `(m / bc1) / (sqrt(v / bc2) + eps)`.
pub open spec fn direction_is<F: Scalar>(m: F, v: F, bc1: F, bc2: F, eps: F, r: F) -> bool {
    exists|mh: F, vh: F, root: F, den: F| #[trigger]
        quotient_is(m, bc1, mh) && #[trigger] quotient_is(v, bc2, vh) && #[trigger] sqrt_is(
            vh,
            root,
        ) && #[trigger] sum_is(root, eps, den) && quotient_is(mh, den, r)
}

/// `r` is `p - lr * (direction + weight_decay * p)`.
pub open spec fn stepped_is<F: Scalar>(h: AdamW<F>, direction: F, p: F, r: F) -> bool {
    exists|decay: F, change: F, step: F| #[trigger]
        product_is(h.weight_decay, p, decay) && #[trigger] sum_is(direction, decay, change)
            && #[trigger] product_is(h.lr, change, step) && difference_is(p, step, r)
}

/// One parameter after a step, where `m` and `v` are its new moments.
pub open spec fn adam_param_is<F: Scalar>(
    h: AdamW<F>,
    bc1: F,
    bc2: F,
    m: F,
    v: F,
    p: F,
    r: F,
) -> bool {
    exists|direction: F| #[trigger]
        direction_is(m, v, bc1, bc2, h.eps, direction) && stepped_is(h, direction, p, r)
}

/// All parameters and moments after a step, with the given bias corrections.
pub open spec fn adam_with<F: Scalar>(
    h: AdamW<F>,
    bc1: F,
    bc2: F,
    g: Seq<F>,
    old_s: (Seq<F>, Seq<F>, Seq<F>),
    new_s: (Seq<F>, Seq<F>, Seq<F>),
) -> bool {
    &&& new_s.0.len() == old_s.0.len()
    &&& new_s.1.len() == old_s.1.len()
    &&& new_s.2.len() == old_s.2.len()
    &&& forall|i: int|
        #![trigger new_s.0[i]]
        #![trigger new_s.1[i]]
        #![trigger new_s.2[i]]
        0 <= i < old_s.0.len() ==> first_moment_is(h.beta1, old_s.1[i], g[i], new_s.1[i])
            && second_moment_is(h.beta2, old_s.2[i], g[i], new_s.2[i]) && adam_param_is(
            h,
            bc1,
            bc2,
            new_s.1[i],
            new_s.2[i],
            old_s.0[i],
            new_s.0[i],
        )
}

/// Parameters, first and second moments before and after step number `t`, where
/// `g` are the gradients. The weight decay acts on the parameters, not on the
/// gradients.
pub open spec fn adam_is<F: Scalar>(
    h: AdamW<F>,
    t: i32,
    g: Seq<F>,
    old_s: (Seq<F>, Seq<F>, Seq<F>),
    new_s: (Seq<F>, Seq<F>, Seq<F>),
) -> bool {
    exists|bc1: F, bc2: F| #[trigger]
        bias_correction_is(h.beta1, t, bc1) && #[trigger] bias_correction_is(h.beta2, t, bc2)
            && adam_with(h, bc1, bc2, g, old_s, new_s)
}

/// Step number `t` of AdamW on the parameters and their moments.
pub fn adam_step<F: Scalar>(
    h: &AdamW<F>,
    t: i32,
    g: &[F],
    params: &mut [F],
    m: &mut [F],
    v: &mut [F],
)
    requires
        g@.len() == old(params)@.len(),
        old(m)@.len() == old(params)@.len(),
        old(v)@.len() == old(params)@.len(),
    ensures
        adam_is(
            *h,
            t,
            g@,
            (old(params)@, old(m)@, old(v)@),
            (final(params)@, final(m)@, final(v)@),
        ),
{
    let one = F::one();
    let p1 = h.beta1.powi(t);
    let bc1 = one.minus(p1);
    assert(rest_is(p1, bc1));
    assert(bias_correction_is(h.beta1, t, bc1));
    let p2 = h.beta2.powi(t);
    let bc2 = one.minus(p2);
    assert(rest_is(p2, bc2));
    assert(bias_correction_is(h.beta2, t, bc2));
    let n = params.len();
    let ghost ps = params@;
    let ghost ms = m@;
    let ghost vs = v@;
    for i in 0..n
        invariant
            is_one(one),
            n == ps.len(),
            g@.len() == n,
            ms.len() == n,
            vs.len() == n,
            params@.len() == n,
            m@.len() == n,
            v@.len() == n,
            forall|j: int| i <= j < n ==> #[trigger] params@[j] == ps[j],
            forall|j: int| i <= j < n ==> #[trigger] m@[j] == ms[j],
            forall|j: int| i <= j < n ==> #[trigger] v@[j] == vs[j],
            forall|j: int|
                #![trigger params@[j]]
                #![trigger m@[j]]
                #![trigger v@[j]]
                0 <= j < i ==> first_moment_is(h.beta1, ms[j], g@[j], m@[j]) && second_moment_is(
                    h.beta2,
                    vs[j],
                    g@[j],
                    v@[j],
                ) && adam_param_is(*h, bc1, bc2, m@[j], v@[j], ps[j], params@[j]),
    {
        let gi = g[i];
        let rest1 = one.minus(h.beta1);
        assert(rest_is(h.beta1, rest1));
        let mi = h.beta1.times(m[i]).plus(rest1.times(gi));
        assert(first_moment_is(h.beta1, ms[i as int], gi, mi));
        let rest2 = one.minus(h.beta2);
        assert(rest_is(h.beta2, rest2));
        let vi = h.beta2.times(v[i]).plus(rest2.times(gi).times(gi));
        assert(second_moment_is(h.beta2, vs[i as int], gi, vi));
        let m_hat = mi.divide(bc1);
        let v_hat = vi.divide(bc2);
        let direction = m_hat.divide(v_hat.sqrt().plus(h.eps));
        assert(direction_is(mi, vi, bc1, bc2, h.eps, direction));
        let p = params[i];
        let decay = h.weight_decay.times(p);
        let next = p.minus(h.lr.times(direction.plus(decay)));
        assert(stepped_is(*h, direction, p, next));
        assert(adam_param_is(*h, bc1, bc2, mi, vi, ps[i as int], next));
        m[i] = mi;
        v[i] = vi;
        params[i] = next;
    }
    assert(adam_with(*h, bc1, bc2, g@, (ps, ms, vs), (params@, m@, v@)));
}

} // verus!
