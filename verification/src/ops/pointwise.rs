//! Operations that treat every value by itself: dropout, residual sums and the
//! SwiGLU gate, each with its backward pass.

use vstd::prelude::*;

use crate::arena::{apart, group_kept, only_changed, only_changed2, par_map, store, tensor};
use crate::scalar::{
    difference_is, exp_is, is_one, mul_add_is, negation_is, product_is, quotient_is, sum_is, Scalar,
};

verus! {

/// `y[i]` is `x[i] * m[i]`.
pub open spec fn scaled_is<F: Scalar>(x: Seq<F>, m: Seq<F>, y: Seq<F>) -> bool {
    &&& y.len() == x.len()
    &&& forall|i: int| 0 <= i < x.len() ==> product_is(x[i], m[i], #[trigger] y[i])
}

/// `y[i]` is `x[i] * k`.
pub open spec fn each_times_is<F: Scalar>(x: Seq<F>, k: F, y: Seq<F>) -> bool {
    &&& y.len() == x.len()
    &&& forall|i: int| 0 <= i < x.len() ==> product_is(x[i], k, #[trigger] y[i])
}

/// The values of `x` times `k`.
pub fn each_times<F: Scalar>(x: &[F], k: F) -> (y: Vec<F>)
    ensures
        each_times_is(x@, k, y@),
{
    let mut y: Vec<F> = Vec::with_capacity(x.len());
    for i in 0..x.len()
        invariant
            y@.len() == i,
            forall|j: int| 0 <= j < i ==> product_is(x@[j], k, #[trigger] y@[j]),
    {
        y.push(x[i].times(k));
    }
    y
}

/// `x[i] * m[i]`.
fn scaled<F: Scalar>(x: &[F], m: &[F], i: usize) -> (r: F)
    requires
        i < x.len(),
        i < m.len(),
    ensures
        product_is(x@[i as int], m@[i as int], r),
{
    x[i].times(m[i])
}

/// Multiply the `n` values (or gradients) at `x_off` by the keep factors at
/// `m_off` of `mask`.
pub fn apply_dropout<F: Scalar>(acts: &mut [F], x_off: usize, mask: &[F], m_off: usize, n: usize)
    requires
        x_off + n <= old(acts).len(),
        m_off + n <= mask.len(),
    ensures
        only_changed(old(acts)@, final(acts)@, x_off as int, n as int),
        scaled_is(
            tensor(old(acts)@, x_off as int, n as int),
            tensor(mask@, m_off as int, n as int),
            tensor(final(acts)@, x_off as int, n as int),
        ),
{
    let x: &[F] = &acts[x_off..x_off + n];
    let m: &[F] = &mask[m_off..m_off + n];
    let y = par_map(n, |i: usize| -> (r: F)
        requires i < n, x@.len() == n, m@.len() == n,
        ensures product_is(x@[i as int], m@[i as int], r),
        { scaled(x, m, i) });
    store(acts, x_off, y.as_slice());
}

/// `y[i]` is `a[i] + b[i]`.
#[verifier::opaque]
pub open spec fn sums_are<F: Scalar>(a: Seq<F>, b: Seq<F>, y: Seq<F>) -> bool {
    &&& y.len() == a.len()
    &&& forall|i: int| 0 <= i < a.len() ==> sum_is(a[i], b[i], #[trigger] y[i])
}

/// The sums of two slices.
fn sums<F: Scalar>(a: &[F], b: &[F]) -> (y: Vec<F>)
    requires
        a.len() == b.len(),
    ensures
        sums_are(a@, b@, y@),
{
    proof {
        reveal(sums_are);
    }
    let mut y: Vec<F> = Vec::with_capacity(a.len());
    for i in 0..a.len()
        invariant
            a.len() == b.len(),
            y@.len() == i,
            forall|j: int| 0 <= j < i ==> sum_is(a@[j], b@[j], #[trigger] y@[j]),
    {
        y.push(a[i].plus(b[i]));
    }
    y
}

/// Residual sum: the tensor at `out_off` becomes the sum of those at `in1_off`
/// and `in2_off`.
pub fn residual_forward<F: Scalar>(
    acts: &mut [F],
    out_off: usize,
    in1_off: usize,
    in2_off: usize,
    n: usize,
)
    requires
        out_off + n <= old(acts).len(),
        in1_off + n <= old(acts).len(),
        in2_off + n <= old(acts).len(),
    ensures
        only_changed(old(acts)@, final(acts)@, out_off as int, n as int),
        sums_are(
            tensor(old(acts)@, in1_off as int, n as int),
            tensor(old(acts)@, in2_off as int, n as int),
            tensor(final(acts)@, out_off as int, n as int),
        ),
{
    proof {
        reveal(sums_are);
    }
    let y = sums(&acts[in1_off..in1_off + n], &acts[in2_off..in2_off + n]);
    store(acts, out_off, y.as_slice());
}

/// Backward of a residual sum: the gradient at `dout_off` is added to the
/// tensors at `dinp1_off` and `dinp2_off`.
pub fn residual_backward<F: Scalar>(
    gacts: &mut [F],
    dinp1_off: usize,
    dinp2_off: usize,
    dout_off: usize,
    n: usize,
)
    requires
        dinp1_off + n <= old(gacts).len(),
        dinp2_off + n <= old(gacts).len(),
        dout_off + n <= old(gacts).len(),
        apart(dinp1_off as int, n as int, dout_off as int, n as int),
        apart(dinp1_off as int, n as int, dinp2_off as int, n as int),
    ensures
        only_changed2(
            old(gacts)@,
            final(gacts)@,
            dinp1_off as int,
            n as int,
            dinp2_off as int,
            n as int,
        ),
        sums_are(
            tensor(old(gacts)@, dinp1_off as int, n as int),
            tensor(old(gacts)@, dout_off as int, n as int),
            tensor(final(gacts)@, dinp1_off as int, n as int),
        ),
        sums_are(
            tensor(old(gacts)@, dinp2_off as int, n as int),
            tensor(old(gacts)@, dout_off as int, n as int),
            tensor(final(gacts)@, dinp2_off as int, n as int),
        ),
{
    proof {
        reveal(sums_are);
    }
    broadcast use group_kept;

    residual_forward(gacts, dinp1_off, dinp1_off, dout_off, n);
    residual_forward(gacts, dinp2_off, dinp2_off, dout_off, n);
}

/// `r` is `silu(g) * u`, where `silu(g)` is `g / (1 + exp(-g))`.
pub open spec fn swiglu_at<F: Scalar>(g: F, u: F, r: F) -> bool {
    exists|one: F, neg: F, e: F, d: F, s: F|
        #[trigger] is_one(one) && #[trigger] negation_is(g, neg) && #[trigger] exp_is(neg, e)
            && #[trigger] sum_is(one, e, d) && #[trigger] quotient_is(g, d, s) && product_is(s, u, r)
}

/// `y[i]` is `silu(gate[i]) * up[i]`.
#[verifier::opaque]
pub open spec fn swiglu_is<F: Scalar>(gate: Seq<F>, up: Seq<F>, y: Seq<F>) -> bool {
    &&& y.len() == gate.len()
    &&& forall|i: int| 0 <= i < gate.len() ==> swiglu_at(gate[i], up[i], #[trigger] y[i])
}

/// SwiGLU gate: the tensor at `glu_off` becomes `silu(gate) * up`.
pub fn swiglu_forward<F: Scalar>(
    acts: &mut [F],
    glu_off: usize,
    gate_off: usize,
    up_off: usize,
    n: usize,
)
    requires
        glu_off + n <= old(acts).len(),
        gate_off + n <= old(acts).len(),
        up_off + n <= old(acts).len(),
    ensures
        only_changed(old(acts)@, final(acts)@, glu_off as int, n as int),
        swiglu_is(
            tensor(old(acts)@, gate_off as int, n as int),
            tensor(old(acts)@, up_off as int, n as int),
            tensor(final(acts)@, glu_off as int, n as int),
        ),
{
    proof {
        reveal(swiglu_is);
    }
    let gate: &[F] = &acts[gate_off..gate_off + n];
    let up: &[F] = &acts[up_off..up_off + n];
    let mut y: Vec<F> = Vec::with_capacity(n);
    for i in 0..n
        invariant
            gate@.len() == n,
            up@.len() == n,
            y@.len() == i,
            forall|j: int| 0 <= j < i ==> swiglu_at(gate@[j], up@[j], #[trigger] y@[j]),
    {
        let g = gate[i];
        let u = up[i];
        let silu = g.divide(F::one().plus(g.negate().exp()));
        let r = silu.times(u);
        assert(swiglu_at(g, u, r));
        y.push(r);
    }
    store(acts, glu_off, y.as_slice());
}

/// `dg` and `du` are the gradients of `silu(g) * u` with respect to `g` and
/// `u`, given the gradient `d` of the product: with `sig = 1 / (1 + exp(-g))`,
/// `dg` is `d * u * (sig * (1 + g * (1 - sig)))` and `du` is `d * (g * sig)`.
pub open spec fn swiglu_gradient_at<F: Scalar>(g: F, u: F, d: F, dg: F, du: F) -> bool {
    exists|sig: F, silu: F, slope: F, ud: F|
        #[trigger] sigmoid_is(g, sig) && #[trigger] product_is(g, sig, silu)
            && #[trigger] silu_slope_is(g, sig, slope) && #[trigger] product_is(d, u, ud)
            && product_is(ud, slope, dg) && product_is(d, silu, du)
}

/// `r` is `1 / (1 + exp(-g))`.
pub open spec fn sigmoid_is<F: Scalar>(g: F, r: F) -> bool {
    exists|one: F, top: F, neg: F, e: F, d: F|
        #[trigger] is_one(one) && #[trigger] is_one(top) && #[trigger] negation_is(g, neg)
            && #[trigger] exp_is(neg, e) && #[trigger] sum_is(one, e, d) && quotient_is(top, d, r)
}

/// `r` is `sig * (1 + g * (1 - sig))`.
pub open spec fn silu_slope_is<F: Scalar>(g: F, sig: F, r: F) -> bool {
    exists|one: F, top: F, rest: F, p: F, s: F|
        #[trigger] is_one(one) && #[trigger] is_one(top) && #[trigger] difference_is(top, sig, rest)
            && #[trigger] product_is(g, rest, p) && #[trigger] sum_is(one, p, s) && product_is(
            sig,
            s,
            r,
        )
}

/// `dgate` and `dup` are the gradients of the gated product, value by value.
#[verifier::opaque]
pub open spec fn swiglu_gradient_is<F: Scalar>(
    gate: Seq<F>,
    up: Seq<F>,
    dglu: Seq<F>,
    dgate: Seq<F>,
    dup: Seq<F>,
) -> bool {
    &&& dgate.len() == gate.len()
    &&& dup.len() == gate.len()
    &&& forall|i: int|
        #![trigger dgate[i]]
        #![trigger dup[i]]
        0 <= i < gate.len() ==> swiglu_gradient_at(gate[i], up[i], dglu[i], dgate[i], dup[i])
}

/// Backward of the SwiGLU gate: overwrites the tensors at `dgate_off` and
/// `dup_off` with the gradients that follow from the one at `dglu_off`.
pub fn swiglu_backward<F: Scalar>(
    gacts: &mut [F],
    dgate_off: usize,
    dup_off: usize,
    dglu_off: usize,
    acts: &[F],
    gate_off: usize,
    up_off: usize,
    n: usize,
)
    requires
        dgate_off + n <= old(gacts).len(),
        dup_off + n <= old(gacts).len(),
        dglu_off + n <= old(gacts).len(),
        gate_off + n <= acts.len(),
        up_off + n <= acts.len(),
        apart(dgate_off as int, n as int, dup_off as int, n as int),
    ensures
        only_changed2(
            old(gacts)@,
            final(gacts)@,
            dgate_off as int,
            n as int,
            dup_off as int,
            n as int,
        ),
        swiglu_gradient_is(
            tensor(acts@, gate_off as int, n as int),
            tensor(acts@, up_off as int, n as int),
            tensor(old(gacts)@, dglu_off as int, n as int),
            tensor(final(gacts)@, dgate_off as int, n as int),
            tensor(final(gacts)@, dup_off as int, n as int),
        ),
{
    proof {
        reveal(swiglu_gradient_is);
    }
    broadcast use group_kept;

    let gate: &[F] = &acts[gate_off..gate_off + n];
    let up: &[F] = &acts[up_off..up_off + n];
    let dglu: &[F] = &gacts[dglu_off..dglu_off + n];
    let mut dgate: Vec<F> = Vec::with_capacity(n);
    let mut dup: Vec<F> = Vec::with_capacity(n);
    for i in 0..n
        invariant
            gate@.len() == n,
            up@.len() == n,
            dglu@.len() == n,
            dgate@.len() == i,
            dup@.len() == i,
            forall|j: int|
                #![trigger dgate@[j]]
                #![trigger dup@[j]]
                0 <= j < i ==> swiglu_gradient_at(gate@[j], up@[j], dglu@[j], dgate@[j], dup@[j]),
    {
        let g = gate[i];
        let u = up[i];
        let d = dglu[i];
        let sig = F::one().divide(F::one().plus(g.negate().exp()));
        assert(sigmoid_is(g, sig));
        let silu = g.times(sig);
        let slope = sig.times(F::one().plus(g.times(F::one().minus(sig))));
        assert(silu_slope_is(g, sig, slope));
        let dg = d.times(u).times(slope);
        let du = d.times(silu);
        assert(swiglu_gradient_at(g, u, d, dg, du));
        dgate.push(dg);
        dup.push(du);
    }
    store(gacts, dgate_off, dgate.as_slice());
    store(gacts, dup_off, dup.as_slice());
}

/// Add `k * x[i]` to each `acc[i]`.
pub fn add_scaled<F: Scalar>(acc: &mut Vec<F>, k: F, x: &[F])
    requires
        old(acc)@.len() == x@.len(),
    ensures
        final(acc)@.len() == old(acc)@.len(),
        forall|i: int|
            0 <= i < x@.len() ==> mul_add_is(old(acc)@[i], k, x@[i], #[trigger] final(acc)@[i]),
{
    let ghost before = acc@;
    for i in 0..x.len()
        invariant
            acc@.len() == before.len(),
            acc@.len() == x@.len(),
            forall|j: int| 0 <= j < i ==> mul_add_is(before[j], k, x@[j], #[trigger] acc@[j]),
            forall|j: int| i <= j < before.len() ==> #[trigger] acc@[j] == before[j],
    {
        let next = acc[i].plus(k.times(x[i]));
        assert(mul_add_is(before[i as int], k, x@[i as int], next));
        acc[i] = next;
    }
}

/// Add `x[i] * k` to each `acc[i]`.
pub fn add_times<F: Scalar>(acc: &mut Vec<F>, x: &[F], k: F)
    requires
        old(acc)@.len() == x@.len(),
    ensures
        final(acc)@.len() == old(acc)@.len(),
        forall|i: int|
            0 <= i < x@.len() ==> mul_add_is(old(acc)@[i], x@[i], k, #[trigger] final(acc)@[i]),
{
    let ghost before = acc@;
    for i in 0..x.len()
        invariant
            acc@.len() == before.len(),
            acc@.len() == x@.len(),
            forall|j: int| 0 <= j < i ==> mul_add_is(before[j], x@[j], k, #[trigger] acc@[j]),
            forall|j: int| i <= j < before.len() ==> #[trigger] acc@[j] == before[j],
    {
        let next = acc[i].plus(x[i].times(k));
        assert(mul_add_is(before[i as int], x@[i as int], k, next));
        acc[i] = next;
    }
}

} // verus!
