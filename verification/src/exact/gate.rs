//! The exponential function, and SwiGLU where the arithmetic is exact.

use vstd::prelude::*;

use crate::exact::exact;
use crate::ops::pointwise::{
    sigmoid_is, silu_slope_is, swiglu_at, swiglu_gradient_at, swiglu_gradient_is, swiglu_is,
};
use crate::scalar::{
    difference_is, exp_is, is_one, ln_is, negation_is, product_is, quotient_is, sum_is, Scalar,
};

verus! {

/// `ex` is the exponential function: positive, it takes sums to products, and
/// the values' exponentials and logarithms go by it.
pub open spec fn exponential<F: Scalar>(
    val: spec_fn(F) -> real,
    ex: spec_fn(real) -> real,
) -> bool {
    &&& forall|x: real| #[trigger] ex(x) > 0 as real
    &&& forall|x: real, y: real| #[trigger] sum_to_product(ex, x, y)
    &&& forall|a: F, r: F| #[trigger] exp_is(a, r) ==> val(r) == ex(val(a))
    &&& forall|a: F, r: F| #[trigger] ln_is(a, r) && val(a) > 0 as real ==> ex(val(r)) == val(a)
}

/// The exponential of this sum is the product of the exponentials.
pub open spec fn sum_to_product(ex: spec_fn(real) -> real, x: real, y: real) -> bool {
    ex(x + y) == ex(x) * ex(y)
}

/// SwiGLU of `g` and `up`: the output times `1 + e^-g` is `g` times `up`.
pub proof fn lemma_gate_values<F: Scalar>(
    val: spec_fn(F) -> real,
    ex: spec_fn(real) -> real,
    gate: Seq<F>,
    up: Seq<F>,
    y: Seq<F>,
    i: int,
)
    requires
        exact(val),
        exponential(val, ex),
        0 <= i < gate.len(),
        swiglu_is(gate, up, y),
    ensures
        y.len() == gate.len(),
        val(y[i]) * (1 as real + ex(-val(gate[i]))) == val(gate[i]) * val(up[i]),
{
    reveal(swiglu_is);
    let (g, u, r) = (gate[i], up[i], y[i]);
    assert(swiglu_at(g, u, r));
    let (one, neg, e, d, s) = choose|one: F, neg: F, e: F, d: F, s: F|
        #[trigger] is_one(one) && #[trigger] negation_is(g, neg) && #[trigger] exp_is(neg, e)
            && #[trigger] sum_is(one, e, d) && #[trigger] quotient_is(g, d, s) && product_is(
            s,
            u,
            r,
        );
    assert(ex(-val(g)) > 0 as real);
    let (a, b, k) = (val(s), val(u), val(d));
    assert((a * b) * k == (a * k) * b) by (nonlinear_arith);
}

/// The gradients of SwiGLU: with `e = e^-g`, that of `up` times `1 + e` is the
/// output gradient times `g`; that of `g` times `(1 + e)^2` is the output
/// gradient times `up` times `1 + e + g * e`.
pub proof fn lemma_gate_gradient_values<F: Scalar>(
    val: spec_fn(F) -> real,
    ex: spec_fn(real) -> real,
    gate: Seq<F>,
    up: Seq<F>,
    d: Seq<F>,
    dgate: Seq<F>,
    dup: Seq<F>,
    i: int,
)
    requires
        exact(val),
        exponential(val, ex),
        0 <= i < gate.len(),
        swiglu_gradient_is(gate, up, d, dgate, dup),
    ensures
        dgate.len() == gate.len(),
        dup.len() == gate.len(),
        ({
            let e = ex(-val(gate[i]));
            let g = val(gate[i]);
            &&& val(dup[i]) * (1 as real + e) == val(d[i]) * g
            &&& val(dgate[i]) * ((1 as real + e) * (1 as real + e)) == (val(d[i]) * val(up[i])) * ((
            1 as real + e) + g * e)
        }),
{
    reveal(swiglu_gradient_is);
    let (g, u, dd, dg, du) = (gate[i], up[i], d[i], dgate[i], dup[i]);
    assert(swiglu_gradient_at(g, u, dd, dg, du));
    let (sig, silu, slope, ud) = choose|sig: F, silu: F, slope: F, ud: F|
        #[trigger] sigmoid_is(g, sig) && #[trigger] product_is(g, sig, silu)
            && #[trigger] silu_slope_is(g, sig, slope) && #[trigger] product_is(dd, u, ud)
            && product_is(ud, slope, dg) && product_is(dd, silu, du);
    let (one, top, neg, e, den) = choose|one: F, top: F, neg: F, e: F, den: F|
        #[trigger] is_one(one) && #[trigger] is_one(top) && #[trigger] negation_is(g, neg)
            && #[trigger] exp_is(neg, e) && #[trigger] sum_is(one, e, den)
            && quotient_is(top, den, sig);
    let (one2, top2, rest, p, t) = choose|one: F, top: F, rest: F, p: F, s: F|
        #[trigger] is_one(one) && #[trigger] is_one(top) && #[trigger] difference_is(
            top,
            sig,
            rest,
        ) && #[trigger] product_is(g, rest, p) && #[trigger] sum_is(one, p, s) && product_is(
            sig,
            s,
            slope,
        );
    let ev = ex(-val(g));
    assert(ev > 0 as real);
    let (x, s, k) = (val(g), val(sig), 1 as real + ev);
    let (a, b) = (val(dd), val(u));
    assert(s * k == 1 as real);
    assert((a * (x * s)) * k == (a * x) * (s * k)) by (nonlinear_arith);
    assert((a * x) * 1 as real == a * x) by (nonlinear_arith);
    assert(val(slope) == s * (1 as real + x * (1 as real - s)));
    let inner_v = 1 as real + x * (1 as real - s);
    lemma_slope(x, s, k, ev);
    let v = s * inner_v;
    assert((s * inner_v) * (k * k) == (s * k) * (inner_v * k)) by (nonlinear_arith);
    let q = inner_v * k;
    assert(1 as real * q == q) by (nonlinear_arith);
    let z = a * b;
    assert((z * v) * (k * k) == z * (v * (k * k))) by (nonlinear_arith);
}

/// Equal factors make equal products.
proof fn lemma_same_factor(x: real, a: real, b: real)
    requires
        a == b,
    ensures
        x * a == x * b,
{
}

/// The bracket of SwiGLU's slope, times `1 + e^-g`.
proof fn lemma_slope(x: real, s: real, k: real, e: real)
    requires
        s * k == 1 as real,
        k == 1 as real + e,
    ensures
        (1 as real + x * (1 as real - s)) * k == k + x * e,
{
    let w = s * k;
    assert((1 as real + x * (1 as real - s)) * k == k + x * (k - s * k)) by (nonlinear_arith);
    lemma_same_factor(x, k - s * k, e);
}

} // verus!
