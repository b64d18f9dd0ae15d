//! Fresh parameters and keep factors where the arithmetic is exact.

use vstd::prelude::*;

use crate::exact::exact;
use crate::exact::gate::exponential;
use crate::exact::power::exact_roots;
use crate::layout::{lemma_param_layout, lemma_param_sizes, param_layout, Config};
use crate::model::{keep_factor_is, keep_scale_is, masks_are};
use crate::model::init::{direction_is, initial_params_are, radius_is, randn_is, weight_is};
use crate::model::optim::rest_is;
use crate::scalar::{
    cos_is, exceeds_is, is_one, is_pi, is_zero, larger_is, ln_is, negation_is, product_is,
    quotient_is, ratio_is, sqrt_is, Scalar, Single,
};
use crate::sums::times;

verus! {

/// The larger of `x` and `1e-7`.
pub open spec fn raised(x: real) -> real {
    if 10000000 as real * x < 1 as real {
        1 as real / 10000000 as real
    } else {
        x
    }
}

/// `w` is a normal sample of the Box-Muller transform with a standard deviation
/// of a fiftieth, from the uniform draws `u`: fifty times `w` is the radius times
/// the cosine of `2 * pi` times the second draw, where the square of the radius,
/// over minus two, is the logarithm of the first draw, raised to `1e-7`.
pub open spec fn sample_values<F: Scalar>(
    val: spec_fn(F) -> real,
    ex: spec_fn(real) -> real,
    u: (F, F),
    w: F,
    radius: real,
    pi: F,
    angle: F,
    direction: F,
) -> bool {
    &&& radius >= 0 as real
    &&& ex(-(radius * radius) / 2 as real) == raised(val(u.0))
    &&& is_pi(pi)
    &&& val(angle) == times(times(2 as real, val(pi)), val(u.1))
    &&& cos_is(angle, direction)
    &&& 50 as real * val(w) == times(radius, val(direction))
}

/// A fresh weight is such a sample, where the first draw is at most one.
pub proof fn lemma_weight_values<F: Scalar>(
    val: spec_fn(F) -> real,
    ex: spec_fn(real) -> real,
    u: (F, F),
    w: F,
)
    requires
        exact(val),
        exact_roots(val),
        exponential(val, ex),
        forall|x: real| x > 0 as real ==> #[trigger] ex(x) > 1 as real,
        val(u.0) <= 1 as real,
        weight_is(u, w),
    ensures
        exists|radius: real, pi: F, angle: F, direction: F|
            #[trigger] sample_values(val, ex, u, w, radius, pi, angle, direction),
{
    let (x, k) = choose|x: F, k: F| #[trigger]
        randn_is(u.0, u.1, x) && #[trigger] ratio_is(1, 50, k) && product_is(x, k, w);
    let (radius, direction) = choose|radius: F, direction: F| #[trigger]
        radius_is(u.0, radius) && #[trigger] direction_is(u.1, direction) && product_is(
            radius,
            direction,
            x,
        );
    let (low, raised_u, ln, two, minus_two, square) = choose|
        low: F,
        u1: F,
        ln: F,
        two: F,
        minus_two: F,
        square: F,
    | #[trigger]
        ratio_is(1, 10_000_000, low) && #[trigger] larger_is(u.0, low, u1) && #[trigger] ln_is(
            u1,
            ln,
        ) && #[trigger] ratio_is(2, 1, two) && #[trigger] negation_is(two, minus_two)
            && #[trigger] product_is(minus_two, ln, square) && sqrt_is(square, radius);
    let (two2, pi, turn, angle) = choose|two: F, pi: F, turn: F, angle: F| #[trigger]
        ratio_is(2, 1, two) && #[trigger] is_pi(pi) && #[trigger] product_is(two, pi, turn)
            && #[trigger] product_is(turn, u.1, angle) && cos_is(angle, direction);
    let (a, b, c) = (val(two), val(two2), val(low));
    assert(a * (1 as int as real) == 2 as int as real && b * (1 as int as real) == 2 as int
        as real);
    assert(a * 1 as real == a && b * 1 as real == b) by (nonlinear_arith);
    assert(c * (10_000_000 as int as real) == 1 as int as real);
    assert(val(raised_u) == raised(val(u.0)));
    let l = val(ln);
    assert(ex(l) == val(raised_u));
    assert(l <= 0 as real) by {
        if l > 0 as real {
            assert(ex(l) > 1 as real);
        }
    }
    assert(val(minus_two) == -(2 as real));
    assert(val(square) == -(2 as real) * l);
    let r = val(radius);
    assert(r * r == -(2 as real) * l);
    assert(-(r * r) / 2 as real == l);
    assert(val(turn) == times(2 as real, val(pi)));
    assert(val(angle) == times(val(turn), val(u.1)));
    let (p, q, z) = (val(x), val(k), val(w));
    assert(q * (50 as int as real) == 1 as int as real);
    assert(50 as real * (p * q) == p * (q * 50 as real)) by (nonlinear_arith);
    assert(z == p * q);
    assert(p * (q * 50 as real) == p * 1 as real);
    assert(p * 1 as real == p) by (nonlinear_arith);
    assert(val(x) == times(val(radius), val(direction)));
    assert(sample_values(val, ex, u, w, val(radius), pi, angle, direction));
}

/// How many norm weights lie in front of parameter `p`, and whether it is one.
pub open spec fn norms_before(c: Config, p: int) -> (int, bool) {
    let ch = c.n_embd as int;
    let l = c.n_layer as int;
    let h = 8 * ch / 3;
    let ln1w = c.vocab_size * ch;
    let ln2w = ln1w + l * ch + l * ((3 * ch) * ch) + l * (ch * ch);
    let lnfw = ln2w + l * ch + l * (h * ch) + l * (h * ch) + l * (h * ch);
    if p < ln1w {
        (0, false)
    } else if p < ln1w + l * ch {
        (p - ln1w, true)
    } else if p < ln2w {
        (l * ch, false)
    } else if p < ln2w + l * ch {
        (l * ch + (p - ln2w), true)
    } else if p < lnfw {
        (2 * (l * ch), false)
    } else if p < lnfw + ch {
        (2 * (l * ch) + (p - lnfw), true)
    } else {
        (2 * (l * ch) + ch, false)
    }
}

/// Of fresh parameters every norm weight is one, and every other parameter is
/// the sample of a pair of draws of its own, in order.
pub proof fn lemma_fresh_params<F: Scalar>(
    c: Config,
    draws: Seq<(F, F)>,
    params: Seq<F>,
    p: int,
)
    requires
        c.params_fit(),
        initial_params_are(c, draws, params),
        0 <= p < params.len(),
    ensures
        ({
            let (k, norm) = norms_before(c, p);
            if norm {
                is_one(params[p])
            } else {
                0 <= p - k < draws.len() && weight_is(draws[p - k], params[p])
            }
        }),
{
    lemma_param_layout(c);
    lemma_param_sizes(c);
    let pl = param_layout(c);
    let (k, norm) = norms_before(c, p);
    if p < pl.wte.end() {
        assert(pl.wte.of(params)[p - pl.wte.off] == params[p]);
    } else if p < pl.ln1w.end() {
        assert(pl.ln1w.of(params)[p - pl.ln1w.off] == params[p]);
    } else if p < pl.qkvw.end() {
        assert(pl.qkvw.of(params)[p - pl.qkvw.off] == params[p]);
    } else if p < pl.attprojw.end() {
        assert(pl.attprojw.of(params)[p - pl.attprojw.off] == params[p]);
    } else if p < pl.ln2w.end() {
        assert(pl.ln2w.of(params)[p - pl.ln2w.off] == params[p]);
    } else if p < pl.w1.end() {
        assert(pl.w1.of(params)[p - pl.w1.off] == params[p]);
    } else if p < pl.w3.end() {
        assert(pl.w3.of(params)[p - pl.w3.off] == params[p]);
    } else if p < pl.w2.end() {
        assert(pl.w2.of(params)[p - pl.w2.off] == params[p]);
    } else if p < pl.lnfw.end() {
        assert(pl.lnfw.of(params)[p - pl.lnfw.off] == params[p]);
    } else {
        assert(pl.lm_head.of(params)[p - pl.lm_head.off] == params[p]);
    }
}

/// A value is dropped where its draw is not below `1 - p`; else it is kept, and
/// its factor times `1 - p` is one.
pub proof fn lemma_keep_values<F: Single>(
    val: spec_fn(F) -> real,
    p: F,
    draws: Seq<F>,
    masks: Seq<F>,
    i: int,
)
    requires
        exact(val),
        val(p) < 1 as real,
        masks_are(p, draws, masks),
        0 <= i < draws.len(),
    ensures
        masks.len() == draws.len(),
        if val(draws[i]) < 1 as real - val(p) {
            times(val(masks[i]), 1 as real - val(p)) == 1 as real
        } else {
            val(masks[i]) == 0 as real
        },
{
    let (keep, scale) = choose|keep: F, scale: F| #[trigger]
        keep_scale_is(p, keep, scale) && forall|i: int|
            0 <= i < masks.len() ==> keep_factor_is(draws[i], keep, scale, #[trigger] masks[i]);
    assert(keep_factor_is(draws[i], keep, scale, masks[i]));
    let b = choose|b: bool| #[trigger]
        exceeds_is(keep, draws[i], b) && if b {
            masks[i] == scale
        } else {
            is_zero(masks[i])
        };
    let one = choose|one: F| #[trigger] is_one(one) && quotient_is(one, keep, scale);
    assert(rest_is(p, keep));
    assert(val(keep) == 1 as real - val(p));
    assert(times(val(scale), val(keep)) == 1 as real);
}

} // verus!
