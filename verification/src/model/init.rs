//! Initial parameters, from uniform draws.

use vstd::prelude::*;

use crate::arena::{group_kept, only_changed};
use crate::layout::{
    lemma_param_layout, lemma_param_sizes, param_layout, Config, Off, ParamLayout,
};
use crate::scalar::{
    cos_is, is_one, is_pi, larger_is, ln_is, negation_is, product_is, ratio_is, sqrt_is, Scalar,
};

verus! {

/// `r` is `sqrt(-2 * ln(u1))`, where `u1` is raised to at least `1e-7`.
pub open spec fn radius_is<F: Scalar>(u1: F, r: F) -> bool {
    exists|low: F, u: F, ln: F, two: F, minus_two: F, square: F| #[trigger]
        ratio_is(1, 10_000_000, low) && #[trigger] larger_is(u1, low, u) && #[trigger] ln_is(u, ln)
            && #[trigger] ratio_is(2, 1, two) && #[trigger] negation_is(two, minus_two)
            && #[trigger] product_is(minus_two, ln, square) && sqrt_is(square, r)
}

/// `r` is `cos(2 * pi * u2)`.
pub open spec fn direction_is<F: Scalar>(u2: F, r: F) -> bool {
    exists|two: F, pi: F, turn: F, angle: F| #[trigger]
        ratio_is(2, 1, two) && #[trigger] is_pi(pi) && #[trigger] product_is(two, pi, turn)
            && #[trigger] product_is(turn, u2, angle) && cos_is(angle, r)
}

/// `r` is the standard normal sample that the Box-Muller transform makes of two
/// uniform draws.
pub open spec fn randn_is<F: Scalar>(u1: F, u2: F, r: F) -> bool {
    exists|radius: F, direction: F| #[trigger]
        radius_is(u1, radius) && #[trigger] direction_is(u2, direction) && product_is(
            radius,
            direction,
            r,
        )
}

/// `w` is a normal sample with a standard deviation of 0.02.
pub open spec fn weight_is<F: Scalar>(u: (F, F), w: F) -> bool {
    exists|x: F, k: F| #[trigger]
        randn_is(u.0, u.1, x) && #[trigger] ratio_is(1, 50, k) && product_is(x, k, w)
}

/// The values in the span are the weights that follow from the draws, one pair
/// for each from `at` on.
pub open spec fn weights_are<F: Scalar>(o: Off, draws: Seq<(F, F)>, at: int, params: Seq<F>) -> bool {
    forall|i: int| 0 <= i < o.len ==> weight_is(draws[at + i], #[trigger] o.of(params)[i])
}

/// The values in the span are ones.
pub open spec fn ones_are<F: Scalar>(o: Off, params: Seq<F>) -> bool {
    forall|i: int| 0 <= i < o.len ==> is_one(#[trigger] o.of(params)[i])
}

/// The number of parameters that are drawn.
pub open spec fn weight_count(pl: ParamLayout) -> int {
    pl.wte.len + pl.qkvw.len + pl.attprojw.len + pl.w1.len + pl.w3.len + pl.w2.len + pl.lm_head.len
}

/// Fresh parameters: the weight matrices follow from the draws, tensor by
/// tensor, and the norm weights are ones.
pub open spec fn initial_params_are<F: Scalar>(
    c: Config,
    draws: Seq<(F, F)>,
    params: Seq<F>,
) -> bool {
    let pl = param_layout(c);
    let qkvw = pl.wte.len as int;
    let attprojw = qkvw + pl.qkvw.len;
    let w1 = attprojw + pl.attprojw.len;
    let w3 = w1 + pl.w1.len;
    let w2 = w3 + pl.w3.len;
    let lm_head = w2 + pl.w2.len;
    &&& params.len() == c.param_total()
    &&& draws.len() == weight_count(pl)
    &&& weights_are(pl.wte, draws, 0, params)
    &&& weights_are(pl.qkvw, draws, qkvw, params)
    &&& weights_are(pl.attprojw, draws, attprojw, params)
    &&& weights_are(pl.w1, draws, w1, params)
    &&& weights_are(pl.w3, draws, w3, params)
    &&& weights_are(pl.w2, draws, w2, params)
    &&& weights_are(pl.lm_head, draws, lm_head, params)
    &&& ones_are(pl.ln1w, params)
    &&& ones_are(pl.ln2w, params)
    &&& ones_are(pl.lnfw, params)
}

/// A standard normal sample from two uniform draws, by the Box-Muller
/// transform.
pub fn randn<F: Scalar>(u1: F, u2: F) -> (r: F)
    ensures
        randn_is(u1, u2, r),
{
    let u = u1.larger(F::from_ratio(1, 10_000_000));
    let square = F::from_ratio(2, 1).negate().times(u.ln());
    let radius = square.sqrt();
    assert(radius_is(u1, radius));
    let turn = F::from_ratio(2, 1).times(F::pi());
    let direction = turn.times(u2).cos();
    assert(direction_is(u2, direction));
    radius.times(direction)
}

/// Fill a span with weights.
fn draw_weights<F: Scalar>(params: &mut [F], o: &Off, draws: &[(F, F)], at: usize)
    requires
        o.end() <= old(params)@.len(),
        at + o.len <= draws@.len(),
    ensures
        only_changed(old(params)@, final(params)@, o.off as int, o.len as int),
        weights_are(*o, draws@, at as int, final(params)@),
{
    let ghost before = params@;
    for i in 0..o.len
        invariant
            o.end() <= params@.len(),
            params@.len() == before.len(),
            at + o.len <= draws@.len(),
            only_changed(before, params@, o.off as int, i as int),
            forall|j: int| 0 <= j < i ==> weight_is(draws@[at + j], #[trigger] o.of(params@)[j]),
    {
        let ghost prev = params@;
        assert(o.off + o.len <= params.len());
        assert(at + o.len <= draws.len());
        let u = draws[at + i];
        let x = randn(u.0, u.1);
        let w = x.times(F::from_ratio(1, 50));
        assert(weight_is(u, w));
        params[o.off + i] = w;
        proof {
            assert forall|j: int| 0 <= j < i + 1 implies weight_is(
                draws@[at + j],
                #[trigger] o.of(params@)[j],
            ) by {
                if j < i {
                    assert(o.of(params@)[j] == o.of(prev)[j]);
                }
            }
        }
    }
}

/// Fill a span with ones.
fn fill_ones<F: Scalar>(params: &mut [F], o: &Off)
    requires
        o.end() <= old(params)@.len(),
    ensures
        only_changed(old(params)@, final(params)@, o.off as int, o.len as int),
        ones_are(*o, final(params)@),
{
    let ghost before = params@;
    for i in 0..o.len
        invariant
            o.end() <= params@.len(),
            params@.len() == before.len(),
            only_changed(before, params@, o.off as int, i as int),
            forall|j: int| 0 <= j < i ==> is_one(#[trigger] o.of(params@)[j]),
    {
        let ghost prev = params@;
        assert(o.off + o.len <= params.len());
        params[o.off + i] = F::one();
        proof {
            assert forall|j: int| 0 <= j < i + 1 implies is_one(#[trigger] o.of(params@)[j]) by {
                if j < i {
                    assert(o.of(params@)[j] == o.of(prev)[j]);
                }
            }
        }
    }
}

/// `n` zeros.
pub fn zeros<F: Scalar>(n: usize) -> (v: Vec<F>)
    ensures
        v@.len() == n,
        crate::model::backward::all_zero(v@),
{
    let mut v: Vec<F> = Vec::with_capacity(n);
    for i in 0..n
        invariant
            v@.len() == i,
            crate::model::backward::all_zero(v@),
    {
        v.push(F::zero());
    }
    v
}

/// Fresh parameters from uniform draws.
#[verifier::rlimit(40)]
pub fn initial_params<F: Scalar>(cfg: &Config, pl: &ParamLayout, draws: &[(F, F)]) -> (params: Vec<F>)
    requires
        cfg.params_fit(),
        *pl == param_layout(*cfg),
        draws@.len() == weight_count(*pl),
    ensures
        initial_params_are(*cfg, draws@, params@),
{
    broadcast use group_kept;

    proof {
        lemma_param_layout(*cfg);
        lemma_param_sizes(*cfg);
        assert(draws@.len() == draws.len());
    }
    let mut params: Vec<F> = zeros(pl.total);
    let mut at: usize = 0;
    draw_weights(params.as_mut_slice(), &pl.wte, draws, at);
    let ghost s0 = params@;
    at = at + pl.wte.len;
    draw_weights(params.as_mut_slice(), &pl.qkvw, draws, at);
    let ghost s1 = params@;
    at = at + pl.qkvw.len;
    draw_weights(params.as_mut_slice(), &pl.attprojw, draws, at);
    let ghost s2 = params@;
    at = at + pl.attprojw.len;
    draw_weights(params.as_mut_slice(), &pl.w1, draws, at);
    let ghost s3 = params@;
    at = at + pl.w1.len;
    draw_weights(params.as_mut_slice(), &pl.w3, draws, at);
    let ghost s4 = params@;
    at = at + pl.w3.len;
    draw_weights(params.as_mut_slice(), &pl.w2, draws, at);
    let ghost s5 = params@;
    at = at + pl.w2.len;
    draw_weights(params.as_mut_slice(), &pl.lm_head, draws, at);
    let ghost s6 = params@;
    fill_ones(params.as_mut_slice(), &pl.ln1w);
    let ghost s7 = params@;
    fill_ones(params.as_mut_slice(), &pl.ln2w);
    let ghost s8 = params@;
    fill_ones(params.as_mut_slice(), &pl.lnfw);
    proof {
        assert(pl.wte.of(params@) == pl.wte.of(s0));
        assert(pl.qkvw.of(params@) == pl.qkvw.of(s1));
        assert(pl.attprojw.of(params@) == pl.attprojw.of(s2));
        assert(pl.w1.of(params@) == pl.w1.of(s3));
        assert(pl.w3.of(params@) == pl.w3.of(s4));
        assert(pl.w2.of(params@) == pl.w2.of(s5));
        assert(pl.lm_head.of(params@) == pl.lm_head.of(s6));
        assert(pl.ln1w.of(params@) == pl.ln1w.of(s7));
        assert(pl.ln2w.of(params@) == pl.ln2w.of(s8));
    }
    params
}

} // verus!
