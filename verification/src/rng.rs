//! Random draws.
//!
//! A draw is a step of the generator from one state to the next. A sequence of
//! draws is a path through such states: each draw is made in the state that the
//! one before it left behind.

use rand::rngs::StdRng;
use rand::Rng;
use vstd::prelude::*;

use crate::scalar::Single;

verus! {

/// The random number generator.
#[verifier::external_type_specification]
#[verifier::external_body]
pub struct ExStdRng(StdRng);

/// One index up to and including `max`.
///
/// The outside call is rand's `Rng::gen_range` on the range `0..=max`, which is
/// never empty. Claimed of it: the draw lies in the range.
#[verifier::external_body]
pub(crate) fn draw_index(rng: &mut StdRng, max: usize) -> (i: usize)
    ensures
        i <= max,
{
    rng.gen_range(0..=max)
}

/// One index, with the states of the generator before and after it.
fn index_step(rng: &mut StdRng, max: usize) -> (r: (usize, Ghost<StdRng>, Ghost<StdRng>))
    ensures
        r.0 <= max,
        r.1@ == *old(rng),
        r.2@ == *final(rng),
        exists|g: &mut StdRng|
            *g == *old(rng) && *final(g) == *final(rng) && #[trigger] call_ensures(
                draw_index,
                (g, max),
                r.0,
            ),
{
    let ghost before = *rng;
    let i = draw_index(rng, max);
    assert(exists|g: &mut StdRng|
        *g == before && *final(g) == *rng && #[trigger] call_ensures(draw_index, (g, max), i));
    (i, Ghost(before), Ghost(*rng))
}

/// One uniform draw, with the states of the generator before and after it.
pub fn uniform_step<F: Single>(rng: &mut StdRng) -> (r: (F, Ghost<StdRng>, Ghost<StdRng>))
    ensures
        r.1@ == *old(rng),
        r.2@ == *final(rng),
        exists|g: &mut StdRng|
            *g == *old(rng) && *final(g) == *final(rng) && #[trigger] call_ensures(
                F::uniform,
                (g,),
                r.0,
            ),
{
    let ghost before = *rng;
    let u = F::uniform(rng);
    let r = (u, Ghost(before), Ghost(*rng));
    assert(exists|g: &mut StdRng|
        *g == before && *final(g) == *rng && #[trigger] call_ensures(F::uniform, (g,), u));
    assert(r.0 == u);
    r
}

/// Drawing an index up to `max` may give `i` and take the generator from the
/// state `before` to the state `after`.
pub closed spec fn index_is(before: StdRng, max: usize, i: usize, after: StdRng) -> bool {
    exists|g: &mut StdRng| #[trigger]
        call_ensures(index_step, (g, max), (i, Ghost(before), Ghost(after)))
}

/// A uniform draw may give `u` and take the generator from the state `before` to
/// the state `after`.
pub open spec fn draw_is<F: Single>(before: StdRng, u: F, after: StdRng) -> bool {
    exists|g: &mut StdRng| #[trigger]
        call_ensures(uniform_step::<F>, (g,), (u, Ghost(before), Ghost(after)))
}

/// Drawing one index for each of `indices`, one after the other, takes the
/// generator from `before` to `after`.
pub open spec fn indices_are(
    before: StdRng,
    max: usize,
    indices: Seq<usize>,
    after: StdRng,
) -> bool
    decreases indices.len(),
{
    if indices.len() == 0 {
        after == before
    } else {
        exists|mid: StdRng|
            indices_are(before, max, indices.drop_last(), mid) && #[trigger] index_is(
                mid,
                max,
                indices.last(),
                after,
            )
    }
}

/// The draws, one after the other, take the generator from `before` to `after`.
pub open spec fn draws_are<F: Single>(before: StdRng, draws: Seq<F>, after: StdRng) -> bool
    decreases draws.len(),
{
    if draws.len() == 0 {
        after == before
    } else {
        exists|mid: StdRng|
            draws_are(before, draws.drop_last(), mid) && #[trigger] draw_is(
                mid,
                draws.last(),
                after,
            )
    }
}

/// The pairs of draws, one after the other, take the generator from `before` to
/// `after`.
pub open spec fn pairs_are<F: Single>(before: StdRng, pairs: Seq<(F, F)>, after: StdRng) -> bool
    decreases pairs.len(),
{
    if pairs.len() == 0 {
        after == before
    } else {
        exists|mid: StdRng, half: StdRng|
            pairs_are(before, pairs.drop_last(), mid) && #[trigger] draw_is(
                mid,
                pairs.last().0,
                half,
            ) && #[trigger] draw_is(half, pairs.last().1, after)
    }
}

/// One uniform draw.
pub fn draw<F: Single>(rng: &mut StdRng) -> (u: F)
    ensures
        draw_is(*old(rng), u, *final(rng)),
{
    let (u, before, after) = uniform_step(rng);
    u
}

/// `n` indices up to and including `max`, one after the other.
pub fn draw_indices(n: usize, max: usize, rng: &mut StdRng) -> (indices: Vec<usize>)
    ensures
        indices@.len() == n,
        forall|k: int| 0 <= k < n ==> #[trigger] indices@[k] <= max,
        indices_are(*old(rng), max, indices@, *final(rng)),
{
    let mut indices: Vec<usize> = Vec::new();
    for i in 0..n
        invariant
            indices@.len() == i,
            forall|k: int| 0 <= k < i ==> #[trigger] indices@[k] <= max,
            indices_are(*old(rng), max, indices@, *rng),
    {
        let ghost drawn = indices@;
        let ghost mid = *rng;
        let (x, before, after) = index_step(rng, max);
        indices.push(x);
        proof {
            assert(index_is(mid, max, x, *rng));
            assert(indices@.drop_last() =~= drawn);
            assert(indices@.last() == x);
        }
    }
    indices
}

/// `n` uniform draws, one after the other.
pub fn draw_uniform<F: Single>(n: usize, rng: &mut StdRng) -> (draws: Vec<F>)
    ensures
        draws@.len() == n,
        draws_are(*old(rng), draws@, *final(rng)),
{
    let mut draws: Vec<F> = Vec::with_capacity(n);
    for i in 0..n
        invariant
            draws@.len() == i,
            draws_are(*old(rng), draws@, *rng),
    {
        let ghost drawn = draws@;
        let ghost mid = *rng;
        let u = draw(rng);
        draws.push(u);
        proof {
            assert(draw_is(mid, u, *rng));
            assert(draws@.drop_last() =~= drawn);
            assert(draws@.last() == u);
        }
    }
    draws
}

/// `n` pairs of uniform draws, one after the other.
pub fn draw_pairs<F: Single>(n: usize, rng: &mut StdRng) -> (pairs: Vec<(F, F)>)
    ensures
        pairs@.len() == n,
        pairs_are(*old(rng), pairs@, *final(rng)),
{
    let mut pairs: Vec<(F, F)> = Vec::with_capacity(n);
    for i in 0..n
        invariant
            pairs@.len() == i,
            pairs_are(*old(rng), pairs@, *rng),
    {
        let ghost drawn = pairs@;
        let ghost mid = *rng;
        let u1 = draw(rng);
        let ghost half = *rng;
        let u2 = draw(rng);
        pairs.push((u1, u2));
        proof {
            assert(pairs@.drop_last() =~= drawn);
            assert(draw_is(mid, pairs@.last().0, half));
            assert(draw_is(half, pairs@.last().1, *rng));
        }
    }
    pairs
}

/// Draws carry on: the draws `d` from `before` to `mid` and the draws `e` from
/// there to `after` are the draws `d + e` from `before` to `after`.
pub proof fn lemma_draws_carry_on<F: Single>(
    before: StdRng,
    d: Seq<F>,
    mid: StdRng,
    e: Seq<F>,
    after: StdRng,
)
    requires
        draws_are(before, d, mid),
        draws_are(mid, e, after),
    ensures
        draws_are(before, d + e, after),
    decreases e.len(),
{
    if e.len() == 0 {
        assert(d + e =~= d);
    } else {
        let last = choose|last: StdRng|
            draws_are(mid, e.drop_last(), last) && #[trigger] draw_is(last, e.last(), after);
        lemma_draws_carry_on(before, d, mid, e.drop_last(), last);
        assert((d + e).drop_last() =~= d + e.drop_last());
        assert((d + e).last() == e.last());
    }
}

/// A generator in a given state has one draw to give, and one state to go to.
pub open spec fn draws_single_valued<F: Single>() -> bool {
    forall|before: StdRng, u: F, v: F, a: StdRng, b: StdRng| #[trigger]
        draw_is(before, u, a) && #[trigger] draw_is(before, v, b) ==> u == v && a == b
}

/// The state that a generator starts in decides its draws and where it ends.
pub proof fn lemma_draws_unique<F: Single>(
    before: StdRng,
    d: Seq<F>,
    a: StdRng,
    e: Seq<F>,
    b: StdRng,
)
    requires
        draws_single_valued::<F>(),
        d.len() == e.len(),
        draws_are(before, d, a),
        draws_are(before, e, b),
    ensures
        d == e,
        a == b,
    decreases d.len(),
{
    if d.len() > 0 {
        let m = choose|mid: StdRng|
            draws_are(before, d.drop_last(), mid) && #[trigger] draw_is(mid, d.last(), a);
        let n = choose|mid: StdRng|
            draws_are(before, e.drop_last(), mid) && #[trigger] draw_is(mid, e.last(), b);
        lemma_draws_unique(before, d.drop_last(), m, e.drop_last(), n);
        assert(d =~= d.drop_last().push(d.last()));
        assert(e =~= e.drop_last().push(e.last()));
    } else {
        assert(d =~= e);
    }
}

/// A generator in a given state has one index up to `max` to give, and one state
/// to go to.
pub open spec fn indices_single_valued() -> bool {
    forall|before: StdRng, max: usize, i: usize, j: usize, a: StdRng, b: StdRng| #[trigger]
        index_is(before, max, i, a) && #[trigger] index_is(before, max, j, b) ==> i == j && a == b
}

/// The state that a generator starts in decides its indices and where it ends.
pub proof fn lemma_indices_unique(
    before: StdRng,
    max: usize,
    d: Seq<usize>,
    a: StdRng,
    e: Seq<usize>,
    b: StdRng,
)
    requires
        indices_single_valued(),
        d.len() == e.len(),
        indices_are(before, max, d, a),
        indices_are(before, max, e, b),
    ensures
        d == e,
        a == b,
    decreases d.len(),
{
    if d.len() > 0 {
        let m = choose|mid: StdRng|
            indices_are(before, max, d.drop_last(), mid) && #[trigger] index_is(
                mid,
                max,
                d.last(),
                a,
            );
        let n = choose|mid: StdRng|
            indices_are(before, max, e.drop_last(), mid) && #[trigger] index_is(
                mid,
                max,
                e.last(),
                b,
            );
        lemma_indices_unique(before, max, d.drop_last(), m, e.drop_last(), n);
        assert(d =~= d.drop_last().push(d.last()));
        assert(e =~= e.drop_last().push(e.last()));
    } else {
        assert(d =~= e);
    }
}

/// The draws of the pairs, first and second of each in turn.
pub open spec fn in_turn<F>(pairs: Seq<(F, F)>) -> Seq<F> {
    Seq::new(
        2 * pairs.len(),
        |k: int|
            if k % 2 == 0 {
                pairs[k / 2].0
            } else {
                pairs[k / 2].1
            },
    )
}

/// Pairs are drawn one behind the other, and in each the first in front of the
/// second.
pub proof fn lemma_pairs_in_turn<F: Single>(before: StdRng, pairs: Seq<(F, F)>, after: StdRng)
    requires
        pairs_are(before, pairs, after),
    ensures
        draws_are(before, in_turn(pairs), after),
    decreases pairs.len(),
{
    let all = in_turn(pairs);
    if pairs.len() > 0 {
        let (mid, half) = choose|mid: StdRng, half: StdRng|
            pairs_are(before, pairs.drop_last(), mid) && #[trigger] draw_is(
                mid,
                pairs.last().0,
                half,
            ) && #[trigger] draw_is(half, pairs.last().1, after);
        lemma_pairs_in_turn(before, pairs.drop_last(), mid);
        let one = all.drop_last();
        assert(one.drop_last() =~= in_turn(pairs.drop_last()));
        assert(one.last() == pairs.last().0);
        assert(all.last() == pairs.last().1);
        assert(draws_are(before, one, half));
    } else {
        assert(all.len() == 0);
    }
}

} // verus!
