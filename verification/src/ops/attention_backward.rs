//! Backward pass of causal multi-head self-attention.

use vstd::prelude::*;

use crate::arena::{
    copied, flatten, four_disjoint_mut, lemma_four_parts, lemma_row_bounds, lemma_slot,
    lemma_three_changed, lemma_unslot, only_changed3, par_map, row, row_of, split3, store, tensor,
};
use crate::layout::lemma_nonneg;
use crate::ops::attention::{
    head, head_of, head_row, mask_batch, mask_of, mask_row, mask_values, out_head, packed, scale_is,
};
use crate::ops::loss::indicator_is;
use crate::ops::pointwise::{add_scaled, add_times, each_times, each_times_is, scaled_is};
use crate::scalar::{
    difference_is, dot_from, dot_from_is, dot_steps, fold_is, is_one, lemma_fold_push, mul_add_is,
    product_is, Scalar,
};

verus! {

/// `f` holds the keep factors up to position `ti`: those of the mask, or ones.
pub open spec fn keep_factors_are<F: Scalar>(mask: Option<Seq<F>>, ti: int, f: Seq<F>) -> bool {
    &&& f.len() == ti + 1
    &&& forall|t2: int|
        0 <= t2 <= ti ==> match mask {
            Some(m) => #[trigger] f[t2] == m[t2],
            None => is_one(f[t2]),
        }
}

/// `new_g` is the gradient of one weight: `old_g` plus the dot product of the
/// values `v` and the output gradient `d`, times the keep factor `f`.
pub open spec fn weight_gradient_at<F: Scalar>(
    v: Seq<F>,
    d: Seq<F>,
    f: F,
    old_g: F,
    new_g: F,
) -> bool {
    exists|g: F| #[trigger] dot_from_is(old_g, v, d, g) && product_is(g, f, new_g)
}

/// The steps of the gradient of score `t3`: weight `t2` adds
/// `att[t2] * (1{t2 = t3} - att[t3]) * datt[t2]`.
pub open spec fn score_steps<F: Scalar>(att: Seq<F>, datt: Seq<F>, t3: int) -> spec_fn(
    nat,
    F,
    F,
) -> bool {
    |t2: nat, acc: F, next: F|
        exists|local: F| #[trigger]
            softmax_slope_is(att, t2 as int, t3, local) && mul_add_is(
                acc,
                local,
                datt[t2 as int],
                next,
            )
}

/// `r` is `att[t2] * (1{t2 = t3} - att[t3])`.
pub open spec fn softmax_slope_is<F: Scalar>(att: Seq<F>, t2: int, t3: int, r: F) -> bool {
    exists|ind: F, d: F|
        indicator_is(t2 == t3, ind) && #[trigger] difference_is(ind, att[t3], d) && product_is(
            att[t2],
            d,
            r,
        )
}

/// The gradients of the weights and the scores of head `h` at position `ti`.
/// `ws` are the kept weights, and `dpre` the score gradients before the scale.
pub open spec fn attends_gradient_is<F: Scalar>(
    inp: Seq<F>,
    att: Seq<F>,
    mask: Option<Seq<F>>,
    dout: Seq<F>,
    scale: F,
    t: int,
    nh: int,
    hs: int,
    h: int,
    ti: int,
    old_datt: Seq<F>,
    new_datt: Seq<F>,
    old_dpreatt: Seq<F>,
    new_dpreatt: Seq<F>,
    ws: Seq<F>,
    dpre: Seq<F>,
) -> bool {
    exists|f: Seq<F>| #[trigger]
        keep_factors_are(mask, ti, f) && attends_gradient_with(
            inp,
            att,
            f,
            dout,
            scale,
            t,
            nh,
            hs,
            h,
            ti,
            old_datt,
            new_datt,
            old_dpreatt,
            new_dpreatt,
            ws,
            dpre,
        )
}

/// The same with the keep factors `f`.
pub open spec fn attends_gradient_with<F: Scalar>(
    inp: Seq<F>,
    att: Seq<F>,
    f: Seq<F>,
    dout: Seq<F>,
    scale: F,
    t: int,
    nh: int,
    hs: int,
    h: int,
    ti: int,
    old_datt: Seq<F>,
    new_datt: Seq<F>,
    old_dpreatt: Seq<F>,
    new_dpreatt: Seq<F>,
    ws: Seq<F>,
    dpre: Seq<F>,
) -> bool {
    &&& scaled_is(att.subrange(0, ti + 1), f, ws)
    &&& new_datt.len() == t
    &&& forall|t2: int|
        0 <= t2 < t ==> if t2 <= ti {
            weight_gradient_at(
                head(inp, t2, 2, h, nh, hs),
                out_head(dout, ti, h, nh, hs),
                f[t2],
                old_datt[t2],
                #[trigger] new_datt[t2],
            )
        } else {
            new_datt[t2] == old_datt[t2]
        }
    &&& new_dpreatt.len() == t
    &&& forall|t3: int|
        0 <= t3 < t ==> if t3 <= ti {
            fold_is(
                (ti + 1) as nat,
                old_dpreatt[t3],
                score_steps(att, new_datt, t3),
                #[trigger] new_dpreatt[t3],
            )
        } else {
            new_dpreatt[t3] == old_dpreatt[t3]
        }
    &&& each_times_is(new_dpreatt.subrange(0, ti + 1), scale, dpre)
}

/// Channel `i` of part `part` of head `h`, for `n` positions from `from` on.
pub open spec fn channel<F>(
    inp: Seq<F>,
    from: int,
    n: int,
    part: int,
    h: int,
    nh: int,
    hs: int,
    i: int,
) -> Seq<F> {
    Seq::new(n as nat, |u: int| head(inp, from + u, part, h, nh, hs)[i])
}

/// Channel `i` of head `h` of the output gradients, for `n` positions from
/// `from` on.
pub open spec fn out_channel<F>(
    dout: Seq<F>,
    from: int,
    n: int,
    h: int,
    nh: int,
    hs: int,
    i: int,
) -> Seq<F> {
    Seq::new(n as nat, |u: int| out_head(dout, from + u, h, nh, hs)[i])
}

/// What the positions from `t2` on hold for position `t2`, of head `h`.
pub open spec fn later<F>(rows: Seq<Seq<F>>, h: int, t2: int, t: int) -> Seq<F> {
    Seq::new((t - t2) as nat, |u: int| rows[h * t + (t2 + u)][t2])
}

/// `new_q` is `old_q` plus the query gradient of head `h` at position `ti`:
/// the keys up to `ti`, each times its score gradient.
pub open spec fn query_gradient_is<F: Scalar>(
    inp: Seq<F>,
    dpre: Seq<F>,
    nh: int,
    hs: int,
    h: int,
    ti: int,
    old_q: Seq<F>,
    new_q: Seq<F>,
) -> bool {
    &&& new_q.len() == hs
    &&& forall|i: int|
        0 <= i < hs ==> dot_from_is(
            old_q[i],
            channel(inp, 0, ti + 1, 1, h, nh, hs, i),
            dpre,
            #[trigger] new_q[i],
        )
}

/// `new_k` is `old_k` plus the key gradient of head `h` at position `t2`: the
/// queries from `t2` on, each times its score gradient.
pub open spec fn key_gradient_is<F: Scalar>(
    inp: Seq<F>,
    dpres: Seq<Seq<F>>,
    t: int,
    nh: int,
    hs: int,
    h: int,
    t2: int,
    old_k: Seq<F>,
    new_k: Seq<F>,
) -> bool {
    &&& new_k.len() == hs
    &&& forall|i: int|
        0 <= i < hs ==> dot_from_is(
            old_k[i],
            channel(inp, t2, t - t2, 0, h, nh, hs, i),
            later(dpres, h, t2, t),
            #[trigger] new_k[i],
        )
}

/// `new_v` is `old_v` plus the value gradient of head `h` at position `t2`: the
/// output gradients from `t2` on, each times its kept weight.
pub open spec fn value_gradient_is<F: Scalar>(
    dout: Seq<F>,
    kept: Seq<Seq<F>>,
    t: int,
    nh: int,
    hs: int,
    h: int,
    t2: int,
    old_v: Seq<F>,
    new_v: Seq<F>,
) -> bool {
    &&& new_v.len() == hs
    &&& forall|i: int|
        0 <= i < hs ==> dot_from_is(
            old_v[i],
            later(kept, h, t2, t),
            out_channel(dout, t2, t - t2, h, nh, hs, i),
            #[trigger] new_v[i],
        )
}

/// The gradients of one head of one part at position `u`.
pub open spec fn part_gradient_is<F: Scalar>(
    inp: Seq<F>,
    dout: Seq<F>,
    kept: Seq<Seq<F>>,
    dpres: Seq<Seq<F>>,
    t: int,
    nh: int,
    hs: int,
    part: int,
    h: int,
    u: int,
    old_x: Seq<F>,
    new_x: Seq<F>,
) -> bool {
    if part == 0 {
        query_gradient_is(inp, dpres[h * t + u], nh, hs, h, u, old_x, new_x)
    } else if part == 1 {
        key_gradient_is(inp, dpres, t, nh, hs, h, u, old_x, new_x)
    } else {
        value_gradient_is(dout, kept, t, nh, hs, h, u, old_x, new_x)
    }
}

/// The rows of all heads and positions, and the gradients of the packed tensor
/// that follow from them.
pub open spec fn attention_gradient_with<F: Scalar>(
    inp: Seq<F>,
    att: Seq<F>,
    mask: Option<Seq<F>>,
    dout: Seq<F>,
    scale: F,
    t: int,
    nh: int,
    hs: int,
    old_d: (Seq<F>, Seq<F>, Seq<F>),
    new_d: (Seq<F>, Seq<F>, Seq<F>),
    kept: Seq<Seq<F>>,
    dpres: Seq<Seq<F>>,
) -> bool {
    &&& new_d.0.len() == t * packed(nh, hs)
    &&& new_d.1.len() == (nh * t) * t
    &&& new_d.2.len() == (nh * t) * t
    &&& forall|h: int, ti: int|
        #![trigger head_row(new_d.1, h, ti, t)]
        #![trigger head_row(new_d.2, h, ti, t)]
        0 <= h < nh && 0 <= ti < t ==> attends_gradient_is(
            inp,
            head_row(att, h, ti, t),
            mask_row(mask, h, ti, t),
            dout,
            scale,
            t,
            nh,
            hs,
            h,
            ti,
            head_row(old_d.2, h, ti, t),
            head_row(new_d.2, h, ti, t),
            head_row(old_d.1, h, ti, t),
            head_row(new_d.1, h, ti, t),
            kept[h * t + ti],
            dpres[h * t + ti],
        )
    &&& forall|u: int, part: int, h: int|
        0 <= u < t && 0 <= part < 3 && 0 <= h < nh ==> part_gradient_is(
            inp,
            dout,
            kept,
            dpres,
            t,
            nh,
            hs,
            part,
            h,
            u,
            head(old_d.0, u, part, h, nh, hs),
            #[trigger] head(new_d.0, u, part, h, nh, hs),
        )
}

/// Backward over one batch row. The triples hold the gradients of the packed
/// tensor, of the scores and of the weights, before and after.
pub open spec fn attention_gradient_batch_is<F: Scalar>(
    inp: Seq<F>,
    att: Seq<F>,
    mask: Option<Seq<F>>,
    dout: Seq<F>,
    scale: F,
    t: int,
    nh: int,
    hs: int,
    old_d: (Seq<F>, Seq<F>, Seq<F>),
    new_d: (Seq<F>, Seq<F>, Seq<F>),
) -> bool {
    exists|kept: Seq<Seq<F>>, dpres: Seq<Seq<F>>| #[trigger]
        attention_gradient_with(
            inp,
            att,
            mask,
            dout,
            scale,
            t,
            nh,
            hs,
            old_d,
            new_d,
            kept,
            dpres,
        )
}

/// Backward over the `b` batch rows, with `scale` on the scores.
pub open spec fn attention_gradient_scaled_is<F: Scalar>(
    inp: Seq<F>,
    att: Seq<F>,
    mask: Option<Seq<F>>,
    dout: Seq<F>,
    scale: F,
    b: int,
    t: int,
    nh: int,
    hs: int,
    old_d: (Seq<F>, Seq<F>, Seq<F>),
    new_d: (Seq<F>, Seq<F>, Seq<F>),
) -> bool {
    let ci = t * packed(nh, hs);
    let ca = (nh * t) * t;
    &&& new_d.0.len() == b * ci
    &&& new_d.1.len() == b * ca
    &&& new_d.2.len() == b * ca
    &&& forall|bi: int|
        #![trigger row(new_d.0, bi, ci)]
        #![trigger row(new_d.1, bi, ca)]
        #![trigger row(new_d.2, bi, ca)]
        0 <= bi < b ==> attention_gradient_batch_is(
            row(inp, bi, ci),
            row(att, bi, ca),
            mask_batch(mask, bi, ca),
            row(dout, bi, t * (nh * hs)),
            scale,
            t,
            nh,
            hs,
            (row(old_d.0, bi, ci), row(old_d.1, bi, ca), row(old_d.2, bi, ca)),
            (row(new_d.0, bi, ci), row(new_d.1, bi, ca), row(new_d.2, bi, ca)),
        )
}

/// Backward over the `b` batch rows.
#[verifier::opaque]
pub open spec fn attention_gradient_is<F: Scalar>(
    inp: Seq<F>,
    att: Seq<F>,
    mask: Option<Seq<F>>,
    dout: Seq<F>,
    b: int,
    t: int,
    nh: int,
    hs: int,
    old_d: (Seq<F>, Seq<F>, Seq<F>),
    new_d: (Seq<F>, Seq<F>, Seq<F>),
) -> bool {
    exists|scale: F| #[trigger]
        scale_is(hs, scale) && attention_gradient_scaled_is(
            inp,
            att,
            mask,
            dout,
            scale,
            b,
            t,
            nh,
            hs,
            old_d,
            new_d,
        )
}

/// The keep factors up to position `ti`.
fn keep_factors<F: Scalar>(mask: Option<&[F]>, t: usize, ti: usize) -> (f: Vec<F>)
    requires
        ti < t,
        mask matches Some(m) ==> m@.len() == t,
    ensures
        keep_factors_are(mask_values(mask), ti as int, f@),
{
    let mut f: Vec<F> = Vec::with_capacity(ti + 1);
    for t2 in 0..ti + 1
        invariant
            ti < t,
            mask matches Some(m) ==> m@.len() == t,
            f@.len() == t2,
            forall|u: int|
                0 <= u < t2 ==> match mask_values(mask) {
                    Some(m) => #[trigger] f@[u] == m[u],
                    None => is_one(f@[u]),
                },
    {
        let k = match mask {
            Some(m) => m[t2],
            None => F::one(),
        };
        f.push(k);
    }
    f
}

/// `att[t2] * (1{t2 = t3} - att[t3])`.
fn softmax_slope<F: Scalar>(att: &[F], t2: usize, t3: usize) -> (r: F)
    requires
        t2 < att@.len(),
        t3 < att@.len(),
    ensures
        softmax_slope_is(att@, t2 as int, t3 as int, r),
{
    let ind = if t2 == t3 { F::one() } else { F::zero() };
    assert(indicator_is(t2 == t3, ind));
    att[t2].times(ind.minus(att[t3]))
}

/// Gradients of weights and scores, kept weights and scaled score gradients of
/// head `h` at position `ti`.
fn attends_gradient<F: Scalar>(
    inp: &[F],
    att: &[F],
    mask: Option<&[F]>,
    dout: &[F],
    scale: F,
    t: usize,
    nh: usize,
    hs: usize,
    h: usize,
    ti: usize,
    old_datt: &[F],
    old_dpreatt: &[F],
) -> (res: (Vec<F>, Vec<F>, Vec<F>, Vec<F>))
    requires
        ti < t,
        h < nh,
        3 * nh <= usize::MAX,
        packed(nh as int, hs as int) <= usize::MAX,
        nh * hs <= usize::MAX,
        inp@.len() == t * packed(nh as int, hs as int),
        dout@.len() == t * (nh * hs),
        att@.len() == t,
        mask matches Some(m) ==> m@.len() == t,
        old_datt@.len() == t,
        old_dpreatt@.len() == t,
    ensures
        attends_gradient_is(
            inp@,
            att@,
            mask_values(mask),
            dout@,
            scale,
            t as int,
            nh as int,
            hs as int,
            h as int,
            ti as int,
            old_datt@,
            res.0@,
            old_dpreatt@,
            res.1@,
            res.2@,
            res.3@,
        ),
        res.2@.len() == ti + 1,
        res.3@.len() == ti + 1,
{
    let f = keep_factors(mask, t, ti);
    let d = out_head_of(dout, ti, h, t, nh, hs);
    let mut ws: Vec<F> = Vec::with_capacity(ti + 1);
    let mut datt = copied(old_datt);
    for t2 in 0..ti + 1
        invariant
            ti < t,
            h < nh,
            3 * nh <= usize::MAX,
            packed(nh as int, hs as int) <= usize::MAX,
            inp@.len() == t * packed(nh as int, hs as int),
            att@.len() == t,
            f@.len() == ti + 1,
            d@.len() == hs,
            old_datt@.len() == t,
            ws@.len() == t2,
            datt@.len() == t,
            forall|u: int| 0 <= u < t2 ==> product_is(att@[u], f@[u], #[trigger] ws@[u]),
            forall|u: int|
                0 <= u < t ==> if u < t2 {
                    weight_gradient_at(
                        head(inp@, u, 2, h as int, nh as int, hs as int),
                        d@,
                        f@[u],
                        old_datt@[u],
                        #[trigger] datt@[u],
                    )
                } else {
                    datt@[u] == old_datt@[u]
                },
    {
        let v = head_of(inp, t2, 2, h, t, nh, hs);
        ws.push(att[t2].times(f[t2]));
        let g = dot_from(old_datt[t2], v, d);
        let next = g.times(f[t2]);
        assert(weight_gradient_at(v@, d@, f@[t2 as int], old_datt@[t2 as int], next));
        datt[t2] = next;
    }
    let mut dpreatt = copied(old_dpreatt);
    for t2 in 0..ti + 1
        invariant
            ti < t,
            att@.len() == t,
            datt@.len() == t,
            old_dpreatt@.len() == t,
            dpreatt@.len() == t,
            forall|t3: int|
                0 <= t3 < t ==> if t3 <= ti {
                    fold_is(
                        t2 as nat,
                        old_dpreatt@[t3],
                        score_steps(att@, datt@, t3),
                        #[trigger] dpreatt@[t3],
                    )
                } else {
                    dpreatt@[t3] == old_dpreatt@[t3]
                },
    {
        for t3 in 0..ti + 1
            invariant
                ti < t,
                t2 <= ti,
                att@.len() == t,
                datt@.len() == t,
                old_dpreatt@.len() == t,
                dpreatt@.len() == t,
                forall|u: int|
                    0 <= u < t ==> if u <= ti {
                        fold_is(
                            if u < t3 { t2 as nat + 1 } else { t2 as nat },
                            old_dpreatt@[u],
                            score_steps(att@, datt@, u),
                            #[trigger] dpreatt@[u],
                        )
                    } else {
                        dpreatt@[u] == old_dpreatt@[u]
                    },
        {
            let local = softmax_slope(att, t2, t3);
            let next = dpreatt[t3].plus(local.times(datt[t2]));
            proof {
                let steps = score_steps(att@, datt@, t3 as int);
                assert(softmax_slope_is(att@, (t2 as nat) as int, t3 as int, local));
                assert(mul_add_is(dpreatt@[t3 as int], local, datt@[t2 as int], next));
                assert(steps(t2 as nat, dpreatt@[t3 as int], next));
                lemma_fold_push(
                    t2 as nat,
                    old_dpreatt@[t3 as int],
                    steps,
                    dpreatt@[t3 as int],
                    next,
                );
            }
            dpreatt[t3] = next;
        }
    }
    let dpre = each_times(&dpreatt.as_slice()[0..ti + 1], scale);
    proof {
        assert(scaled_is(att@.subrange(0, ti + 1), f@, ws@));
        assert(attends_gradient_with(
            inp@,
            att@,
            f@,
            dout@,
            scale,
            t as int,
            nh as int,
            hs as int,
            h as int,
            ti as int,
            old_datt@,
            datt@,
            old_dpreatt@,
            dpreatt@,
            ws@,
            dpre@,
        ));
    }
    (datt, dpreatt, ws, dpre)
}

/// Head `h` of token `ti` in a tensor with rows of `nh * hs`.
fn out_head_of<F>(s: &[F], ti: usize, h: usize, t: usize, nh: usize, hs: usize) -> (x: &[F])
    requires
        ti < t,
        h < nh,
        nh * hs <= usize::MAX,
        s@.len() == t * (nh * hs),
    ensures
        x@ == out_head(s@, ti as int, h as int, nh as int, hs as int),
        x@.len() == hs,
{
    proof {
        lemma_nonneg(nh as int, hs as int);
    }
    row_of(row_of(s, ti, t, nh * hs), h, nh, hs)
}

/// `old_q` plus the query gradient of head `h` at position `ti`.
fn query_gradient<F: Scalar>(
    inp: &[F],
    dpre: &[F],
    t: usize,
    nh: usize,
    hs: usize,
    h: usize,
    ti: usize,
    old_q: &[F],
) -> (new_q: Vec<F>)
    requires
        ti < t,
        h < nh,
        3 * nh <= usize::MAX,
        packed(nh as int, hs as int) <= usize::MAX,
        inp@.len() == t * packed(nh as int, hs as int),
        dpre@.len() == ti + 1,
        old_q@.len() == hs,
    ensures
        query_gradient_is(
            inp@,
            dpre@,
            nh as int,
            hs as int,
            h as int,
            ti as int,
            old_q@,
            new_q@,
        ),
{
    let mut new_q = copied(old_q);
    for t2 in 0..ti + 1
        invariant
            ti < t,
            h < nh,
            3 * nh <= usize::MAX,
            packed(nh as int, hs as int) <= usize::MAX,
            inp@.len() == t * packed(nh as int, hs as int),
            dpre@.len() == ti + 1,
            old_q@.len() == hs,
            new_q@.len() == hs,
            forall|i: int|
                0 <= i < hs ==> fold_is(
                    t2 as nat,
                    old_q@[i],
                    dot_steps(
                        channel(inp@, 0, ti + 1, 1, h as int, nh as int, hs as int, i),
                        dpre@,
                    ),
                    #[trigger] new_q@[i],
                ),
    {
        let k = head_of(inp, t2, 1, h, t, nh, hs);
        let ghost before = new_q@;
        add_times(&mut new_q, k, dpre[t2]);
        proof {
            assert forall|i: int| 0 <= i < hs implies fold_is(
                t2 as nat + 1,
                old_q@[i],
                dot_steps(
                    channel(inp@, 0, ti + 1, 1, h as int, nh as int, hs as int, i),
                    dpre@,
                ),
                #[trigger] new_q@[i],
            ) by {
                let x = channel(inp@, 0, ti + 1, 1, h as int, nh as int, hs as int, i);
                assert(mul_add_is(before[i], x[t2 as int], dpre@[t2 as int], new_q@[i]));
                assert(fold_is(t2 as nat, old_q@[i], dot_steps(x, dpre@), before[i]));
                lemma_fold_push(t2 as nat, old_q@[i], dot_steps(x, dpre@), before[i], new_q@[i]);
            }
        }
    }
    new_q
}

/// There is a row for each head and position, and it reaches up to the position.
pub open spec fn rows_reach<F>(rows: Seq<Vec<F>>, t: int, nh: int) -> bool {
    &&& rows.len() == nh * t
    &&& forall|p: int| 0 <= p < nh * t ==> (#[trigger] rows[p])@.len() == p % t + 1
}

/// The views of the rows.
pub open spec fn row_values<F>(rows: Seq<Vec<F>>) -> Seq<Seq<F>> {
    Seq::new(rows.len(), |p: int| rows[p]@)
}

/// `old_k` plus the key gradient of head `h` at position `t2`.
fn key_gradient<F: Scalar>(
    inp: &[F],
    dpres: &Vec<Vec<F>>,
    t: usize,
    nh: usize,
    hs: usize,
    h: usize,
    t2: usize,
    old_k: &[F],
) -> (new_k: Vec<F>)
    requires
        t2 < t,
        h < nh,
        3 * nh <= usize::MAX,
        nh * t <= usize::MAX,
        packed(nh as int, hs as int) <= usize::MAX,
        inp@.len() == t * packed(nh as int, hs as int),
        rows_reach(dpres@, t as int, nh as int),
        old_k@.len() == hs,
    ensures
        key_gradient_is(
            inp@,
            row_values(dpres@),
            t as int,
            nh as int,
            hs as int,
            h as int,
            t2 as int,
            old_k@,
            new_k@,
        ),
{
    let mut new_k = copied(old_k);
    let ghost y = later(row_values(dpres@), h as int, t2 as int, t as int);
    for u in 0..t - t2
        invariant
            t2 < t,
            h < nh,
            3 * nh <= usize::MAX,
            nh * t <= usize::MAX,
            packed(nh as int, hs as int) <= usize::MAX,
            inp@.len() == t * packed(nh as int, hs as int),
            rows_reach(dpres@, t as int, nh as int),
            old_k@.len() == hs,
            new_k@.len() == hs,
            y == later(row_values(dpres@), h as int, t2 as int, t as int),
            forall|i: int|
                0 <= i < hs ==> fold_is(
                    u as nat,
                    old_k@[i],
                    dot_steps(
                        channel(inp@, t2 as int, t - t2, 0, h as int, nh as int, hs as int, i),
                        y,
                    ),
                    #[trigger] new_k@[i],
                ),
    {
        let ti = t2 + u;
        proof {
            lemma_slot(h as int, ti as int, nh as int, t as int);
            lemma_row_bounds(h as int, nh as int, t as int);
        }
        let q = head_of(inp, ti, 0, h, t, nh, hs);
        let dpre = dpres[h * t + ti][t2];
        let ghost before = new_k@;
        add_times(&mut new_k, q, dpre);
        proof {
            assert forall|i: int| 0 <= i < hs implies fold_is(
                u as nat + 1,
                old_k@[i],
                dot_steps(
                    channel(inp@, t2 as int, t - t2, 0, h as int, nh as int, hs as int, i),
                    y,
                ),
                #[trigger] new_k@[i],
            ) by {
                let x = channel(inp@, t2 as int, t - t2, 0, h as int, nh as int, hs as int, i);
                assert(y[u as int] == dpre);
                assert(mul_add_is(before[i], x[u as int], y[u as int], new_k@[i]));
                assert(fold_is(u as nat, old_k@[i], dot_steps(x, y), before[i]));
                lemma_fold_push(u as nat, old_k@[i], dot_steps(x, y), before[i], new_k@[i]);
            }
        }
    }
    new_k
}

/// `old_v` plus the value gradient of head `h` at position `t2`.
fn value_gradient<F: Scalar>(
    dout: &[F],
    kept: &Vec<Vec<F>>,
    t: usize,
    nh: usize,
    hs: usize,
    h: usize,
    t2: usize,
    old_v: &[F],
) -> (new_v: Vec<F>)
    requires
        t2 < t,
        h < nh,
        nh * hs <= usize::MAX,
        nh * t <= usize::MAX,
        dout@.len() == t * (nh * hs),
        rows_reach(kept@, t as int, nh as int),
        old_v@.len() == hs,
    ensures
        value_gradient_is(
            dout@,
            row_values(kept@),
            t as int,
            nh as int,
            hs as int,
            h as int,
            t2 as int,
            old_v@,
            new_v@,
        ),
{
    let mut new_v = copied(old_v);
    let ghost x = later(row_values(kept@), h as int, t2 as int, t as int);
    for u in 0..t - t2
        invariant
            t2 < t,
            h < nh,
            nh * hs <= usize::MAX,
            nh * t <= usize::MAX,
            dout@.len() == t * (nh * hs),
            rows_reach(kept@, t as int, nh as int),
            old_v@.len() == hs,
            new_v@.len() == hs,
            x == later(row_values(kept@), h as int, t2 as int, t as int),
            forall|i: int|
                0 <= i < hs ==> fold_is(
                    u as nat,
                    old_v@[i],
                    dot_steps(
                        x,
                        out_channel(dout@, t2 as int, t - t2, h as int, nh as int, hs as int, i),
                    ),
                    #[trigger] new_v@[i],
                ),
    {
        let ti = t2 + u;
        proof {
            lemma_slot(h as int, ti as int, nh as int, t as int);
            lemma_row_bounds(h as int, nh as int, t as int);
        }
        let d = out_head_of(dout, ti, h, t, nh, hs);
        let a = kept[h * t + ti][t2];
        let ghost before = new_v@;
        add_scaled(&mut new_v, a, d);
        proof {
            assert forall|i: int| 0 <= i < hs implies fold_is(
                u as nat + 1,
                old_v@[i],
                dot_steps(
                    x,
                    out_channel(dout@, t2 as int, t - t2, h as int, nh as int, hs as int, i),
                ),
                #[trigger] new_v@[i],
            ) by {
                let y = out_channel(dout@, t2 as int, t - t2, h as int, nh as int, hs as int, i);
                assert(x[u as int] == a);
                assert(mul_add_is(before[i], x[u as int], y[u as int], new_v@[i]));
                assert(fold_is(u as nat, old_v@[i], dot_steps(x, y), before[i]));
                lemma_fold_push(u as nat, old_v@[i], dot_steps(x, y), before[i], new_v@[i]);
            }
        }
    }
    new_v
}

/// The packed gradients of position `u`.
fn packed_gradient<F: Scalar>(
    inp: &[F],
    dout: &[F],
    kept: &Vec<Vec<F>>,
    dpres: &Vec<Vec<F>>,
    t: usize,
    nh: usize,
    hs: usize,
    u: usize,
    old_d: &[F],
) -> (new_d: Vec<F>)
    requires
        u < t,
        3 * nh <= usize::MAX,
        nh * t <= usize::MAX,
        nh * hs <= usize::MAX,
        packed(nh as int, hs as int) <= usize::MAX,
        inp@.len() == t * packed(nh as int, hs as int),
        dout@.len() == t * (nh * hs),
        rows_reach(kept@, t as int, nh as int),
        rows_reach(dpres@, t as int, nh as int),
        old_d@.len() == packed(nh as int, hs as int),
    ensures
        new_d@.len() == packed(nh as int, hs as int),
        forall|part: int, h: int|
            0 <= part < 3 && 0 <= h < nh ==> part_gradient_is(
                inp@,
                dout@,
                row_values(kept@),
                row_values(dpres@),
                t as int,
                nh as int,
                hs as int,
                part,
                h,
                u as int,
                row(old_d@, part * nh + h, hs as int),
                #[trigger] row(new_d@, part * nh + h, hs as int),
            ),
{
    let mut heads: Vec<Vec<F>> = Vec::with_capacity(3 * nh);
    for m in 0..3 * nh
        invariant
            u < t,
            3 * nh <= usize::MAX,
            nh * t <= usize::MAX,
            nh * hs <= usize::MAX,
            packed(nh as int, hs as int) <= usize::MAX,
            inp@.len() == t * packed(nh as int, hs as int),
            dout@.len() == t * (nh * hs),
            rows_reach(kept@, t as int, nh as int),
            rows_reach(dpres@, t as int, nh as int),
            old_d@.len() == packed(nh as int, hs as int),
            heads@.len() == m,
            forall|q: int|
                0 <= q < m ==> (#[trigger] heads@[q])@.len() == hs && part_gradient_is(
                    inp@,
                    dout@,
                    row_values(kept@),
                    row_values(dpres@),
                    t as int,
                    nh as int,
                    hs as int,
                    q / (nh as int),
                    q % (nh as int),
                    u as int,
                    row(old_d@, q, hs as int),
                    heads@[q]@,
                ),
    {
        proof {
            lemma_unslot(m as int, 3, nh as int);
        }
        let part = m / nh;
        let h = m % nh;
        proof {
            lemma_slot(h as int, u as int, nh as int, t as int);
            lemma_row_bounds(h as int, nh as int, t as int);
        }
        let x = row_of(old_d, m, 3 * nh, hs);
        let y = if part == 0 {
            query_gradient(inp, dpres[h * t + u].as_slice(), t, nh, hs, h, u, x)
        } else if part == 1 {
            key_gradient(inp, dpres, t, nh, hs, h, u, x)
        } else {
            value_gradient(dout, kept, t, nh, hs, h, u, x)
        };
        heads.push(y);
    }
    let new_d = flatten(&heads, hs);
    proof {
        assert forall|part: int, h: int| 0 <= part < 3 && 0 <= h < nh implies part_gradient_is(
            inp@,
            dout@,
            row_values(kept@),
            row_values(dpres@),
            t as int,
            nh as int,
            hs as int,
            part,
            h,
            u as int,
            row(old_d@, part * nh + h, hs as int),
            #[trigger] row(new_d@, part * nh + h, hs as int),
        ) by {
            lemma_slot(part, h, 3, nh as int);
            assert(row(new_d@, part * nh + h, hs as int) == heads@[part * nh + h]@);
        }
    }
    new_d
}

/// Backward over one batch row: the gradients of the packed tensor, of the
/// scores and of the weights.
fn attention_backward_batch<F: Scalar>(
    inp: &[F],
    att: &[F],
    mask: Option<&[F]>,
    dout: &[F],
    scale: F,
    t: usize,
    nh: usize,
    hs: usize,
    dinp: &[F],
    dpreatt: &[F],
    datt: &[F],
) -> (res: (Vec<F>, Vec<F>, Vec<F>))
    requires
        0 < t,
        3 * nh <= usize::MAX,
        nh * t <= usize::MAX,
        nh * hs <= usize::MAX,
        packed(nh as int, hs as int) <= usize::MAX,
        inp@.len() == t * packed(nh as int, hs as int),
        att@.len() == (nh * t) * t,
        mask matches Some(m) ==> m@.len() == (nh * t) * t,
        dout@.len() == t * (nh * hs),
        dinp@.len() == t * packed(nh as int, hs as int),
        dpreatt@.len() == (nh * t) * t,
        datt@.len() == (nh * t) * t,
    ensures
        attention_gradient_batch_is(
            inp@,
            att@,
            mask_values(mask),
            dout@,
            scale,
            t as int,
            nh as int,
            hs as int,
            (dinp@, dpreatt@, datt@),
            (res.0@, res.1@, res.2@),
        ),
{
    let mut datts: Vec<Vec<F>> = Vec::with_capacity(nh * t);
    let mut dpreatts: Vec<Vec<F>> = Vec::with_capacity(nh * t);
    let mut kept: Vec<Vec<F>> = Vec::with_capacity(nh * t);
    let mut dpres: Vec<Vec<F>> = Vec::with_capacity(nh * t);
    for p in 0..nh * t
        invariant
            0 < t,
            3 * nh <= usize::MAX,
            nh * t <= usize::MAX,
            nh * hs <= usize::MAX,
            packed(nh as int, hs as int) <= usize::MAX,
            inp@.len() == t * packed(nh as int, hs as int),
            att@.len() == (nh * t) * t,
            mask matches Some(m) ==> m@.len() == (nh * t) * t,
            dout@.len() == t * (nh * hs),
            dpreatt@.len() == (nh * t) * t,
            datt@.len() == (nh * t) * t,
            datts@.len() == p,
            dpreatts@.len() == p,
            kept@.len() == p,
            dpres@.len() == p,
            forall|q: int| 0 <= q < p ==> (#[trigger] kept@[q])@.len() == q % (t as int) + 1,
            forall|q: int| 0 <= q < p ==> (#[trigger] dpres@[q])@.len() == q % (t as int) + 1,
            forall|q: int|
                #![trigger datts@[q]]
                #![trigger dpreatts@[q]]
                0 <= q < p ==> attends_gradient_is(
                    inp@,
                    row(att@, q, t as int),
                    mask_row(mask_values(mask), q / (t as int), q % (t as int), t as int),
                    dout@,
                    scale,
                    t as int,
                    nh as int,
                    hs as int,
                    q / (t as int),
                    q % (t as int),
                    row(datt@, q, t as int),
                    datts@[q]@,
                    row(dpreatt@, q, t as int),
                    dpreatts@[q]@,
                    kept@[q]@,
                    dpres@[q]@,
                ),
    {
        proof {
            lemma_unslot(p as int, nh as int, t as int);
        }
        let h = p / t;
        let ti = p % t;
        let m = match mask {
            Some(m) => Some(row_of(m, p, nh * t, t)),
            None => None,
        };
        let (a, b, c, d) = attends_gradient(
            inp,
            row_of(att, p, nh * t, t),
            m,
            dout,
            scale,
            t,
            nh,
            hs,
            h,
            ti,
            row_of(datt, p, nh * t, t),
            row_of(dpreatt, p, nh * t, t),
        );
        datts.push(a);
        dpreatts.push(b);
        kept.push(c);
        dpres.push(d);
    }
    let new_datt = flatten(&datts, t);
    let new_dpreatt = flatten(&dpreatts, t);
    let mut tokens: Vec<Vec<F>> = Vec::with_capacity(t);
    let ghost ks = row_values(kept@);
    let ghost ds = row_values(dpres@);
    for u in 0..t
        invariant
            3 * nh <= usize::MAX,
            nh * t <= usize::MAX,
            nh * hs <= usize::MAX,
            packed(nh as int, hs as int) <= usize::MAX,
            inp@.len() == t * packed(nh as int, hs as int),
            dout@.len() == t * (nh * hs),
            dinp@.len() == t * packed(nh as int, hs as int),
            rows_reach(kept@, t as int, nh as int),
            rows_reach(dpres@, t as int, nh as int),
            ks == row_values(kept@),
            ds == row_values(dpres@),
            tokens@.len() == u,
            forall|v: int|
                0 <= v < u ==> (#[trigger] tokens@[v])@.len() == packed(nh as int, hs as int),
            forall|v: int, part: int, h: int|
                0 <= v < u && 0 <= part < 3 && 0 <= h < nh ==> part_gradient_is(
                    inp@,
                    dout@,
                    ks,
                    ds,
                    t as int,
                    nh as int,
                    hs as int,
                    part,
                    h,
                    v,
                    head(dinp@, v, part, h, nh as int, hs as int),
                    #[trigger] row(tokens@[v]@, part * nh + h, hs as int),
                ),
    {
        proof {
            lemma_nonneg(3 * nh, hs as int);
        }
        let token = packed_gradient(
            inp,
            dout,
            &kept,
            &dpres,
            t,
            nh,
            hs,
            u,
            row_of(dinp, u, t, (3 * nh) * hs),
        );
        tokens.push(token);
    }
    proof {
        lemma_nonneg(3 * nh, hs as int);
    }
    let new_dinp = flatten(&tokens, (3 * nh) * hs);
    proof {
        let new_d = (new_dinp@, new_dpreatt@, new_datt@);
        assert forall|h: int, ti: int| 0 <= h < nh && 0 <= ti < t implies attends_gradient_is(
            inp@,
            head_row(att@, h, ti, t as int),
            mask_row(mask_values(mask), h, ti, t as int),
            dout@,
            scale,
            t as int,
            nh as int,
            hs as int,
            h,
            ti,
            head_row(datt@, h, ti, t as int),
            head_row(new_d.2, h, ti, t as int),
            head_row(dpreatt@, h, ti, t as int),
            #[trigger] head_row(new_d.1, h, ti, t as int),
            ks[h * t + ti],
            ds[h * t + ti],
        ) by {
            lemma_slot(h, ti, nh as int, t as int);
            let q = h * t + ti;
            assert(row(new_datt@, q, t as int) == datts@[q]@);
            assert(row(new_dpreatt@, q, t as int) == dpreatts@[q]@);
        }
        assert forall|u: int, part: int, h: int|
            0 <= u < t && 0 <= part < 3 && 0 <= h < nh implies part_gradient_is(
            inp@,
            dout@,
            ks,
            ds,
            t as int,
            nh as int,
            hs as int,
            part,
            h,
            u,
            head(dinp@, u, part, h, nh as int, hs as int),
            #[trigger] head(new_d.0, u, part, h, nh as int, hs as int),
        ) by {
            assert(row(new_dinp@, u, (3 * nh) * hs) == tokens@[u]@);
            assert(row(tokens@[u]@, part * nh + h, hs as int) == head(
                new_d.0,
                u,
                part,
                h,
                nh as int,
                hs as int,
            ));
        }
        assert forall|h: int, ti: int| 0 <= h < nh && 0 <= ti < t implies attends_gradient_is(
            inp@,
            head_row(att@, h, ti, t as int),
            mask_row(mask_values(mask), h, ti, t as int),
            dout@,
            scale,
            t as int,
            nh as int,
            hs as int,
            h,
            ti,
            head_row(datt@, h, ti, t as int),
            #[trigger] head_row(new_d.2, h, ti, t as int),
            head_row(dpreatt@, h, ti, t as int),
            head_row(new_d.1, h, ti, t as int),
            ks[h * t + ti],
            ds[h * t + ti],
        ) by {
            assert(head_row(new_d.1, h, ti, t as int) == head_row(new_d.1, h, ti, t as int));
        }
        assert(attention_gradient_with(
            inp@,
            att@,
            mask_values(mask),
            dout@,
            scale,
            t as int,
            nh as int,
            hs as int,
            (dinp@, dpreatt@, datt@),
            new_d,
            ks,
            ds,
        ));
    }
    (new_dinp, new_dpreatt, new_datt)
}

/// Backward of causal multi-head self-attention between tensors of one arena of
/// gradients, the batch rows in parallel. Adds to the gradients of the packed
/// tensor at `dinp_off`, of the scores at `dpreatt_off` and of the weights at
/// `datt_off` what follows from the output gradients at `dout_off`, where the
/// packed tensor and the weights lie at `inp_off` and `att_off` of `acts`.
pub fn attention_backward<F: Scalar>(
    gacts: &mut [F],
    dinp_off: usize,
    dpreatt_off: usize,
    datt_off: usize,
    dout_off: usize,
    acts: &[F],
    inp_off: usize,
    att_off: usize,
    b: usize,
    t: usize,
    nh: usize,
    hs: usize,
    att_mask: Option<&[F]>,
)
    requires
        0 < t,
        3 * nh <= usize::MAX,
        nh * t <= usize::MAX,
        packed(nh as int, hs as int) <= usize::MAX,
        t * packed(nh as int, hs as int) <= usize::MAX,
        (nh * t) * t <= usize::MAX,
        dinp_off + b * (t * packed(nh as int, hs as int)) <= dout_off,
        dout_off + b * (t * (nh * hs)) <= dpreatt_off,
        dpreatt_off + b * ((nh * t) * t) <= datt_off,
        datt_off + b * ((nh * t) * t) <= old(gacts).len(),
        inp_off + b * (t * packed(nh as int, hs as int)) <= acts.len(),
        att_off + b * ((nh * t) * t) <= acts.len(),
        att_mask matches Some(m) ==> m@.len() == b * ((nh * t) * t),
    ensures
        only_changed3(
            old(gacts)@,
            final(gacts)@,
            dinp_off as int,
            b * (t * packed(nh as int, hs as int)),
            dpreatt_off as int,
            b * ((nh * t) * t),
            datt_off as int,
            b * ((nh * t) * t),
        ),
        attention_gradient_is(
            tensor(acts@, inp_off as int, b * (t * packed(nh as int, hs as int))),
            tensor(acts@, att_off as int, b * ((nh * t) * t)),
            mask_values(att_mask),
            tensor(old(gacts)@, dout_off as int, b * (t * (nh * hs))),
            b as int,
            t as int,
            nh as int,
            hs as int,
            (
                tensor(
                    old(gacts)@,
                    dinp_off as int,
                    b * (t * packed(nh as int, hs as int)),
                ),
                tensor(old(gacts)@, dpreatt_off as int, b * ((nh * t) * t)),
                tensor(old(gacts)@, datt_off as int, b * ((nh * t) * t)),
            ),
            (
                tensor(
                    final(gacts)@,
                    dinp_off as int,
                    b * (t * packed(nh as int, hs as int)),
                ),
                tensor(final(gacts)@, dpreatt_off as int, b * ((nh * t) * t)),
                tensor(final(gacts)@, datt_off as int, b * ((nh * t) * t)),
            ),
        ),
{
    let scale = F::one().divide(F::from_ratio(hs, 1).sqrt());
    proof {
        lemma_nonneg(3 * nh, hs as int);
        lemma_nonneg(nh as int, hs as int);
        lemma_nonneg(nh as int, t as int);
        lemma_nonneg(nh * t, t as int);
        lemma_nonneg(t as int, (3 * nh) * hs);
        lemma_nonneg(t as int, nh * hs);
        lemma_nonneg(b as int, t * ((3 * nh) * hs));
        lemma_nonneg(b as int, t * (nh * hs));
        lemma_nonneg(b as int, (nh * t) * t);
        assert(nh * hs <= (3 * nh) * hs) by (nonlinear_arith);
        assert(t * (nh * hs) <= t * ((3 * nh) * hs)) by (nonlinear_arith)
            requires
                nh * hs <= (3 * nh) * hs,
        ;
        assert(scale_is(hs as int, scale));
    }
    let ghost before = gacts@;
    let ci = t * ((3 * nh) * hs);
    let co = t * (nh * hs);
    let ca = (nh * t) * t;
    let inp = &acts[inp_off..inp_off + b * ci];
    let att = &acts[att_off..att_off + b * ca];
    let (dinp, dout, dpreatt, datt) = four_disjoint_mut(
        gacts,
        dinp_off,
        b * ci,
        dout_off,
        b * co,
        dpreatt_off,
        b * ca,
        datt_off,
        b * ca,
    );
    let dout: &[F] = dout;
    let old_dinp = copied(dinp);
    let old_dpreatt = copied(dpreatt);
    let old_datt = copied(datt);
    let parts = par_map(b, |bi: usize| -> (res: (Vec<F>, Vec<F>, Vec<F>))
        requires bi < b, 0 < t, 3 * nh <= usize::MAX, nh * t <= usize::MAX, nh * hs <= usize::MAX, packed(nh as int, hs as int) <= usize::MAX, ci == t * packed(nh as int, hs as int), co == t * (nh * hs), ca == (nh * t) * t, inp@.len() == b * ci, att@.len() == b * ca, att_mask matches Some(m) ==> m@.len() == b * ca, dout@.len() == b * co, old_dinp@.len() == b * ci, old_dpreatt@.len() == b * ca, old_datt@.len() == b * ca,
        ensures attention_gradient_batch_is(row(inp@, bi as int, ci as int), row(att@, bi as int, ca as int), mask_batch(mask_values(att_mask), bi as int, ca as int), row(dout@, bi as int, co as int), scale, t as int, nh as int, hs as int, (row(old_dinp@, bi as int, ci as int), row(old_dpreatt@, bi as int, ca as int), row(old_datt@, bi as int, ca as int)), (res.0@, res.1@, res.2@)),
        { attention_backward_batch(row_of(inp, bi, b, ci), row_of(att, bi, b, ca), mask_of(att_mask, bi, b, ca), row_of(dout, bi, b, co), scale, t, nh, hs, row_of(old_dinp.as_slice(), bi, b, ci), row_of(old_dpreatt.as_slice(), bi, b, ca), row_of(old_datt.as_slice(), bi, b, ca)) });
    let (dinps, dpreatts, datts) = split3(&parts);
    let new_dinp = flatten(&dinps, ci);
    let new_dpreatt = flatten(&dpreatts, ca);
    let new_datt = flatten(&datts, ca);
    store(dinp, 0, new_dinp.as_slice());
    store(dpreatt, 0, new_dpreatt.as_slice());
    store(datt, 0, new_datt.as_slice());
    proof {
        assert(tensor(dinp@, 0, b * ci) =~= dinp@);
        assert(tensor(dpreatt@, 0, b * ca) =~= dpreatt@);
        assert(tensor(datt@, 0, b * ca) =~= datt@);
        lemma_four_parts(
            before,
            gacts@,
            (dinp_off as int, new_dinp@),
            (dout_off as int, tensor(before, dout_off as int, b * co)),
            (dpreatt_off as int, new_dpreatt@),
            (datt_off as int, new_datt@),
        );
        lemma_three_changed(
            before,
            gacts@,
            (dout_off as int, b * co),
            (dinp_off as int, b * ci),
            (dpreatt_off as int, b * ca),
            (datt_off as int, b * ca),
        );
        assert(attention_gradient_scaled_is(
            tensor(acts@, inp_off as int, b * ci),
            tensor(acts@, att_off as int, b * ca),
            mask_values(att_mask),
            tensor(before, dout_off as int, b * co),
            scale,
            b as int,
            t as int,
            nh as int,
            hs as int,
            (
                tensor(before, dinp_off as int, b * ci),
                tensor(before, dpreatt_off as int, b * ca),
                tensor(before, datt_off as int, b * ca),
            ),
            (new_dinp@, new_dpreatt@, new_datt@),
        ));
        reveal(attention_gradient_is);
    }
}

} // verus!
