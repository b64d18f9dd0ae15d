//! Causal multi-head self-attention.
//!
//! Of one batch row, the packed input holds one row for each token: the
//! queries of all heads, then the keys, then the values. Scores and weights are
//! held as one row of `t` for each head and position.

use vstd::prelude::*;

use crate::arena::{
    copied, flatten, four_disjoint_mut, lemma_four_parts, lemma_row_bounds, lemma_slot,
    lemma_three_changed, lemma_unslot, only_changed3, par_map, row, row_of, split3, store, tensor,
};
use crate::layout::lemma_nonneg;
use crate::ops::loss::{
    peak, peak_is, reciprocal_is, shifted_exps, shifted_exps_are,
};
use crate::ops::pointwise::{add_scaled, each_times, each_times_is};
use crate::scalar::{
    dot_from, dot_from_is, dot_steps, exceeds_is, fold_is, is_zero, lemma_fold_push, mul_add_is,
    product_is, ratio_is, sqrt_is, total, total_is, Scalar,
};

verus! {

/// Values of a packed row: queries, keys and values of `nh` heads of `hs`.
pub open spec fn packed(nh: int, hs: int) -> int {
    (3 * nh) * hs
}

/// Head `h` of part `part` (0 queries, 1 keys, 2 values) of token `ti`.
pub open spec fn head<F>(inp: Seq<F>, ti: int, part: int, h: int, nh: int, hs: int) -> Seq<F> {
    row(row(inp, ti, packed(nh, hs)), part * nh + h, hs)
}

/// The row of `t` that belongs to head `h` and position `ti`.
pub open spec fn head_row<F>(s: Seq<F>, h: int, ti: int, t: int) -> Seq<F> {
    row(s, h * t + ti, t)
}

/// Head `h` of token `ti` in a tensor with rows of `nh * hs`.
pub open spec fn out_head<F>(s: Seq<F>, ti: int, h: int, nh: int, hs: int) -> Seq<F> {
    row(row(s, ti, nh * hs), h, hs)
}

/// `scale` is `1 / sqrt(hs)`.
pub open spec fn scale_is<F: Scalar>(hs: int, scale: F) -> bool {
    exists|count: F, root: F|
        #[trigger] ratio_is(hs as usize, 1, count) && #[trigger] sqrt_is(count, root)
            && reciprocal_is(root, scale)
}

/// `r` is the dot product of `q` and `k`, times `scale`.
pub open spec fn score_is<F: Scalar>(q: Seq<F>, k: Seq<F>, scale: F, r: F) -> bool {
    exists|zero: F, d: F|
        #[trigger] is_zero(zero) && #[trigger] dot_from_is(zero, q, k, d) && product_is(d, scale, r)
}

/// `inv` is `1 / sum` where `sum > 0`, else zero.
pub open spec fn guarded_reciprocal_is<F: Scalar>(sum: F, inv: F) -> bool {
    exists|zero: F| #[trigger]
        is_zero(zero) && (exceeds_is(sum, zero, true) && reciprocal_is(sum, inv) || exceeds_is(
            sum,
            zero,
            false,
        ) && is_zero(inv))
}

/// `y` is the softmax of the scores `x`.
pub open spec fn weights_are<F: Scalar>(x: Seq<F>, y: Seq<F>) -> bool {
    exists|m: F, e: Seq<F>, sum: F, inv: F|
        #[trigger] peak_is(x, m) && #[trigger] shifted_exps_are(x, m, e) && #[trigger] total_is(
            e,
            sum,
        ) && #[trigger] guarded_reciprocal_is(sum, inv) && each_times_is(e, inv, y)
}

/// Position `ti` of head `h` attends to the positions up to itself: `pre` holds
/// the scores against their keys and `att` their softmax. Behind `ti` both are
/// zero.
pub open spec fn attends_is<F: Scalar>(
    inp: Seq<F>,
    scale: F,
    t: int,
    nh: int,
    hs: int,
    h: int,
    ti: int,
    pre: Seq<F>,
    att: Seq<F>,
) -> bool {
    &&& pre.len() == t
    &&& att.len() == t
    &&& forall|t2: int|
        0 <= t2 <= ti ==> score_is(
            head(inp, ti, 0, h, nh, hs),
            head(inp, t2, 1, h, nh, hs),
            scale,
            #[trigger] pre[t2],
        )
    &&& weights_are(pre.subrange(0, ti + 1), att.subrange(0, ti + 1))
    &&& forall|t2: int| ti < t2 < t ==> is_zero(#[trigger] pre[t2])
    &&& forall|t2: int| ti < t2 < t ==> is_zero(#[trigger] att[t2])
}

/// `ws` holds the weights up to position `ti`, multiplied by their keep factors
/// where there are any.
pub open spec fn kept_weights_are<F: Scalar>(
    att: Seq<F>,
    mask: Option<Seq<F>>,
    ti: int,
    ws: Seq<F>,
) -> bool {
    &&& ws.len() == ti + 1
    &&& forall|t2: int|
        0 <= t2 <= ti ==> match mask {
            Some(m) => product_is(att[t2], m[t2], #[trigger] ws[t2]),
            None => ws[t2] == att[t2],
        }
}

/// Channel `i` of the values of head `h`, for the first `n` positions.
pub open spec fn value_channel<F>(inp: Seq<F>, n: int, h: int, nh: int, hs: int, i: int) -> Seq<F> {
    Seq::new(n as nat, |t2: int| head(inp, t2, 2, h, nh, hs)[i])
}

/// `r` is the sum of `ws[t2] * x[t2]`.
pub open spec fn weighted_sum_is<F: Scalar>(ws: Seq<F>, x: Seq<F>, r: F) -> bool {
    exists|zero: F| #[trigger] is_zero(zero) && dot_from_is(zero, ws, x, r)
}

/// `out` is the sum of the values up to position `ti`, each with its kept
/// weight.
pub open spec fn mixes_is<F: Scalar>(
    inp: Seq<F>,
    att: Seq<F>,
    mask: Option<Seq<F>>,
    nh: int,
    hs: int,
    h: int,
    ti: int,
    out: Seq<F>,
) -> bool {
    exists|ws: Seq<F>| #[trigger]
        kept_weights_are(att, mask, ti, ws) && out.len() == hs && forall|i: int|
            0 <= i < hs ==> weighted_sum_is(
                ws,
                value_channel(inp, ti + 1, h, nh, hs, i),
                #[trigger] out[i],
            )
}

/// The row of keep factors for head `h` and position `ti`.
pub open spec fn mask_row<F>(mask: Option<Seq<F>>, h: int, ti: int, t: int) -> Option<Seq<F>> {
    match mask {
        Some(m) => Some(head_row(m, h, ti, t)),
        None => None,
    }
}

/// Attention over one batch row: `out`, `pre` and `att` follow from `inp`.
pub open spec fn attention_batch_is<F: Scalar>(
    inp: Seq<F>,
    mask: Option<Seq<F>>,
    scale: F,
    t: int,
    nh: int,
    hs: int,
    out: Seq<F>,
    pre: Seq<F>,
    att: Seq<F>,
) -> bool {
    &&& out.len() == t * (nh * hs)
    &&& pre.len() == (nh * t) * t
    &&& att.len() == (nh * t) * t
    &&& forall|h: int, ti: int|
        #![trigger head_row(pre, h, ti, t)]
        #![trigger head_row(att, h, ti, t)]
        0 <= h < nh && 0 <= ti < t ==> attends_is(
            inp,
            scale,
            t,
            nh,
            hs,
            h,
            ti,
            head_row(pre, h, ti, t),
            head_row(att, h, ti, t),
        )
    &&& forall|h: int, ti: int|
        0 <= h < nh && 0 <= ti < t ==> mixes_is(
            inp,
            head_row(att, h, ti, t),
            mask_row(mask, h, ti, t),
            nh,
            hs,
            h,
            ti,
            #[trigger] out_head(out, ti, h, nh, hs),
        )
}

/// The keep factors of batch row `bi`.
pub open spec fn mask_batch<F>(mask: Option<Seq<F>>, bi: int, size: int) -> Option<Seq<F>> {
    match mask {
        Some(m) => Some(row(m, bi, size)),
        None => None,
    }
}

/// Attention over the `b` batch rows.
#[verifier::opaque]
pub open spec fn attention_is<F: Scalar>(
    inp: Seq<F>,
    mask: Option<Seq<F>>,
    b: int,
    t: int,
    nh: int,
    hs: int,
    out: Seq<F>,
    pre: Seq<F>,
    att: Seq<F>,
) -> bool {
    exists|scale: F| #[trigger]
        scale_is(hs, scale) && attention_scaled_is(inp, mask, scale, b, t, nh, hs, out, pre, att)
}

/// Attention over the `b` batch rows, with `scale` on the scores.
pub open spec fn attention_scaled_is<F: Scalar>(
    inp: Seq<F>,
    mask: Option<Seq<F>>,
    scale: F,
    b: int,
    t: int,
    nh: int,
    hs: int,
    out: Seq<F>,
    pre: Seq<F>,
    att: Seq<F>,
) -> bool {
    &&& out.len() == b * (t * (nh * hs))
    &&& pre.len() == b * ((nh * t) * t)
    &&& att.len() == b * ((nh * t) * t)
    &&& forall|bi: int|
        #![trigger row(out, bi, t * (nh * hs))]
        #![trigger row(pre, bi, (nh * t) * t)]
        #![trigger row(att, bi, (nh * t) * t)]
        0 <= bi < b ==> attention_batch_is(
            row(inp, bi, t * packed(nh, hs)),
            mask_batch(mask, bi, (nh * t) * t),
            scale,
            t,
            nh,
            hs,
            row(out, bi, t * (nh * hs)),
            row(pre, bi, (nh * t) * t),
            row(att, bi, (nh * t) * t),
        )
}

/// The values that a mask holds, if there is one.
pub open spec fn mask_values<F>(mask: Option<&[F]>) -> Option<Seq<F>> {
    match mask {
        Some(m) => Some(m@),
        None => None,
    }
}

/// Head `h` of part `part` of token `ti`.
pub fn head_of<F>(inp: &[F], ti: usize, part: usize, h: usize, t: usize, nh: usize, hs: usize) -> (x:
    &[F])
    requires
        ti < t,
        part < 3,
        h < nh,
        3 * nh <= usize::MAX,
        packed(nh as int, hs as int) <= usize::MAX,
        inp@.len() == t * packed(nh as int, hs as int),
    ensures
        x@ == head(inp@, ti as int, part as int, h as int, nh as int, hs as int),
        x@.len() == hs,
{
    proof {
        lemma_nonneg(3 * nh, hs as int);
        assert(part * nh <= 2 * nh) by (nonlinear_arith)
            requires
                part <= 2,
        ;
        lemma_nonneg(part as int, nh as int);
    }
    let token = row_of(inp, ti, t, (3 * nh) * hs);
    row_of(token, part * nh + h, 3 * nh, hs)
}

/// Scores and weights of head `h` at position `ti`.
fn attends<F: Scalar>(
    inp: &[F],
    scale: F,
    t: usize,
    nh: usize,
    hs: usize,
    h: usize,
    ti: usize,
) -> (res: (Vec<F>, Vec<F>))
    requires
        ti < t,
        h < nh,
        3 * nh <= usize::MAX,
        packed(nh as int, hs as int) <= usize::MAX,
        inp@.len() == t * packed(nh as int, hs as int),
    ensures
        attends_is(
            inp@,
            scale,
            t as int,
            nh as int,
            hs as int,
            h as int,
            ti as int,
            res.0@,
            res.1@,
        ),
{
    let q = head_of(inp, ti, 0, h, t, nh, hs);
    let mut pre: Vec<F> = Vec::with_capacity(t);
    for t2 in 0..ti + 1
        invariant
            ti < t,
            h < nh,
            3 * nh <= usize::MAX,
            packed(nh as int, hs as int) <= usize::MAX,
            inp@.len() == t * packed(nh as int, hs as int),
            q@ == head(inp@, ti as int, 0, h as int, nh as int, hs as int),
            q@.len() == hs,
            pre@.len() == t2,
            forall|u: int|
                0 <= u < t2 ==> score_is(
                    q@,
                    head(inp@, u, 1, h as int, nh as int, hs as int),
                    scale,
                    #[trigger] pre@[u],
                ),
    {
        let k = head_of(inp, t2, 1, h, t, nh, hs);
        let r = dot_from(F::zero(), q, k).times(scale);
        assert(score_is(q@, k@, scale, r));
        pre.push(r);
    }
    let m = peak(pre.as_slice());
    let e = shifted_exps(pre.as_slice(), m);
    let sum = total(e.as_slice());
    let inv = if sum.exceeds(F::zero()) {
        let inv = F::one().divide(sum);
        assert(reciprocal_is(sum, inv));
        inv
    } else {
        F::zero()
    };
    assert(guarded_reciprocal_is(sum, inv));
    let mut att = each_times(e.as_slice(), inv);
    assert(weights_are(pre@, att@));
    let ghost scores = pre@;
    let ghost weights = att@;
    for t2 in ti + 1..t
        invariant
            ti < t,
            scores.len() == ti + 1,
            weights.len() == ti + 1,
            pre@.len() == t2,
            att@.len() == t2,
            pre@.subrange(0, ti + 1) == scores,
            att@.subrange(0, ti + 1) == weights,
            forall|u: int| ti < u < t2 ==> is_zero(#[trigger] pre@[u]),
            forall|u: int| ti < u < t2 ==> is_zero(#[trigger] att@[u]),
    {
        att.push(F::zero());
        pre.push(F::zero());
        assert(pre@.subrange(0, ti + 1) =~= scores);
        assert(att@.subrange(0, ti + 1) =~= weights);
    }
    proof {
        assert forall|u: int| 0 <= u <= ti implies score_is(
            q@,
            head(inp@, u, 1, h as int, nh as int, hs as int),
            scale,
            #[trigger] pre@[u],
        ) by {
            assert(pre@[u] == pre@.subrange(0, ti + 1)[u]);
        }
    }
    (pre, att)
}

/// The mixed values of head `h` at position `ti`.
fn mixes<F: Scalar>(
    inp: &[F],
    att: &[F],
    mask: Option<&[F]>,
    t: usize,
    nh: usize,
    hs: usize,
    h: usize,
    ti: usize,
) -> (out: Vec<F>)
    requires
        ti < t,
        h < nh,
        3 * nh <= usize::MAX,
        packed(nh as int, hs as int) <= usize::MAX,
        inp@.len() == t * packed(nh as int, hs as int),
        att@.len() == t,
        mask matches Some(m) ==> m@.len() == t,
    ensures
        mixes_is(
            inp@,
            att@,
            mask_values(mask),
            nh as int,
            hs as int,
            h as int,
            ti as int,
            out@,
        ),
{
    let mut ws: Vec<F> = Vec::with_capacity(ti + 1);
    for t2 in 0..ti + 1
        invariant
            ti < t,
            att@.len() == t,
            mask matches Some(m) ==> m@.len() == t,
            ws@.len() == t2,
            forall|u: int|
                0 <= u < t2 ==> match mask_values(mask) {
                    Some(m) => product_is(att@[u], m[u], #[trigger] ws@[u]),
                    None => ws@[u] == att@[u],
                },
    {
        let a = match mask {
            Some(m) => att[t2].times(m[t2]),
            None => att[t2],
        };
        ws.push(a);
    }
    assert(kept_weights_are(att@, mask_values(mask), ti as int, ws@));
    let mut out: Vec<F> = Vec::with_capacity(hs);
    for i in 0..hs
        invariant
            out@.len() == i,
            forall|j: int| 0 <= j < i ==> is_zero(#[trigger] out@[j]),
    {
        out.push(F::zero());
    }
    let ghost zeros = out@;
    for t2 in 0..ti + 1
        invariant
            ti < t,
            h < nh,
            3 * nh <= usize::MAX,
            packed(nh as int, hs as int) <= usize::MAX,
            inp@.len() == t * packed(nh as int, hs as int),
            ws@.len() == ti + 1,
            out@.len() == hs,
            zeros.len() == hs,
            forall|i: int|
                0 <= i < hs ==> fold_is(
                    t2 as nat,
                    zeros[i],
                    dot_steps(
                        ws@,
                        value_channel(inp@, ti + 1, h as int, nh as int, hs as int, i),
                    ),
                    #[trigger] out@[i],
                ),
    {
        let v = head_of(inp, t2, 2, h, t, nh, hs);
        let ghost before = out@;
        add_scaled(&mut out, ws[t2], v);
        proof {
            assert forall|i: int| 0 <= i < hs implies fold_is(
                t2 as nat + 1,
                zeros[i],
                dot_steps(ws@, value_channel(inp@, ti + 1, h as int, nh as int, hs as int, i)),
                #[trigger] out@[i],
            ) by {
                let x = value_channel(inp@, ti + 1, h as int, nh as int, hs as int, i);
                assert(mul_add_is(before[i], ws@[t2 as int], x[t2 as int], out@[i]));
                assert(fold_is(t2 as nat, zeros[i], dot_steps(ws@, x), before[i]));
                lemma_fold_push(t2 as nat, zeros[i], dot_steps(ws@, x), before[i], out@[i]);
            }
        }
    }
    proof {
        assert forall|i: int| 0 <= i < hs implies weighted_sum_is(
            ws@,
            value_channel(inp@, ti + 1, h as int, nh as int, hs as int, i),
            #[trigger] out@[i],
        ) by {
            assert(is_zero(zeros[i]));
        }
    }
    out
}

/// Attention over one batch row: output, scores and weights.
fn attention_batch<F: Scalar>(
    inp: &[F],
    mask: Option<&[F]>,
    scale: F,
    t: usize,
    nh: usize,
    hs: usize,
) -> (res: (Vec<F>, Vec<F>, Vec<F>))
    requires
        0 < t,
        3 * nh <= usize::MAX,
        nh * t <= usize::MAX,
        packed(nh as int, hs as int) <= usize::MAX,
        inp@.len() == t * packed(nh as int, hs as int),
        mask matches Some(m) ==> m@.len() == (nh * t) * t,
    ensures
        attention_batch_is(
            inp@,
            mask_values(mask),
            scale,
            t as int,
            nh as int,
            hs as int,
            res.0@,
            res.1@,
            res.2@,
        ),
{
    let mut outs: Vec<Vec<F>> = Vec::with_capacity(nh * t);
    let mut pres: Vec<Vec<F>> = Vec::with_capacity(nh * t);
    let mut atts: Vec<Vec<F>> = Vec::with_capacity(nh * t);
    for p in 0..nh * t
        invariant
            0 < t,
            3 * nh <= usize::MAX,
            nh * t <= usize::MAX,
            packed(nh as int, hs as int) <= usize::MAX,
            inp@.len() == t * packed(nh as int, hs as int),
            mask matches Some(m) ==> m@.len() == (nh * t) * t,
            outs@.len() == p,
            pres@.len() == p,
            atts@.len() == p,
            forall|q: int|
                #![trigger pres@[q]]
                #![trigger atts@[q]]
                0 <= q < p ==> attends_is(
                    inp@,
                    scale,
                    t as int,
                    nh as int,
                    hs as int,
                    q / (t as int),
                    q % (t as int),
                    pres@[q]@,
                    atts@[q]@,
                ),
            forall|q: int|
                0 <= q < p ==> (#[trigger] outs@[q])@.len() == hs && mixes_is(
                    inp@,
                    atts@[q]@,
                    mask_row(mask_values(mask), q / (t as int), q % (t as int), t as int),
                    nh as int,
                    hs as int,
                    q / (t as int),
                    q % (t as int),
                    outs@[q]@,
                ),
    {
        proof {
            lemma_unslot(p as int, nh as int, t as int);
        }
        let h = p / t;
        let ti = p % t;
        let (pre, att) = attends(inp, scale, t, nh, hs, h, ti);
        let m = match mask {
            Some(m) => Some(row_of(m, p, nh * t, t)),
            None => None,
        };
        let out = mixes(inp, att.as_slice(), m, t, nh, hs, h, ti);
        pres.push(pre);
        atts.push(att);
        outs.push(out);
    }
    let pre = flatten(&pres, t);
    let att = flatten(&atts, t);
    let mut tokens: Vec<Vec<F>> = Vec::with_capacity(t);
    proof {
        lemma_nonneg(nh as int, hs as int);
        assert(nh * hs <= (3 * nh) * hs) by (nonlinear_arith);
    }
    for ti in 0..t
        invariant
            nh * t <= usize::MAX,
            nh * hs <= usize::MAX,
            outs@.len() == nh * t,
            forall|q: int| 0 <= q < nh * t ==> (#[trigger] outs@[q])@.len() == hs,
            tokens@.len() == ti,
            forall|u: int| 0 <= u < ti ==> (#[trigger] tokens@[u])@.len() == nh * hs,
            forall|u: int, h: int|
                0 <= u < ti && 0 <= h < nh ==> #[trigger] row(tokens@[u]@, h, hs as int)
                    == outs@[h * t + u]@,
    {
        let mut heads: Vec<Vec<F>> = Vec::with_capacity(nh);
        for h in 0..nh
            invariant
                ti < t,
                nh * t <= usize::MAX,
                outs@.len() == nh * t,
                forall|q: int| 0 <= q < nh * t ==> (#[trigger] outs@[q])@.len() == hs,
                heads@.len() == h,
                forall|g: int|
                    0 <= g < h ==> (#[trigger] heads@[g])@ == outs@[g * t + ti]@ && heads@[g]@.len()
                        == hs,
        {
            proof {
                lemma_slot(h as int, ti as int, nh as int, t as int);
                lemma_row_bounds(h as int, nh as int, t as int);
            }
            heads.push(copied(outs[h * t + ti].as_slice()));
        }
        tokens.push(flatten(&heads, hs));
    }
    let out = flatten(&tokens, nh * hs);
    proof {
        assert forall|h: int, ti: int| 0 <= h < nh && 0 <= ti < t implies attends_is(
            inp@,
            scale,
            t as int,
            nh as int,
            hs as int,
            h,
            ti,
            #[trigger] head_row(pre@, h, ti, t as int),
            head_row(att@, h, ti, t as int),
        ) && mixes_is(
            inp@,
            head_row(att@, h, ti, t as int),
            mask_row(mask_values(mask), h, ti, t as int),
            nh as int,
            hs as int,
            h,
            ti,
            out_head(out@, ti, h, nh as int, hs as int),
        ) by {
            lemma_slot(h, ti, nh as int, t as int);
            let q = h * t + ti;
            assert(row(pre@, q, t as int) == pres@[q]@);
            assert(row(att@, q, t as int) == atts@[q]@);
            assert(row(out@, ti, nh * hs) == tokens@[ti]@);
            assert(row(tokens@[ti]@, h, hs as int) == outs@[q]@);
        }
        assert forall|h: int, ti: int| 0 <= h < nh && 0 <= ti < t implies mixes_is(
            inp@,
            head_row(att@, h, ti, t as int),
            mask_row(mask_values(mask), h, ti, t as int),
            nh as int,
            hs as int,
            h,
            ti,
            #[trigger] out_head(out@, ti, h, nh as int, hs as int),
        ) by {
            assert(head_row(pre@, h, ti, t as int) == head_row(pre@, h, ti, t as int));
        }
    }
    (out, pre, att)
}

/// Causal multi-head self-attention between tensors of one arena, the batch
/// rows in parallel: the output at `out_off`, the scores at `preatt_off` and
/// the weights at `att_off` follow from the packed tensor at `inp_off`.
pub fn attention_forward<F: Scalar>(
    acts: &mut [F],
    out_off: usize,
    preatt_off: usize,
    att_off: usize,
    inp_off: usize,
    b: usize,
    t: usize,
    nh: usize,
    hs: usize,
    att_mask: Option<&[F]>,
)
    requires
        0 < t,
        3 * nh <= usize::MAX,
        nh * t <= usize::MAX,
        packed(nh as int, hs as int) <= usize::MAX,
        t * packed(nh as int, hs as int) <= usize::MAX,
        (nh * t) * t <= usize::MAX,
        inp_off + b * (t * packed(nh as int, hs as int)) <= out_off,
        out_off + b * (t * (nh * hs)) <= preatt_off,
        preatt_off + b * ((nh * t) * t) <= att_off,
        att_off + b * ((nh * t) * t) <= old(acts).len(),
        att_mask matches Some(m) ==> m@.len() == b * ((nh * t) * t),
    ensures
        only_changed3(
            old(acts)@,
            final(acts)@,
            out_off as int,
            b * (t * (nh * hs)),
            preatt_off as int,
            b * ((nh * t) * t),
            att_off as int,
            b * ((nh * t) * t),
        ),
        attention_is(
            tensor(old(acts)@, inp_off as int, b * (t * packed(nh as int, hs as int))),
            mask_values(att_mask),
            b as int,
            t as int,
            nh as int,
            hs as int,
            tensor(final(acts)@, out_off as int, b * (t * (nh * hs))),
            tensor(final(acts)@, preatt_off as int, b * ((nh * t) * t)),
            tensor(final(acts)@, att_off as int, b * ((nh * t) * t)),
        ),
{
    let scale = F::one().divide(F::from_ratio(hs, 1).sqrt());
    proof {
        lemma_nonneg(3 * nh, hs as int);
        lemma_nonneg(nh as int, hs as int);
        lemma_nonneg(nh as int, t as int);
        lemma_nonneg(nh * t, t as int);
        lemma_nonneg(t as int, (3 * nh) * hs);
        lemma_nonneg(t as int, nh * hs);
        lemma_nonneg(b as int, t * ((3 * nh) * hs));
        lemma_nonneg(b as int, t * (nh * hs));
        lemma_nonneg(b as int, (nh * t) * t);
        assert(nh * hs <= (3 * nh) * hs) by (nonlinear_arith);
        assert(t * (nh * hs) <= t * ((3 * nh) * hs)) by (nonlinear_arith)
            requires
                nh * hs <= (3 * nh) * hs,
        ;
        assert(scale_is(hs as int, scale));
    }
    let ghost before = acts@;
    let ci = t * ((3 * nh) * hs);
    let co = t * (nh * hs);
    let ca = (nh * t) * t;
    let (inp, out, preatt, att) = four_disjoint_mut(
        acts,
        inp_off,
        b * ci,
        out_off,
        b * co,
        preatt_off,
        b * ca,
        att_off,
        b * ca,
    );
    let inp: &[F] = inp;
    let parts = par_map(b, |bi: usize| -> (res: (Vec<F>, Vec<F>, Vec<F>))
        requires bi < b, 0 < t, 3 * nh <= usize::MAX, nh * t <= usize::MAX, packed(nh as int, hs as int) <= usize::MAX, ci == t * packed(nh as int, hs as int), inp@.len() == b * ci, ca == (nh * t) * t, att_mask matches Some(m) ==> m@.len() == b * ca,
        ensures attention_batch_is(row(inp@, bi as int, ci as int), mask_batch(mask_values(att_mask), bi as int, ca as int), scale, t as int, nh as int, hs as int, res.0@, res.1@, res.2@),
        { attention_batch(row_of(inp, bi, b, ci), mask_of(att_mask, bi, b, ca), scale, t, nh, hs) });
    let (outs, pres, atts) = split3(&parts);
    let new_out = flatten(&outs, co);
    let new_pre = flatten(&pres, ca);
    let new_att = flatten(&atts, ca);
    store(out, 0, new_out.as_slice());
    store(preatt, 0, new_pre.as_slice());
    store(att, 0, new_att.as_slice());
    proof {
        assert(tensor(out@, 0, b * co) =~= out@);
        assert(tensor(preatt@, 0, b * ca) =~= preatt@);
        assert(tensor(att@, 0, b * ca) =~= att@);
        lemma_four_parts(
            before,
            acts@,
            (inp_off as int, tensor(before, inp_off as int, b * ci)),
            (out_off as int, new_out@),
            (preatt_off as int, new_pre@),
            (att_off as int, new_att@),
        );
        lemma_three_changed(
            before,
            acts@,
            (inp_off as int, b * ci),
            (out_off as int, b * co),
            (preatt_off as int, b * ca),
            (att_off as int, b * ca),
        );
        assert(attention_scaled_is(
            tensor(before, inp_off as int, b * ci),
            mask_values(att_mask),
            scale,
            b as int,
            t as int,
            nh as int,
            hs as int,
            new_out@,
            new_pre@,
            new_att@,
        ));
        assert(attention_is(
            tensor(before, inp_off as int, b * ci),
            mask_values(att_mask),
            b as int,
            t as int,
            nh as int,
            hs as int,
            new_out@,
            new_pre@,
            new_att@,
        )) by {
            reveal(attention_is);
        }
    }
}

/// The keep factors of batch row `bi`.
pub fn mask_of<F>(mask: Option<&[F]>, bi: usize, b: usize, size: usize) -> (m: Option<&[F]>)
    requires
        bi < b,
        mask matches Some(m) ==> m@.len() == b * size,
    ensures
        mask_values(m) == mask_batch(mask_values(mask), bi as int, size as int),
        m matches Some(x) ==> x@.len() == size,
{
    match mask {
        Some(m) => Some(row_of(m, bi, b, size)),
        None => None,
    }
}

/// Attention is causal: what position `ti` of head `h` attends to, and what it
/// mixes, do not depend on the tokens behind `ti`.
pub proof fn lemma_attention_causal<F: Scalar>(
    inp: Seq<F>,
    other: Seq<F>,
    mask: Option<Seq<F>>,
    scale: F,
    t: int,
    nh: int,
    hs: int,
    h: int,
    ti: int,
    pre: Seq<F>,
    att: Seq<F>,
    out: Seq<F>,
)
    requires
        0 <= h < nh,
        0 <= ti < t,
        forall|u: int|
            0 <= u <= ti ==> #[trigger] row(inp, u, packed(nh, hs)) == row(
                other,
                u,
                packed(nh, hs),
            ),
        attends_is(inp, scale, t, nh, hs, h, ti, pre, att),
        mixes_is(inp, att, mask, nh, hs, h, ti, out),
    ensures
        attends_is(other, scale, t, nh, hs, h, ti, pre, att),
        mixes_is(other, att, mask, nh, hs, h, ti, out),
{
    assert forall|u: int, part: int| 0 <= u <= ti implies #[trigger] head(
        inp,
        u,
        part,
        h,
        nh,
        hs,
    ) == head(other, u, part, h, nh, hs) by {
        assert(row(inp, u, packed(nh, hs)) == row(other, u, packed(nh, hs)));
    }
    assert forall|t2: int| 0 <= t2 <= ti implies score_is(
        head(other, ti, 0, h, nh, hs),
        head(other, t2, 1, h, nh, hs),
        scale,
        #[trigger] pre[t2],
    ) by {
        assert(head(inp, ti, 0, h, nh, hs) == head(other, ti, 0, h, nh, hs));
        assert(head(inp, t2, 1, h, nh, hs) == head(other, t2, 1, h, nh, hs));
    }
    let ws = choose|ws: Seq<F>| #[trigger]
        kept_weights_are(att, mask, ti, ws) && out.len() == hs && forall|i: int|
            0 <= i < hs ==> weighted_sum_is(
                ws,
                value_channel(inp, ti + 1, h, nh, hs, i),
                #[trigger] out[i],
            );
    assert forall|i: int| 0 <= i < hs implies weighted_sum_is(
        ws,
        value_channel(other, ti + 1, h, nh, hs, i),
        #[trigger] out[i],
    ) by {
        assert(value_channel(inp, ti + 1, h, nh, hs, i) =~= value_channel(
            other,
            ti + 1,
            h,
            nh,
            hs,
            i,
        ));
    }
}

} // verus!
