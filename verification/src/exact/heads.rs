//! What the attention computes where the arithmetic is exact: each score, weight
//! and output as a formula over the numbers in the flat buffers. A row of the
//! packed tensor holds the queries of all heads, then their keys, then their
//! values.

use vstd::prelude::*;

use crate::arena::{lemma_row_bounds, lemma_slot, row};
use crate::exact::exact;
use crate::exact::gate::exponential;
use crate::exact::losses::lemma_weighed;
use crate::exact::power::exact_roots;
use crate::layout::lemma_nonneg;
use crate::ops::attention::{
    attends_is, attention_is, attention_scaled_is, guarded_reciprocal_is, head, head_row,
    kept_weights_are, mask_batch, mask_row, mixes_is, out_head, packed, scale_is, score_is,
    value_channel, weighted_sum_is, weights_are,
};
use crate::ops::loss::{peak_is, reciprocal_is, shifted_exps_are};
use crate::ops::pointwise::each_times_is;
use crate::scalar::{
    dot_from_is, is_one, is_zero, product_is, quotient_is, ratio_is, sqrt_is, total_is, Scalar,
};
use crate::sums::{lemma_dot_value, lemma_sum_same, sum_to, times};

verus! {

/// Where channel `i` of head `h` of token `ti` of batch row `bi` lies in the
/// packed tensor: among the queries (part 0), the keys (1) or the values (2).
pub open spec fn packed_place(
    bi: int,
    ti: int,
    part: int,
    h: int,
    i: int,
    t: int,
    nh: int,
    hs: int,
) -> int {
    bi * (t * ((3 * nh) * hs)) + ti * ((3 * nh) * hs) + (part * nh + h) * hs + i
}

/// Where channel `i` of head `h` of token `ti` of batch row `bi` lies in the
/// output.
pub open spec fn out_place(bi: int, ti: int, h: int, i: int, t: int, nh: int, hs: int) -> int {
    bi * (t * (nh * hs)) + ti * (nh * hs) + h * hs + i
}

/// Where the score of position `ti` against position `t2` lies, of head `h` in
/// batch row `bi`; the weight and its keep factor lie alike.
pub open spec fn score_place(bi: int, h: int, ti: int, t2: int, t: int, nh: int) -> int {
    bi * ((nh * t) * t) + (h * t + ti) * t + t2
}

/// The scale of the scores is the positive number whose square times the head
/// size is one.
pub proof fn lemma_scale_value<F: Scalar>(val: spec_fn(F) -> real, hs: int, scale: F)
    requires
        exact(val),
        exact_roots(val),
        0 < hs <= usize::MAX,
        scale_is(hs, scale),
    ensures
        val(scale) > 0 as real,
        (val(scale) * val(scale)) * (hs as real) == 1 as real,
{
    let (count, root) = choose|count: F, root: F|
        #[trigger] ratio_is(hs as usize, 1, count) && #[trigger] sqrt_is(count, root)
            && reciprocal_is(root, scale);
    let one = choose|one: F| #[trigger] is_one(one) && quotient_is(one, root, scale);
    let k = val(count);
    assert(k * (1 as int as real) == hs as real);
    assert(k * 1 as real == k) by (nonlinear_arith);
    let (r, s) = (val(root), val(scale));
    assert(r != 0 as real) by {
        if r == 0 as real {
            assert(r * r == 0 as real) by (nonlinear_arith)
                requires
                    r == 0 as real,
            ;
        }
    }
    assert(s > 0 as real) by (nonlinear_arith)
        requires
            r > 0 as real,
            s * r == 1 as real,
    ;
    assert((s * s) * (r * r) == (s * r) * (s * r)) by (nonlinear_arith);
    assert(1 as real * 1 as real == 1 as real) by (nonlinear_arith);
    lemma_same(s * s, r * r, hs as real);
}

/// Equal factors make equal products.
proof fn lemma_same(x: real, a: real, b: real)
    requires
        a == b,
    ensures
        x * a == x * b,
{
}

/// The places of one head in the packed tensor.
pub(crate) proof fn lemma_head_at<F>(
    inp: Seq<F>,
    b: int,
    bi: int,
    ti: int,
    part: int,
    h: int,
    t: int,
    nh: int,
    hs: int,
)
    requires
        0 <= bi < b,
        0 <= ti < t,
        0 <= part < 3,
        0 <= h < nh,
        0 <= hs,
        inp.len() == b * (t * packed(nh, hs)),
    ensures
        head(row(inp, bi, t * packed(nh, hs)), ti, part, h, nh, hs).len() == hs,
        forall|i: int|
            0 <= i < hs ==> #[trigger] head(
                row(inp, bi, t * packed(nh, hs)),
                ti,
                part,
                h,
                nh,
                hs,
            )[i] == inp[packed_place(bi, ti, part, h, i, t, nh, hs)],
{
    assert(0 <= part * nh + h < 3 * nh) by (nonlinear_arith)
        requires
            0 <= part < 3,
            0 <= h < nh,
    ;
    lemma_nonneg(3 * nh, hs);
    lemma_nonneg(t, packed(nh, hs));
    lemma_row_bounds(bi, b, t * packed(nh, hs));
    lemma_row_bounds(ti, t, packed(nh, hs));
    lemma_row_bounds(part * nh + h, 3 * nh, hs);
}

/// The places of one row of scores.
pub(crate) proof fn lemma_score_at<F>(
    s: Seq<F>,
    b: int,
    bi: int,
    h: int,
    ti: int,
    t: int,
    nh: int,
)
    requires
        0 <= bi < b,
        0 <= h < nh,
        0 <= ti < t,
        s.len() == b * ((nh * t) * t),
    ensures
        head_row(row(s, bi, (nh * t) * t), h, ti, t).len() == t,
        forall|t2: int|
            0 <= t2 < t ==> #[trigger] head_row(row(s, bi, (nh * t) * t), h, ti, t)[t2]
                == s[score_place(bi, h, ti, t2, t, nh)],
{
    lemma_nonneg(nh, t);
    lemma_nonneg(nh * t, t);
    lemma_row_bounds(bi, b, (nh * t) * t);
    lemma_slot(h, ti, nh, t);
    lemma_row_bounds(h * t + ti, nh * t, t);
}

/// The places of one head in an output.
pub(crate) proof fn lemma_out_at<F>(
    s: Seq<F>,
    b: int,
    bi: int,
    ti: int,
    h: int,
    t: int,
    nh: int,
    hs: int,
)
    requires
        0 <= bi < b,
        0 <= ti < t,
        0 <= h < nh,
        0 <= hs,
        s.len() == b * (t * (nh * hs)),
    ensures
        out_head(row(s, bi, t * (nh * hs)), ti, h, nh, hs).len() == hs,
        forall|i: int|
            0 <= i < hs ==> #[trigger] out_head(row(s, bi, t * (nh * hs)), ti, h, nh, hs)[i]
                == s[out_place(bi, ti, h, i, t, nh, hs)],
{
    lemma_nonneg(nh, hs);
    lemma_nonneg(t, nh * hs);
    lemma_row_bounds(bi, b, t * (nh * hs));
    lemma_row_bounds(ti, t, nh * hs);
    lemma_row_bounds(h, nh, hs);
}

/// The scores and weights of a head at a position, with the scale `s`: the score
/// against each position up to it is the product of the query with that
/// position's key over the channels, times `s`; the weight times the sum of the
/// exponentials of these scores is the exponential of the score; behind the
/// position both are zero.
pub open spec fn weights_at<F>(
    val: spec_fn(F) -> real,
    ex: spec_fn(real) -> real,
    s: real,
    inp: Seq<F>,
    pre: Seq<F>,
    att: Seq<F>,
    t: int,
    nh: int,
    hs: int,
    bi: int,
    h: int,
    ti: int,
) -> bool {
    &&& forall|t2: int|
        0 <= t2 <= ti ==> val(#[trigger] pre[score_place(bi, h, ti, t2, t, nh)]) == times(
            sum_to(
                hs as nat,
                |i: int|
                    times(
                        val(inp[packed_place(bi, ti, 0, h, i, t, nh, hs)]),
                        val(inp[packed_place(bi, t2, 1, h, i, t, nh, hs)]),
                    ),
            ),
            s,
        )
    &&& forall|t2: int|
        0 <= t2 <= ti ==> times(
            val(#[trigger] att[score_place(bi, h, ti, t2, t, nh)]),
            sum_to(
                (ti + 1) as nat,
                |t3: int| ex(val(pre[score_place(bi, h, ti, t3, t, nh)])),
            ),
        ) == ex(val(pre[score_place(bi, h, ti, t2, t, nh)]))
    &&& forall|t2: int|
        ti < t2 < t ==> val(#[trigger] att[score_place(bi, h, ti, t2, t, nh)]) == 0 as real
    &&& forall|t2: int|
        ti < t2 < t ==> val(#[trigger] pre[score_place(bi, h, ti, t2, t, nh)]) == 0 as real
}

/// The keep factor of a weight, or one without any.
pub open spec fn keep_at<F>(val: spec_fn(F) -> real, mask: Option<Seq<F>>, p: int) -> real {
    match mask {
        Some(m) => val(m[p]),
        None => 1 as real,
    }
}

/// The output of a head at a position: in each channel the sum of the values up
/// to it, each times its weight and its keep factor.
pub open spec fn mixed_at<F>(
    val: spec_fn(F) -> real,
    inp: Seq<F>,
    mask: Option<Seq<F>>,
    att: Seq<F>,
    out: Seq<F>,
    t: int,
    nh: int,
    hs: int,
    bi: int,
    h: int,
    ti: int,
) -> bool {
    forall|i: int|
        0 <= i < hs ==> val(#[trigger] out[out_place(bi, ti, h, i, t, nh, hs)]) == sum_to(
            (ti + 1) as nat,
            |t2: int|
                times(
                    times(
                        val(att[score_place(bi, h, ti, t2, t, nh)]),
                        keep_at(val, mask, score_place(bi, h, ti, t2, t, nh)),
                    ),
                    val(inp[packed_place(bi, t2, 2, h, i, t, nh, hs)]),
                ),
        )
}

/// The scores of one position.
proof fn lemma_scores_at<F: Scalar>(
    val: spec_fn(F) -> real,
    inp: Seq<F>,
    scale: F,
    b: int,
    t: int,
    nh: int,
    hs: int,
    pre: Seq<F>,
    att: Seq<F>,
    bi: int,
    h: int,
    ti: int,
    t2: int,
)
    requires
        exact(val),
        0 <= bi < b,
        0 <= h < nh,
        0 <= t2 <= ti < t,
        0 <= hs,
        inp.len() == b * (t * packed(nh, hs)),
        pre.len() == b * ((nh * t) * t),
        attends_is(
            row(inp, bi, t * packed(nh, hs)),
            scale,
            t,
            nh,
            hs,
            h,
            ti,
            head_row(row(pre, bi, (nh * t) * t), h, ti, t),
            head_row(row(att, bi, (nh * t) * t), h, ti, t),
        ),
    ensures
        val(pre[score_place(bi, h, ti, t2, t, nh)]) == times(
            sum_to(
                hs as nat,
                |i: int|
                    times(
                        val(inp[packed_place(bi, ti, 0, h, i, t, nh, hs)]),
                        val(inp[packed_place(bi, t2, 1, h, i, t, nh, hs)]),
                    ),
            ),
            val(scale),
        ),
{
    let x = row(inp, bi, t * packed(nh, hs));
    let p = head_row(row(pre, bi, (nh * t) * t), h, ti, t);
    let q = head(x, ti, 0, h, nh, hs);
    let k = head(x, t2, 1, h, nh, hs);
    lemma_head_at(inp, b, bi, ti, 0, h, t, nh, hs);
    lemma_head_at(inp, b, bi, t2, 1, h, t, nh, hs);
    lemma_score_at(pre, b, bi, h, ti, t, nh);
    assert(score_is(q, k, scale, p[t2]));
    let (zero, d) = choose|zero: F, d: F|
        #[trigger] is_zero(zero) && #[trigger] dot_from_is(zero, q, k, d) && product_is(
            d,
            scale,
            p[t2],
        );
    lemma_dot_value(val, hs as nat, zero, q, k, d);
    lemma_sum_same(
        hs as nat,
        |i: int| times(val(q[i]), val(k[i])),
        |i: int|
            times(
                val(inp[packed_place(bi, ti, 0, h, i, t, nh, hs)]),
                val(inp[packed_place(bi, t2, 1, h, i, t, nh, hs)]),
            ),
    );
    assert(val(p[t2]) == times(val(d), val(scale)));
}

/// The weights of one position.
proof fn lemma_weight_at<F: Scalar>(
    val: spec_fn(F) -> real,
    ex: spec_fn(real) -> real,
    pre: Seq<F>,
    att: Seq<F>,
    p: Seq<F>,
    a: Seq<F>,
    b: int,
    t: int,
    nh: int,
    bi: int,
    h: int,
    ti: int,
    t2: int,
)
    requires
        exact(val),
        exponential(val, ex),
        0 <= bi < b,
        0 <= h < nh,
        0 <= t2 <= ti < t,
        pre.len() == b * ((nh * t) * t),
        att.len() == b * ((nh * t) * t),
        p == head_row(row(pre, bi, (nh * t) * t), h, ti, t),
        a == head_row(row(att, bi, (nh * t) * t), h, ti, t),
        weights_are(p.subrange(0, ti + 1), a.subrange(0, ti + 1)),
    ensures
        times(
            val(att[score_place(bi, h, ti, t2, t, nh)]),
            sum_to(
                (ti + 1) as nat,
                |t3: int| ex(val(pre[score_place(bi, h, ti, t3, t, nh)])),
            ),
        ) == ex(val(pre[score_place(bi, h, ti, t2, t, nh)])),
{
    lemma_score_at(pre, b, bi, h, ti, t, nh);
    lemma_score_at(att, b, bi, h, ti, t, nh);
    let x = p.subrange(0, ti + 1);
    let y = a.subrange(0, ti + 1);
    let (m, e, s, inv) = choose|m: F, e: Seq<F>, s: F, inv: F|
        #[trigger] peak_is(x, m) && #[trigger] shifted_exps_are(x, m, e) && #[trigger] total_is(
            e,
            s,
        ) && #[trigger] guarded_reciprocal_is(s, inv) && each_times_is(e, inv, y);
    lemma_weighed(val, ex, x, m, e, s, inv, y, t2);
    lemma_sum_same(
        (ti + 1) as nat,
        |k: int| ex(val(x[k])),
        |t3: int| ex(val(pre[score_place(bi, h, ti, t3, t, nh)])),
    );
    assert(y[t2] == att[score_place(bi, h, ti, t2, t, nh)]);
}

/// The output of one position.
proof fn lemma_mixed_at<F: Scalar>(
    val: spec_fn(F) -> real,
    inp: Seq<F>,
    mask: Option<Seq<F>>,
    b: int,
    t: int,
    nh: int,
    hs: int,
    out: Seq<F>,
    att: Seq<F>,
    bi: int,
    h: int,
    ti: int,
)
    requires
        exact(val),
        0 <= bi < b,
        0 <= h < nh,
        0 <= ti < t,
        0 <= hs,
        inp.len() == b * (t * packed(nh, hs)),
        out.len() == b * (t * (nh * hs)),
        att.len() == b * ((nh * t) * t),
        mask matches Some(m) ==> m.len() == b * ((nh * t) * t),
        mixes_is(
            row(inp, bi, t * packed(nh, hs)),
            head_row(row(att, bi, (nh * t) * t), h, ti, t),
            mask_row(mask_batch(mask, bi, (nh * t) * t), h, ti, t),
            nh,
            hs,
            h,
            ti,
            out_head(row(out, bi, t * (nh * hs)), ti, h, nh, hs),
        ),
    ensures
        mixed_at(val, inp, mask, att, out, t, nh, hs, bi, h, ti),
{
    let x = row(inp, bi, t * packed(nh, hs));
    let a = head_row(row(att, bi, (nh * t) * t), h, ti, t);
    let m = mask_row(mask_batch(mask, bi, (nh * t) * t), h, ti, t);
    let o = out_head(row(out, bi, t * (nh * hs)), ti, h, nh, hs);
    lemma_score_at(att, b, bi, h, ti, t, nh);
    lemma_out_at(out, b, bi, ti, h, t, nh, hs);
    if let Some(mm) = mask {
        lemma_score_at(mm, b, bi, h, ti, t, nh);
    }
    let ws = choose|ws: Seq<F>| #[trigger]
        kept_weights_are(a, m, ti, ws) && o.len() == hs && forall|i: int|
            0 <= i < hs ==> weighted_sum_is(
                ws,
                value_channel(x, ti + 1, h, nh, hs, i),
                #[trigger] o[i],
            );
    let n = (ti + 1) as nat;
    assert forall|i: int| 0 <= i < hs implies val(
        #[trigger] out[out_place(bi, ti, h, i, t, nh, hs)],
    ) == sum_to(
        n,
        |t2: int|
            times(
                times(
                    val(att[score_place(bi, h, ti, t2, t, nh)]),
                    keep_at(val, mask, score_place(bi, h, ti, t2, t, nh)),
                ),
                val(inp[packed_place(bi, t2, 2, h, i, t, nh, hs)]),
            ),
    ) by {
        let v = value_channel(x, ti + 1, h, nh, hs, i);
        assert(o[i] == out[out_place(bi, ti, h, i, t, nh, hs)]);
        assert(weighted_sum_is(ws, v, o[i]));
        let zero = choose|zero: F| #[trigger] is_zero(zero) && dot_from_is(zero, ws, v, o[i]);
        lemma_dot_value(val, n, zero, ws, v, o[i]);
        let f = |t2: int| times(val(ws[t2]), val(v[t2]));
        let g = |t2: int|
            times(
                times(
                    val(att[score_place(bi, h, ti, t2, t, nh)]),
                    keep_at(val, mask, score_place(bi, h, ti, t2, t, nh)),
                ),
                val(inp[packed_place(bi, t2, 2, h, i, t, nh, hs)]),
            );
        assert forall|t2: int| 0 <= t2 < n implies #[trigger] f(t2) == g(t2) by {
            lemma_head_at(inp, b, bi, t2, 2, h, t, nh, hs);
            let p = score_place(bi, h, ti, t2, t, nh);
            assert(a[t2] == att[p]);
            let w = val(att[p]);
            match mask {
                Some(mm) => {
                    assert(m->Some_0[t2] == mm[p]);
                    assert(product_is(a[t2], m->Some_0[t2], ws[t2]));
                    assert(val(ws[t2]) == times(val(att[p]), keep_at(val, mask, p)));
                },
                None => {
                    assert(ws[t2] == a[t2]);
                    assert(w * 1 as real == w) by (nonlinear_arith);
                    assert(val(ws[t2]) == times(val(att[p]), keep_at(val, mask, p)));
                },
            }
            assert(v[t2] == inp[packed_place(bi, t2, 2, h, i, t, nh, hs)]);
        }
        lemma_sum_same(n, f, g);
        lemma_sum_same(n, f, |t2: int| times(val(ws[t2]), val(v[t2])));
        lemma_sum_same(
            n,
            g,
            |t2: int|
                times(
                    times(
                        val(att[score_place(bi, h, ti, t2, t, nh)]),
                        keep_at(val, mask, score_place(bi, h, ti, t2, t, nh)),
                    ),
                    val(inp[packed_place(bi, t2, 2, h, i, t, nh, hs)]),
                ),
        );
    }
}

/// What the attention computes for head `h` of token `ti` of batch row `bi`: its
/// scores, its weights and its output.
pub proof fn lemma_attention_values<F: Scalar>(
    val: spec_fn(F) -> real,
    ex: spec_fn(real) -> real,
    inp: Seq<F>,
    mask: Option<Seq<F>>,
    b: int,
    t: int,
    nh: int,
    hs: int,
    out: Seq<F>,
    pre: Seq<F>,
    att: Seq<F>,
    bi: int,
    h: int,
    ti: int,
)
    requires
        exact(val),
        exact_roots(val),
        exponential(val, ex),
        0 <= bi < b,
        0 <= h < nh,
        0 <= ti < t,
        0 < hs <= usize::MAX,
        inp.len() == b * (t * packed(nh, hs)),
        mask matches Some(m) ==> m.len() == b * ((nh * t) * t),
        attention_is(inp, mask, b, t, nh, hs, out, pre, att),
    ensures
        exists|s: real| #[trigger]
            weights_at(val, ex, s, inp, pre, att, t, nh, hs, bi, h, ti) && s > 0 as real && (s * s)
                * (hs as real) == 1 as real,
        mixed_at(val, inp, mask, att, out, t, nh, hs, bi, h, ti),
{
    reveal(attention_is);
    let scale = choose|scale: F| #[trigger]
        scale_is(hs, scale) && attention_scaled_is(inp, mask, scale, b, t, nh, hs, out, pre, att);
    lemma_scale_value(val, hs, scale);
    let x = row(inp, bi, t * packed(nh, hs));
    let p = head_row(row(pre, bi, (nh * t) * t), h, ti, t);
    let a = head_row(row(att, bi, (nh * t) * t), h, ti, t);
    let o = out_head(row(out, bi, t * (nh * hs)), ti, h, nh, hs);
    assert(attends_is(x, scale, t, nh, hs, h, ti, p, a));
    assert(mixes_is(
        x,
        a,
        mask_row(mask_batch(mask, bi, (nh * t) * t), h, ti, t),
        nh,
        hs,
        h,
        ti,
        o,
    ));
    lemma_score_at(pre, b, bi, h, ti, t, nh);
    lemma_score_at(att, b, bi, h, ti, t, nh);
    assert forall|t2: int| 0 <= t2 <= ti implies val(
        #[trigger] pre[score_place(bi, h, ti, t2, t, nh)],
    ) == times(
        sum_to(
            hs as nat,
            |i: int|
                times(
                    val(inp[packed_place(bi, ti, 0, h, i, t, nh, hs)]),
                    val(inp[packed_place(bi, t2, 1, h, i, t, nh, hs)]),
                ),
        ),
        val(scale),
    ) by {
        lemma_scores_at(val, inp, scale, b, t, nh, hs, pre, att, bi, h, ti, t2);
    }
    assert forall|t2: int| 0 <= t2 <= ti implies times(
        val(#[trigger] att[score_place(bi, h, ti, t2, t, nh)]),
        sum_to((ti + 1) as nat, |t3: int| ex(val(pre[score_place(bi, h, ti, t3, t, nh)]))),
    ) == ex(val(pre[score_place(bi, h, ti, t2, t, nh)])) by {
        lemma_weight_at(val, ex, pre, att, p, a, b, t, nh, bi, h, ti, t2);
    }
    assert forall|t2: int| ti < t2 < t implies val(
        #[trigger] att[score_place(bi, h, ti, t2, t, nh)],
    ) == 0 as real by {
        assert(is_zero(a[t2]));
    }
    assert forall|t2: int| ti < t2 < t implies val(
        #[trigger] pre[score_place(bi, h, ti, t2, t, nh)],
    ) == 0 as real by {
        assert(is_zero(p[t2]));
    }
    assert(weights_at(val, ex, val(scale), inp, pre, att, t, nh, hs, bi, h, ti));
    lemma_mixed_at(val, inp, mask, b, t, nh, hs, out, att, bi, h, ti);
}

} // verus!
