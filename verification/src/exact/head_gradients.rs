//! What the backward of the attention computes where the arithmetic is exact.

use vstd::prelude::*;

use crate::arena::row;
use crate::exact::exact;
use crate::exact::attention::{lemma_score_gradient_value, slope};
use crate::exact::heads::{
    keep_at, lemma_head_at, lemma_out_at, lemma_scale_value, lemma_score_at, out_place,
    packed_place, score_place,
};
use crate::exact::power::exact_roots;
use crate::ops::attention::{head, head_row, mask_batch, mask_row, out_head, packed, scale_is};
use crate::ops::attention_backward::{
    attends_gradient_is, attends_gradient_with, attention_gradient_batch_is, attention_gradient_is,
    attention_gradient_scaled_is, attention_gradient_with, channel, keep_factors_are, later,
    out_channel, part_gradient_is, score_steps, weight_gradient_at,
};
use crate::ops::pointwise::each_times_is;
use crate::scalar::{dot_from_is, fold_is, is_one, product_is, Scalar};
use crate::sums::{lemma_dot_value, lemma_sum_same, sum_to, times};

verus! {

/// The gradients of the weights and scores of head `h` of token `ti` of batch row
/// `bi`. That of the weight on an earlier position is what was there plus the
/// product of that position's values with the output gradient, all times the
/// keep factor. That of a score adds, over the weights, `w * (1 - w)` at the same
/// position or `-w * w'` at another, times the gradient of the weight.
pub open spec fn score_gradients_at<F>(
    val: spec_fn(F) -> real,
    inp: Seq<F>,
    mask: Option<Seq<F>>,
    att: Seq<F>,
    dout: Seq<F>,
    old_d: (Seq<F>, Seq<F>, Seq<F>),
    new_d: (Seq<F>, Seq<F>, Seq<F>),
    t: int,
    nh: int,
    hs: int,
    bi: int,
    h: int,
    ti: int,
) -> bool {
    &&& forall|t2: int|
        0 <= t2 < t ==> val(#[trigger] new_d.2[score_place(bi, h, ti, t2, t, nh)]) == if t2 <= ti {
            times(
                val(old_d.2[score_place(bi, h, ti, t2, t, nh)]) + sum_to(
                    hs as nat,
                    |i: int|
                        times(
                            val(inp[packed_place(bi, t2, 2, h, i, t, nh, hs)]),
                            val(dout[out_place(bi, ti, h, i, t, nh, hs)]),
                        ),
                ),
                keep_at(val, mask, score_place(bi, h, ti, t2, t, nh)),
            )
        } else {
            val(old_d.2[score_place(bi, h, ti, t2, t, nh)])
        }
    &&& forall|t3: int|
        0 <= t3 < t ==> val(#[trigger] new_d.1[score_place(bi, h, ti, t3, t, nh)]) == val(
            old_d.1[score_place(bi, h, ti, t3, t, nh)],
        ) + if t3 <= ti {
            sum_to(
                (ti + 1) as nat,
                |t2: int|
                    times(
                        times(
                            val(att[score_place(bi, h, ti, t2, t, nh)]),
                            (if t2 == t3 {
                                1 as real
                            } else {
                                0 as real
                            }) - val(att[score_place(bi, h, ti, t3, t, nh)]),
                        ),
                        val(new_d.2[score_place(bi, h, ti, t2, t, nh)]),
                    ),
            )
        } else {
            0 as real
        }
}

/// The gradients of the query, the key and the values of head `h` at position
/// `u`, with the scale `s`: the query's adds the keys up to `u`, each times its
/// score gradient; the key's the queries from `u` on, each times its score
/// gradient; the values' the output gradients from `u` on, each times the weight
/// on `u` and its keep factor.
pub open spec fn packed_gradients_at<F>(
    val: spec_fn(F) -> real,
    s: real,
    inp: Seq<F>,
    mask: Option<Seq<F>>,
    att: Seq<F>,
    dout: Seq<F>,
    old_d: (Seq<F>, Seq<F>, Seq<F>),
    new_d: (Seq<F>, Seq<F>, Seq<F>),
    t: int,
    nh: int,
    hs: int,
    bi: int,
    h: int,
    u: int,
) -> bool {
    &&& forall|i: int|
        0 <= i < hs ==> val(#[trigger] new_d.0[packed_place(bi, u, 0, h, i, t, nh, hs)]) == val(
            old_d.0[packed_place(bi, u, 0, h, i, t, nh, hs)],
        ) + sum_to(
            (u + 1) as nat,
            |t2: int|
                times(
                    val(inp[packed_place(bi, t2, 1, h, i, t, nh, hs)]),
                    times(val(new_d.1[score_place(bi, h, u, t2, t, nh)]), s),
                ),
        )
    &&& forall|i: int|
        0 <= i < hs ==> val(#[trigger] new_d.0[packed_place(bi, u, 1, h, i, t, nh, hs)]) == val(
            old_d.0[packed_place(bi, u, 1, h, i, t, nh, hs)],
        ) + sum_to(
            (t - u) as nat,
            |k: int|
                times(
                    val(inp[packed_place(bi, u + k, 0, h, i, t, nh, hs)]),
                    times(val(new_d.1[score_place(bi, h, u + k, u, t, nh)]), s),
                ),
        )
    &&& forall|i: int|
        0 <= i < hs ==> val(#[trigger] new_d.0[packed_place(bi, u, 2, h, i, t, nh, hs)]) == val(
            old_d.0[packed_place(bi, u, 2, h, i, t, nh, hs)],
        ) + sum_to(
            (t - u) as nat,
            |k: int|
                times(
                    times(
                        val(att[score_place(bi, h, u + k, u, t, nh)]),
                        keep_at(val, mask, score_place(bi, h, u + k, u, t, nh)),
                    ),
                    val(dout[out_place(bi, u + k, h, i, t, nh, hs)]),
                ),
        )
}

/// All tensors have the sizes of the shape.
pub open spec fn attention_sizes<F>(
    inp: Seq<F>,
    mask: Option<Seq<F>>,
    att: Seq<F>,
    dout: Seq<F>,
    old_d: (Seq<F>, Seq<F>, Seq<F>),
    b: int,
    t: int,
    nh: int,
    hs: int,
) -> bool {
    &&& inp.len() == b * (t * packed(nh, hs))
    &&& att.len() == b * ((nh * t) * t)
    &&& mask matches Some(m) ==> m.len() == b * ((nh * t) * t)
    &&& dout.len() == b * (t * (nh * hs))
    &&& old_d.0.len() == b * (t * packed(nh, hs))
    &&& old_d.1.len() == b * ((nh * t) * t)
    &&& old_d.2.len() == b * ((nh * t) * t)
}

/// What the backward pass says of one position of one head, with its keep
/// factors.
proof fn gradient_row<F: Scalar>(
    inp: Seq<F>,
    att: Seq<F>,
    mask: Option<Seq<F>>,
    dout: Seq<F>,
    scale: F,
    t: int,
    nh: int,
    hs: int,
    old_d: (Seq<F>, Seq<F>, Seq<F>),
    new_d: (Seq<F>, Seq<F>, Seq<F>),
    kept: Seq<Seq<F>>,
    dpres: Seq<Seq<F>>,
    h: int,
    ti: int,
) -> (f: Seq<F>)
    requires
        0 <= h < nh,
        0 <= ti < t,
        attention_gradient_with(
            inp,
            att,
            mask,
            dout,
            scale,
            t,
            nh,
            hs,
            old_d,
            new_d,
            kept,
            dpres,
        ),
    ensures
        keep_factors_are(mask_row(mask, h, ti, t), ti, f),
        attends_gradient_with(
            inp,
            head_row(att, h, ti, t),
            f,
            dout,
            scale,
            t,
            nh,
            hs,
            h,
            ti,
            head_row(old_d.2, h, ti, t),
            head_row(new_d.2, h, ti, t),
            head_row(old_d.1, h, ti, t),
            head_row(new_d.1, h, ti, t),
            kept[h * t + ti],
            dpres[h * t + ti],
        ),
{
    let a = head_row(att, h, ti, t);
    let o = head_row(old_d.1, h, ti, t);
    let n = head_row(new_d.1, h, ti, t);
    let g = head_row(new_d.2, h, ti, t);
    let og = head_row(old_d.2, h, ti, t);
    let m = mask_row(mask, h, ti, t);
    let ws = kept[h * t + ti];
    let dpre = dpres[h * t + ti];
    assert(attends_gradient_is(inp, a, m, dout, scale, t, nh, hs, h, ti, og, g, o, n, ws, dpre));
    choose|f: Seq<F>| #[trigger]
        keep_factors_are(m, ti, f) && attends_gradient_with(
            inp,
            a,
            f,
            dout,
            scale,
            t,
            nh,
            hs,
            h,
            ti,
            og,
            g,
            o,
            n,
            ws,
            dpre,
        )
}

/// A keep factor of the backward pass, as a number.
proof fn lemma_factor_value<F: Scalar>(
    val: spec_fn(F) -> real,
    mask: Option<Seq<F>>,
    b: int,
    t: int,
    nh: int,
    bi: int,
    h: int,
    ti: int,
    f: Seq<F>,
    t2: int,
)
    requires
        exact(val),
        0 <= bi < b,
        0 <= h < nh,
        0 <= t2 <= ti < t,
        mask matches Some(m) ==> m.len() == b * ((nh * t) * t),
        keep_factors_are(mask_row(mask_batch(mask, bi, (nh * t) * t), h, ti, t), ti, f),
    ensures
        val(f[t2]) == keep_at(val, mask, score_place(bi, h, ti, t2, t, nh)),
{
    if let Some(m) = mask {
        lemma_score_at(m, b, bi, h, ti, t, nh);
        assert(f[t2] == head_row(row(m, bi, (nh * t) * t), h, ti, t)[t2]);
    } else {
        assert(is_one(f[t2]));
    }
}

/// The gradients of the weights and the scores.
proof fn lemma_score_gradients<F: Scalar>(
    val: spec_fn(F) -> real,
    inp: Seq<F>,
    mask: Option<Seq<F>>,
    scale: F,
    b: int,
    t: int,
    nh: int,
    hs: int,
    att: Seq<F>,
    dout: Seq<F>,
    old_d: (Seq<F>, Seq<F>, Seq<F>),
    new_d: (Seq<F>, Seq<F>, Seq<F>),
    kept: Seq<Seq<F>>,
    dpres: Seq<Seq<F>>,
    bi: int,
    h: int,
    ti: int,
)
    requires
        exact(val),
        0 <= bi < b,
        0 <= h < nh,
        0 <= ti < t,
        0 <= hs,
        attention_sizes(inp, mask, att, dout, old_d, b, t, nh, hs),
        new_d.1.len() == b * ((nh * t) * t),
        new_d.2.len() == b * ((nh * t) * t),
        attention_gradient_with(
            row(inp, bi, t * packed(nh, hs)),
            row(att, bi, (nh * t) * t),
            mask_batch(mask, bi, (nh * t) * t),
            row(dout, bi, t * (nh * hs)),
            scale,
            t,
            nh,
            hs,
            (
                row(old_d.0, bi, t * packed(nh, hs)),
                row(old_d.1, bi, (nh * t) * t),
                row(old_d.2, bi, (nh * t) * t),
            ),
            (
                row(new_d.0, bi, t * packed(nh, hs)),
                row(new_d.1, bi, (nh * t) * t),
                row(new_d.2, bi, (nh * t) * t),
            ),
            kept,
            dpres,
        ),
    ensures
        score_gradients_at(val, inp, mask, att, dout, old_d, new_d, t, nh, hs, bi, h, ti),
{
    let (ci, ca, co) = (t * packed(nh, hs), (nh * t) * t, t * (nh * hs));
    let x = row(inp, bi, ci);
    let m = mask_batch(mask, bi, ca);
    let d = row(dout, bi, co);
    let ob = (row(old_d.0, bi, ci), row(old_d.1, bi, ca), row(old_d.2, bi, ca));
    let nb = (row(new_d.0, bi, ci), row(new_d.1, bi, ca), row(new_d.2, bi, ca));
    let a = head_row(row(att, bi, ca), h, ti, t);
    let (og, g) = (head_row(ob.2, h, ti, t), head_row(nb.2, h, ti, t));
    let (o, n) = (head_row(ob.1, h, ti, t), head_row(nb.1, h, ti, t));
    let f = gradient_row(x, row(att, bi, ca), m, d, scale, t, nh, hs, ob, nb, kept, dpres, h, ti);
    lemma_score_at(att, b, bi, h, ti, t, nh);
    lemma_score_at(old_d.1, b, bi, h, ti, t, nh);
    lemma_score_at(old_d.2, b, bi, h, ti, t, nh);
    lemma_score_at(new_d.1, b, bi, h, ti, t, nh);
    lemma_score_at(new_d.2, b, bi, h, ti, t, nh);
    lemma_out_at(dout, b, bi, ti, h, t, nh, hs);
    let k = hs as nat;
    assert forall|t2: int| 0 <= t2 < t implies val(
        #[trigger] new_d.2[score_place(bi, h, ti, t2, t, nh)],
    ) == if t2 <= ti {
        times(
            val(old_d.2[score_place(bi, h, ti, t2, t, nh)]) + sum_to(
                k,
                |i: int|
                    times(
                        val(inp[packed_place(bi, t2, 2, h, i, t, nh, hs)]),
                        val(dout[out_place(bi, ti, h, i, t, nh, hs)]),
                    ),
            ),
            keep_at(val, mask, score_place(bi, h, ti, t2, t, nh)),
        )
    } else {
        val(old_d.2[score_place(bi, h, ti, t2, t, nh)])
    } by {
        assert(g[t2] == new_d.2[score_place(bi, h, ti, t2, t, nh)]);
        assert(og[t2] == old_d.2[score_place(bi, h, ti, t2, t, nh)]);
        if t2 <= ti {
            let v = head(x, t2, 2, h, nh, hs);
            let dh = out_head(d, ti, h, nh, hs);
            lemma_head_at(inp, b, bi, t2, 2, h, t, nh, hs);
            assert(weight_gradient_at(v, dh, f[t2], og[t2], g[t2]));
            let w = choose|w: F| #[trigger] dot_from_is(og[t2], v, dh, w) && product_is(
                w,
                f[t2],
                g[t2],
            );
            lemma_dot_value(val, k, og[t2], v, dh, w);
            lemma_sum_same(
                k,
                |i: int| times(val(v[i]), val(dh[i])),
                |i: int|
                    times(
                        val(inp[packed_place(bi, t2, 2, h, i, t, nh, hs)]),
                        val(dout[out_place(bi, ti, h, i, t, nh, hs)]),
                    ),
            );
            lemma_factor_value(val, mask, b, t, nh, bi, h, ti, f, t2);
            assert(val(g[t2]) == times(val(w), val(f[t2])));
        }
    }
    let c = (ti + 1) as nat;
    assert forall|t3: int| 0 <= t3 < t implies val(
        #[trigger] new_d.1[score_place(bi, h, ti, t3, t, nh)],
    ) == val(old_d.1[score_place(bi, h, ti, t3, t, nh)]) + if t3 <= ti {
        sum_to(
            c,
            |t2: int|
                times(
                    times(
                        val(att[score_place(bi, h, ti, t2, t, nh)]),
                        (if t2 == t3 {
                            1 as real
                        } else {
                            0 as real
                        }) - val(att[score_place(bi, h, ti, t3, t, nh)]),
                    ),
                    val(new_d.2[score_place(bi, h, ti, t2, t, nh)]),
                ),
        )
    } else {
        0 as real
    } by {
        assert(n[t3] == new_d.1[score_place(bi, h, ti, t3, t, nh)]);
        assert(o[t3] == old_d.1[score_place(bi, h, ti, t3, t, nh)]);
        if t3 <= ti {
            assert(fold_is(c, o[t3], score_steps(a, g, t3), n[t3]));
            lemma_score_gradient_value(val, c, o[t3], a, g, t3, n[t3]);
            let p = |t2: int| times(slope(val, a, t2, t3), val(g[t2]));
            let q = |t2: int|
                times(
                    times(
                        val(att[score_place(bi, h, ti, t2, t, nh)]),
                        (if t2 == t3 {
                            1 as real
                        } else {
                            0 as real
                        }) - val(att[score_place(bi, h, ti, t3, t, nh)]),
                    ),
                    val(new_d.2[score_place(bi, h, ti, t2, t, nh)]),
                );
            assert forall|t2: int| 0 <= t2 < c implies #[trigger] p(t2) == q(t2) by {
                assert(a[t2] == att[score_place(bi, h, ti, t2, t, nh)]);
                assert(a[t3] == att[score_place(bi, h, ti, t3, t, nh)]);
                assert(g[t2] == new_d.2[score_place(bi, h, ti, t2, t, nh)]);
            }
            lemma_sum_same(c, p, q);
            lemma_sum_same(c, p, |t2: int| times(slope(val, a, t2, t3), val(g[t2])));
        }
    }
}

/// Score gradient `t2` of position `ti`, times the scale.
proof fn lemma_scaled_score<F: Scalar>(
    val: spec_fn(F) -> real,
    scale: F,
    b: int,
    t: int,
    nh: int,
    dpreatt: Seq<F>,
    dpre: Seq<F>,
    bi: int,
    h: int,
    ti: int,
    t2: int,
)
    requires
        exact(val),
        0 <= bi < b,
        0 <= h < nh,
        0 <= t2 <= ti < t,
        dpreatt.len() == b * ((nh * t) * t),
        each_times_is(
            head_row(row(dpreatt, bi, (nh * t) * t), h, ti, t).subrange(0, ti + 1),
            scale,
            dpre,
        ),
    ensures
        dpre.len() == ti + 1,
        val(dpre[t2]) == times(val(dpreatt[score_place(bi, h, ti, t2, t, nh)]), val(scale)),
{
    lemma_score_at(dpreatt, b, bi, h, ti, t, nh);
    let seen = head_row(row(dpreatt, bi, (nh * t) * t), h, ti, t).subrange(0, ti + 1);
    assert(product_is(seen[t2], scale, dpre[t2]));
}

/// The gradients of queries, keys and values.
proof fn lemma_packed_gradients<F: Scalar>(
    val: spec_fn(F) -> real,
    inp: Seq<F>,
    mask: Option<Seq<F>>,
    scale: F,
    b: int,
    t: int,
    nh: int,
    hs: int,
    att: Seq<F>,
    dout: Seq<F>,
    old_d: (Seq<F>, Seq<F>, Seq<F>),
    new_d: (Seq<F>, Seq<F>, Seq<F>),
    kept: Seq<Seq<F>>,
    dpres: Seq<Seq<F>>,
    bi: int,
    h: int,
    u: int,
)
    requires
        exact(val),
        0 <= bi < b,
        0 <= h < nh,
        0 <= u < t,
        0 <= hs,
        attention_sizes(inp, mask, att, dout, old_d, b, t, nh, hs),
        new_d.0.len() == b * (t * packed(nh, hs)),
        new_d.1.len() == b * ((nh * t) * t),
        attention_gradient_with(
            row(inp, bi, t * packed(nh, hs)),
            row(att, bi, (nh * t) * t),
            mask_batch(mask, bi, (nh * t) * t),
            row(dout, bi, t * (nh * hs)),
            scale,
            t,
            nh,
            hs,
            (
                row(old_d.0, bi, t * packed(nh, hs)),
                row(old_d.1, bi, (nh * t) * t),
                row(old_d.2, bi, (nh * t) * t),
            ),
            (
                row(new_d.0, bi, t * packed(nh, hs)),
                row(new_d.1, bi, (nh * t) * t),
                row(new_d.2, bi, (nh * t) * t),
            ),
            kept,
            dpres,
        ),
    ensures
        packed_gradients_at(
            val,
            val(scale),
            inp,
            mask,
            att,
            dout,
            old_d,
            new_d,
            t,
            nh,
            hs,
            bi,
            h,
            u,
        ),
{
    let (ci, ca, co) = (t * packed(nh, hs), (nh * t) * t, t * (nh * hs));
    let x = row(inp, bi, ci);
    let m = mask_batch(mask, bi, ca);
    let d = row(dout, bi, co);
    let ab = row(att, bi, ca);
    let ob = (row(old_d.0, bi, ci), row(old_d.1, bi, ca), row(old_d.2, bi, ca));
    let nb = (row(new_d.0, bi, ci), row(new_d.1, bi, ca), row(new_d.2, bi, ca));
    let s = val(scale);
    assert forall|part: int| 0 <= part < 3 implies #[trigger] part_gradient_is(
        x,
        d,
        kept,
        dpres,
        t,
        nh,
        hs,
        part,
        h,
        u,
        head(ob.0, u, part, h, nh, hs),
        head(nb.0, u, part, h, nh, hs),
    ) by {}
    lemma_head_at(old_d.0, b, bi, u, 0, h, t, nh, hs);
    lemma_head_at(old_d.0, b, bi, u, 1, h, t, nh, hs);
    lemma_head_at(old_d.0, b, bi, u, 2, h, t, nh, hs);
    lemma_head_at(new_d.0, b, bi, u, 0, h, t, nh, hs);
    lemma_head_at(new_d.0, b, bi, u, 1, h, t, nh, hs);
    lemma_head_at(new_d.0, b, bi, u, 2, h, t, nh, hs);
    let (oq, nq) = (head(ob.0, u, 0, h, nh, hs), head(nb.0, u, 0, h, nh, hs));
    let (ok, nk) = (head(ob.0, u, 1, h, nh, hs), head(nb.0, u, 1, h, nh, hs));
    let (ov, nv) = (head(ob.0, u, 2, h, nh, hs), head(nb.0, u, 2, h, nh, hs));
    assert(part_gradient_is(x, d, kept, dpres, t, nh, hs, 0, h, u, oq, nq));
    assert(part_gradient_is(x, d, kept, dpres, t, nh, hs, 1, h, u, ok, nk));
    assert(part_gradient_is(x, d, kept, dpres, t, nh, hs, 2, h, u, ov, nv));
    let c = (u + 1) as nat;
    let r = (t - u) as nat;
    assert forall|i: int| 0 <= i < hs implies val(
        #[trigger] new_d.0[packed_place(bi, u, 0, h, i, t, nh, hs)],
    ) == val(old_d.0[packed_place(bi, u, 0, h, i, t, nh, hs)]) + sum_to(
        c,
        |t2: int|
            times(
                val(inp[packed_place(bi, t2, 1, h, i, t, nh, hs)]),
                times(val(new_d.1[score_place(bi, h, u, t2, t, nh)]), s),
            ),
    ) by {
        assert(nq[i] == new_d.0[packed_place(bi, u, 0, h, i, t, nh, hs)]);
        assert(oq[i] == old_d.0[packed_place(bi, u, 0, h, i, t, nh, hs)]);
        let p = channel(x, 0, u + 1, 1, h, nh, hs, i);
        let q = dpres[h * t + u];
        assert(dot_from_is(oq[i], p, q, nq[i]));
        lemma_dot_value(val, c, oq[i], p, q, nq[i]);
        let f = gradient_row(x, ab, m, d, scale, t, nh, hs, ob, nb, kept, dpres, h, u);
        let a1 = |t2: int| times(val(p[t2]), val(q[t2]));
        let a2 = |t2: int|
            times(
                val(inp[packed_place(bi, t2, 1, h, i, t, nh, hs)]),
                times(val(new_d.1[score_place(bi, h, u, t2, t, nh)]), s),
            );
        assert forall|t2: int| 0 <= t2 < c implies #[trigger] a1(t2) == a2(t2) by {
            lemma_head_at(inp, b, bi, t2, 1, h, t, nh, hs);
            lemma_scaled_score(val, scale, b, t, nh, new_d.1, q, bi, h, u, t2);
            assert(p[t2] == head(x, t2, 1, h, nh, hs)[i]);
        }
        lemma_sum_same(c, a1, a2);
        lemma_sum_same(c, a1, |t2: int| times(val(p[t2]), val(q[t2])));
    }
    assert forall|i: int| 0 <= i < hs implies val(
        #[trigger] new_d.0[packed_place(bi, u, 1, h, i, t, nh, hs)],
    ) == val(old_d.0[packed_place(bi, u, 1, h, i, t, nh, hs)]) + sum_to(
        r,
        |k: int|
            times(
                val(inp[packed_place(bi, u + k, 0, h, i, t, nh, hs)]),
                times(val(new_d.1[score_place(bi, h, u + k, u, t, nh)]), s),
            ),
    ) by {
        assert(nk[i] == new_d.0[packed_place(bi, u, 1, h, i, t, nh, hs)]);
        assert(ok[i] == old_d.0[packed_place(bi, u, 1, h, i, t, nh, hs)]);
        let p = channel(x, u, t - u, 0, h, nh, hs, i);
        let q = later(dpres, h, u, t);
        assert(dot_from_is(ok[i], p, q, nk[i]));
        lemma_dot_value(val, r, ok[i], p, q, nk[i]);
        let a1 = |k: int| times(val(p[k]), val(q[k]));
        let a2 = |k: int|
            times(
                val(inp[packed_place(bi, u + k, 0, h, i, t, nh, hs)]),
                times(val(new_d.1[score_place(bi, h, u + k, u, t, nh)]), s),
            );
        assert forall|k: int| 0 <= k < r implies #[trigger] a1(k) == a2(k) by {
            let ti = u + k;
            let f = gradient_row(x, ab, m, d, scale, t, nh, hs, ob, nb, kept, dpres, h, ti);
            lemma_head_at(inp, b, bi, ti, 0, h, t, nh, hs);
            lemma_scaled_score(val, scale, b, t, nh, new_d.1, dpres[h * t + ti], bi, h, ti, u);
            assert(p[k] == head(x, ti, 0, h, nh, hs)[i]);
            assert(q[k] == dpres[h * t + ti][u]);
        }
        lemma_sum_same(r, a1, a2);
        lemma_sum_same(r, a1, |k: int| times(val(p[k]), val(q[k])));
    }
    assert forall|i: int| 0 <= i < hs implies val(
        #[trigger] new_d.0[packed_place(bi, u, 2, h, i, t, nh, hs)],
    ) == val(old_d.0[packed_place(bi, u, 2, h, i, t, nh, hs)]) + sum_to(
        r,
        |k: int|
            times(
                times(
                    val(att[score_place(bi, h, u + k, u, t, nh)]),
                    keep_at(val, mask, score_place(bi, h, u + k, u, t, nh)),
                ),
                val(dout[out_place(bi, u + k, h, i, t, nh, hs)]),
            ),
    ) by {
        assert(nv[i] == new_d.0[packed_place(bi, u, 2, h, i, t, nh, hs)]);
        assert(ov[i] == old_d.0[packed_place(bi, u, 2, h, i, t, nh, hs)]);
        let p = later(kept, h, u, t);
        let q = out_channel(d, u, t - u, h, nh, hs, i);
        assert(dot_from_is(ov[i], p, q, nv[i]));
        lemma_dot_value(val, r, ov[i], p, q, nv[i]);
        let a1 = |k: int| times(val(p[k]), val(q[k]));
        let a2 = |k: int|
            times(
                times(
                    val(att[score_place(bi, h, u + k, u, t, nh)]),
                    keep_at(val, mask, score_place(bi, h, u + k, u, t, nh)),
                ),
                val(dout[out_place(bi, u + k, h, i, t, nh, hs)]),
            );
        assert forall|k: int| 0 <= k < r implies #[trigger] a1(k) == a2(k) by {
            let ti = u + k;
            let f = gradient_row(x, ab, m, d, scale, t, nh, hs, ob, nb, kept, dpres, h, ti);
            lemma_out_at(dout, b, bi, ti, h, t, nh, hs);
            lemma_score_at(att, b, bi, h, ti, t, nh);
            lemma_factor_value(val, mask, b, t, nh, bi, h, ti, f, u);
            let seen = head_row(ab, h, ti, t).subrange(0, ti + 1);
            assert(product_is(seen[u], f[u], kept[h * t + ti][u]));
            assert(seen[u] == att[score_place(bi, h, ti, u, t, nh)]);
            assert(p[k] == kept[h * t + ti][u]);
            assert(q[k] == out_head(d, ti, h, nh, hs)[i]);
            assert(val(p[k]) == times(val(seen[u]), val(f[u])));
        }
        lemma_sum_same(r, a1, a2);
        lemma_sum_same(r, a1, |k: int| times(val(p[k]), val(q[k])));
    }
}

/// What the backward of the attention computes for head `h` of token `ti` of
/// batch row `bi`: the gradients of its weights and scores, and those of its
/// query, key and values.
pub proof fn lemma_attention_gradient_values<F: Scalar>(
    val: spec_fn(F) -> real,
    inp: Seq<F>,
    mask: Option<Seq<F>>,
    att: Seq<F>,
    dout: Seq<F>,
    b: int,
    t: int,
    nh: int,
    hs: int,
    old_d: (Seq<F>, Seq<F>, Seq<F>),
    new_d: (Seq<F>, Seq<F>, Seq<F>),
    bi: int,
    h: int,
    ti: int,
)
    requires
        exact(val),
        exact_roots(val),
        0 <= bi < b,
        0 <= h < nh,
        0 <= ti < t,
        0 < hs <= usize::MAX,
        attention_sizes(inp, mask, att, dout, old_d, b, t, nh, hs),
        attention_gradient_is(inp, att, mask, dout, b, t, nh, hs, old_d, new_d),
    ensures
        score_gradients_at(val, inp, mask, att, dout, old_d, new_d, t, nh, hs, bi, h, ti),
        exists|s: real| #[trigger]
            packed_gradients_at(
                val,
                s,
                inp,
                mask,
                att,
                dout,
                old_d,
                new_d,
                t,
                nh,
                hs,
                bi,
                h,
                ti,
            ) && s > 0 as real && (s * s) * (hs as real) == 1 as real,
{
    reveal(attention_gradient_is);
    let scale = choose|scale: F| #[trigger]
        scale_is(hs, scale) && attention_gradient_scaled_is(
            inp,
            att,
            mask,
            dout,
            scale,
            b,
            t,
            nh,
            hs,
            old_d,
            new_d,
        );
    lemma_scale_value(val, hs, scale);
    let (ci, ca, co) = (t * packed(nh, hs), (nh * t) * t, t * (nh * hs));
    let x = row(inp, bi, ci);
    let m = mask_batch(mask, bi, ca);
    let d = row(dout, bi, co);
    let ab = row(att, bi, ca);
    let ob = (row(old_d.0, bi, ci), row(old_d.1, bi, ca), row(old_d.2, bi, ca));
    let nb = (row(new_d.0, bi, ci), row(new_d.1, bi, ca), row(new_d.2, bi, ca));
    assert(attention_gradient_batch_is(x, ab, m, d, scale, t, nh, hs, ob, nb));
    let (kept, dpres) = choose|kept: Seq<Seq<F>>, dpres: Seq<Seq<F>>| #[trigger]
        attention_gradient_with(x, ab, m, d, scale, t, nh, hs, ob, nb, kept, dpres);
    lemma_score_gradients(
        val,
        inp,
        mask,
        scale,
        b,
        t,
        nh,
        hs,
        att,
        dout,
        old_d,
        new_d,
        kept,
        dpres,
        bi,
        h,
        ti,
    );
    lemma_packed_gradients(
        val,
        inp,
        mask,
        scale,
        b,
        t,
        nh,
        hs,
        att,
        dout,
        old_d,
        new_d,
        kept,
        dpres,
        bi,
        h,
        ti,
    );
}

} // verus!
