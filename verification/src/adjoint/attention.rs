//! The attention is linear in its values, and its scores in the queries and in
//! the keys: the gradients of the three as adjoints.

use vstd::prelude::*;

use crate::arena::{lemma_row_bounds, row};
use crate::exact::exact;
use crate::layout::lemma_nonneg;
use crate::model::backward::all_zero;
use crate::model::unique::{lemma_reciprocal_unique, single_valued};
use crate::ops::attention::{
    attends_is, attention_batch_is, attention_is, attention_scaled_is, head, head_row,
    kept_weights_are, mask_batch, mask_row, mixes_is, out_head, packed, scale_is, score_is,
    value_channel, weighted_sum_is,
};
use crate::ops::attention_backward::{
    attends_gradient_is, attends_gradient_with, attention_gradient_batch_is, attention_gradient_is,
    attention_gradient_scaled_is, attention_gradient_with, channel, keep_factors_are,
    key_gradient_is, later, out_channel, part_gradient_is, query_gradient_is, value_gradient_is,
};
use crate::ops::loss::reciprocal_is;
use crate::ops::pointwise::{each_times_is, scaled_is};
use crate::scalar::{dot_from_is, is_one, is_zero, product_is, ratio_is, sqrt_is, Scalar};
use crate::sums::{
    inner, lemma_dot_value, lemma_sum_parts, lemma_sum_same, lemma_sum_swap, lemma_sum_zero,
    lemma_transpose, sum_to, times,
};

verus! {

/// The inner product of head `h` of part `part` of two packed tensors.
pub open spec fn heads_inner<F>(
    val: spec_fn(F) -> real,
    x: Seq<F>,
    y: Seq<F>,
    part: int,
    h: int,
    t: int,
    nh: int,
    hs: int,
) -> real {
    sum_to(
        t as nat,
        |u: int| inner(val, head(x, u, part, h, nh, hs), head(y, u, part, h, nh, hs)),
    )
}

/// The inner product of head `h` of two outputs.
pub open spec fn outs_inner<F>(
    val: spec_fn(F) -> real,
    x: Seq<F>,
    y: Seq<F>,
    h: int,
    t: int,
    nh: int,
    hs: int,
) -> real {
    sum_to(t as nat, |u: int| inner(val, out_head(x, u, h, nh, hs), out_head(y, u, h, nh, hs)))
}

/// The inner product of the rows of head `h` of two tensors of scores.
pub open spec fn scores_inner<F>(
    val: spec_fn(F) -> real,
    x: Seq<F>,
    y: Seq<F>,
    h: int,
    t: int,
) -> real {
    sum_to(t as nat, |u: int| inner(val, head_row(x, h, u, t), head_row(y, h, u, t)))
}

/// Entry `t2` of the row of head `h` and position `ti`, and zero behind the
/// position.
spec fn seen<F>(
    val: spec_fn(F) -> real,
    rows: Seq<Seq<F>>,
    h: int,
    t: int,
    ti: int,
    t2: int,
) -> real {
    if t2 <= ti {
        val(rows[h * t + ti][t2])
    } else {
        0 as real
    }
}

/// A sum over what position `ti` sees, as a sum over all positions.
proof fn lemma_seen_row<F>(
    val: spec_fn(F) -> real,
    rows: Seq<Seq<F>>,
    h: int,
    t: int,
    ti: int,
    x: spec_fn(int) -> real,
)
    requires
        0 <= ti < t,
    ensures
        sum_to((ti + 1) as nat, |t2: int| times(val(rows[h * t + ti][t2]), x(t2))) == sum_to(
            t as nat,
            |t2: int| times(seen(val, rows, h, t, ti, t2), x(t2)),
        ),
{
    let n = (ti + 1) as nat;
    let m = (t - ti - 1) as nat;
    let f = |t2: int| times(seen(val, rows, h, t, ti, t2), x(t2));
    lemma_sum_parts(n, m, f);
    let behind = |i: int| f(n + i);
    assert forall|i: int| 0 <= i < m implies #[trigger] behind(i) == 0 as real by {
        let q = x(n + i);
        assert(0 as real * q == 0 as real) by (nonlinear_arith);
    }
    lemma_sum_zero(m, behind);
    lemma_sum_same(n, f, |t2: int| times(val(rows[h * t + ti][t2]), x(t2)));
    lemma_sum_same(t as nat, f, |t2: int| times(seen(val, rows, h, t, ti, t2), x(t2)));
}

/// A sum over the positions that see `t2`, as a sum over all positions.
proof fn lemma_seen_column<F>(
    val: spec_fn(F) -> real,
    rows: Seq<Seq<F>>,
    h: int,
    t: int,
    t2: int,
    d: spec_fn(int) -> real,
)
    requires
        0 <= t2 < t,
    ensures
        sum_to((t - t2) as nat, |u: int| times(val(later(rows, h, t2, t)[u]), d(t2 + u)))
            == sum_to(t as nat, |ti: int| times(seen(val, rows, h, t, ti, t2), d(ti))),
{
    let n = t2 as nat;
    let m = (t - t2) as nat;
    let f = |ti: int| times(seen(val, rows, h, t, ti, t2), d(ti));
    lemma_sum_parts(n, m, f);
    assert forall|i: int| 0 <= i < n implies #[trigger] f(i) == 0 as real by {
        let q = d(i);
        assert(0 as real * q == 0 as real) by (nonlinear_arith);
    }
    lemma_sum_zero(n, f);
    lemma_sum_same(
        m,
        |i: int| f(n + i),
        |u: int| times(val(later(rows, h, t2, t)[u]), d(t2 + u)),
    );
    lemma_sum_same(t as nat, f, |ti: int| times(seen(val, rows, h, t, ti, t2), d(ti)));
}

/// The sum over the positions in channel `i`.
spec fn over_positions(t: nat, f: spec_fn(int, int) -> real, i: int) -> real {
    sum_to(t, |u: int| f(u, i))
}

/// Sums that agree channel by channel agree in all.
proof fn lemma_by_channels(
    t: nat,
    hs: nat,
    f: spec_fn(int, int) -> real,
    g: spec_fn(int, int) -> real,
)
    requires
        forall|i: int|
            0 <= i < hs ==> #[trigger] over_positions(t, f, i) == over_positions(t, g, i),
    ensures
        sum_to(t, |u: int| sum_to(hs, |i: int| f(u, i))) == sum_to(
            t,
            |u: int| sum_to(hs, |i: int| g(u, i)),
        ),
{
    lemma_sum_swap(t, hs, f);
    lemma_sum_swap(t, hs, g);
    let fs = |i: int| sum_to(t, |u: int| f(u, i));
    let gs = |i: int| sum_to(t, |u: int| g(u, i));
    assert forall|i: int| 0 <= i < hs implies #[trigger] fs(i) == gs(i) by {
        assert(over_positions(t, f, i) == over_positions(t, g, i));
    }
    lemma_sum_same(hs, fs, gs);
}

/// Where head `h` of part `part` lies in a packed tensor.
proof fn lemma_head_place<F>(s: Seq<F>, u: int, part: int, h: int, t: int, nh: int, hs: int)
    requires
        0 <= u < t,
        0 <= part < 3,
        0 <= h < nh,
        0 <= hs,
        s.len() == t * packed(nh, hs),
    ensures
        head(s, u, part, h, nh, hs).len() == hs,
        forall|i: int|
            0 <= i < hs ==> #[trigger] head(s, u, part, h, nh, hs)[i] == s[u * packed(nh, hs) + (
            part * nh + h) * hs + i] && 0 <= u * packed(nh, hs) + (part * nh + h) * hs + i
                < s.len(),
{
    assert(0 <= part * nh + h < 3 * nh) by (nonlinear_arith)
        requires
            0 <= part < 3,
            0 <= h < nh,
    ;
    lemma_nonneg(3 * nh, hs);
    lemma_row_bounds(u, t, packed(nh, hs));
    lemma_row_bounds(part * nh + h, 3 * nh, hs);
}

/// The heads of a zero tensor are zero.
proof fn lemma_zero_head<F: Scalar>(s: Seq<F>, u: int, part: int, h: int, t: int, nh: int, hs: int)
    requires
        0 <= u < t,
        0 <= part < 3,
        0 <= h < nh,
        0 <= hs,
        s.len() == t * packed(nh, hs),
        all_zero(s),
    ensures
        all_zero(head(s, u, part, h, nh, hs)),
{
    lemma_head_place(s, u, part, h, t, nh, hs);
}

/// The weights that a position mixes its values by are those of the backward
/// pass.
proof fn lemma_same_weights<F: Scalar>(
    val: spec_fn(F) -> real,
    att: Seq<F>,
    mask: Option<Seq<F>>,
    ti: int,
    ws: Seq<F>,
    f: Seq<F>,
    kept: Seq<F>,
    t2: int,
)
    requires
        exact(val),
        0 <= t2 <= ti < att.len(),
        kept_weights_are(att, mask, ti, ws),
        keep_factors_are(mask, ti, f),
        scaled_is(att.subrange(0, ti + 1), f, kept),
    ensures
        val(ws[t2]) == val(kept[t2]),
{
    let a = val(att[t2]);
    assert(product_is(att.subrange(0, ti + 1)[t2], f[t2], kept[t2]));
    match mask {
        Some(m) => {
            assert(product_is(att[t2], m[t2], ws[t2]));
            assert(f[t2] == m[t2]);
        },
        None => {
            assert(is_one(f[t2]));
            assert(a * 1 as real == a) by (nonlinear_arith);
        },
    }
}

/// What the backward pass of one batch row says of head `h` at position `ti`,
/// with its keep factors.
proof fn gradient_at<F: Scalar>(
    inp: Seq<F>,
    att: Seq<F>,
    mask: Option<Seq<F>>,
    dout: Seq<F>,
    scale: F,
    t: int,
    nh: int,
    hs: int,
    old_d: (Seq<F>, Seq<F>, Seq<F>),
    new_d: (Seq<F>, Seq<F>, Seq<F>),
    kept: Seq<Seq<F>>,
    dpres: Seq<Seq<F>>,
    h: int,
    ti: int,
) -> (f: Seq<F>)
    requires
        0 <= h < nh,
        0 <= ti < t,
        attention_gradient_with(
            inp,
            att,
            mask,
            dout,
            scale,
            t,
            nh,
            hs,
            old_d,
            new_d,
            kept,
            dpres,
        ),
    ensures
        keep_factors_are(mask_row(mask, h, ti, t), ti, f),
        scaled_is(head_row(att, h, ti, t).subrange(0, ti + 1), f, kept[h * t + ti]),
        head_row(new_d.1, h, ti, t).len() == t,
        each_times_is(
            head_row(new_d.1, h, ti, t).subrange(0, ti + 1),
            scale,
            dpres[h * t + ti],
        ),
{
    let a = head_row(att, h, ti, t);
    let o = head_row(old_d.1, h, ti, t);
    let n = head_row(new_d.1, h, ti, t);
    let g = head_row(new_d.2, h, ti, t);
    let og = head_row(old_d.2, h, ti, t);
    let m = mask_row(mask, h, ti, t);
    let ws = kept[h * t + ti];
    let dpre = dpres[h * t + ti];
    assert(attends_gradient_is(inp, a, m, dout, scale, t, nh, hs, h, ti, og, g, o, n, ws, dpre));
    choose|f: Seq<F>| #[trigger]
        keep_factors_are(m, ti, f) && attends_gradient_with(
            inp,
            a,
            f,
            dout,
            scale,
            t,
            nh,
            hs,
            h,
            ti,
            og,
            g,
            o,
            n,
            ws,
            dpre,
        )
}

/// One channel of the output, as a sum over the values.
proof fn lemma_mixed_channel<F: Scalar>(
    val: spec_fn(F) -> real,
    inp: Seq<F>,
    mask: Option<Seq<F>>,
    scale: F,
    t: int,
    nh: int,
    hs: int,
    out: Seq<F>,
    pre: Seq<F>,
    att: Seq<F>,
    kept: Seq<Seq<F>>,
    f: Seq<F>,
    h: int,
    ti: int,
    i: int,
)
    requires
        exact(val),
        0 <= h < nh,
        0 <= ti < t,
        0 <= i < hs,
        attention_batch_is(inp, mask, scale, t, nh, hs, out, pre, att),
        keep_factors_are(mask_row(mask, h, ti, t), ti, f),
        scaled_is(head_row(att, h, ti, t).subrange(0, ti + 1), f, kept[h * t + ti]),
    ensures
        val(out_head(out, ti, h, nh, hs)[i]) == sum_to(
            t as nat,
            |t2: int|
                times(seen(val, kept, h, t, ti, t2), val(head(inp, t2, 2, h, nh, hs)[i])),
        ),
{
    let a = head_row(att, h, ti, t);
    let m = mask_row(mask, h, ti, t);
    let o = out_head(out, ti, h, nh, hs);
    let p = head_row(pre, h, ti, t);
    assert(attends_is(inp, scale, t, nh, hs, h, ti, p, a));
    assert(mixes_is(inp, a, m, nh, hs, h, ti, o));
    let ws = choose|ws: Seq<F>| #[trigger]
        kept_weights_are(a, m, ti, ws) && o.len() == hs && forall|i: int|
            0 <= i < hs ==> weighted_sum_is(
                ws,
                value_channel(inp, ti + 1, h, nh, hs, i),
                #[trigger] o[i],
            );
    let v = value_channel(inp, ti + 1, h, nh, hs, i);
    assert(weighted_sum_is(ws, v, o[i]));
    let zero = choose|zero: F| #[trigger] is_zero(zero) && dot_from_is(zero, ws, v, o[i]);
    let n = (ti + 1) as nat;
    lemma_dot_value(val, n, zero, ws, v, o[i]);
    let x = |t2: int| val(head(inp, t2, 2, h, nh, hs)[i]);
    let forward = |t2: int| times(val(ws[t2]), val(v[t2]));
    let backward = |t2: int| times(val(kept[h * t + ti][t2]), x(t2));
    assert forall|t2: int| 0 <= t2 < n implies #[trigger] forward(t2) == backward(t2) by {
        lemma_same_weights(val, a, m, ti, ws, f, kept[h * t + ti], t2);
    }
    lemma_sum_same(n, forward, backward);
    lemma_sum_same(n, forward, |i: int| times(val(ws[i]), val(v[i])));
    lemma_sum_same(n, backward, |t2: int| times(val(kept[h * t + ti][t2]), x(t2)));
    lemma_seen_row(val, kept, h, t, ti, x);
    lemma_sum_same(
        t as nat,
        |t2: int| times(seen(val, kept, h, t, ti, t2), x(t2)),
        |t2: int| times(seen(val, kept, h, t, ti, t2), val(head(inp, t2, 2, h, nh, hs)[i])),
    );
}

/// One channel of the value gradients, as a sum over the outputs.
proof fn lemma_value_channel<F: Scalar>(
    val: spec_fn(F) -> real,
    dout: Seq<F>,
    kept: Seq<Seq<F>>,
    t: int,
    nh: int,
    hs: int,
    h: int,
    t2: int,
    i: int,
    old_v: Seq<F>,
    new_v: Seq<F>,
)
    requires
        exact(val),
        0 <= t2 < t,
        0 <= i < hs,
        is_zero(old_v[i]),
        value_gradient_is(dout, kept, t, nh, hs, h, t2, old_v, new_v),
    ensures
        val(new_v[i]) == sum_to(
            t as nat,
            |ti: int|
                times(seen(val, kept, h, t, ti, t2), val(out_head(dout, ti, h, nh, hs)[i])),
        ),
{
    let x = later(kept, h, t2, t);
    let y = out_channel(dout, t2, t - t2, h, nh, hs, i);
    let n = (t - t2) as nat;
    let d = |ti: int| val(out_head(dout, ti, h, nh, hs)[i]);
    assert(dot_from_is(old_v[i], x, y, new_v[i]));
    lemma_dot_value(val, n, old_v[i], x, y, new_v[i]);
    lemma_sum_same(
        n,
        |u: int| times(val(x[u]), val(y[u])),
        |u: int| times(val(later(kept, h, t2, t)[u]), d(t2 + u)),
    );
    lemma_seen_column(val, kept, h, t, t2, d);
    lemma_sum_same(
        t as nat,
        |ti: int| times(seen(val, kept, h, t, ti, t2), d(ti)),
        |ti: int| times(seen(val, kept, h, t, ti, t2), val(out_head(dout, ti, h, nh, hs)[i])),
    );
}

/// The value gradient of one batch row, where the scores may have been scaled
/// by another number.
proof fn lemma_values_row<F: Scalar>(
    val: spec_fn(F) -> real,
    inp: Seq<F>,
    mask: Option<Seq<F>>,
    scale: F,
    other: F,
    t: int,
    nh: int,
    hs: int,
    out: Seq<F>,
    pre: Seq<F>,
    att: Seq<F>,
    dout: Seq<F>,
    old_d: (Seq<F>, Seq<F>, Seq<F>),
    new_d: (Seq<F>, Seq<F>, Seq<F>),
    h: int,
)
    requires
        exact(val),
        0 <= t,
        0 <= h < nh,
        0 <= hs,
        dout.len() == t * (nh * hs),
        old_d.0.len() == t * packed(nh, hs),
        all_zero(old_d.0),
        attention_batch_is(inp, mask, scale, t, nh, hs, out, pre, att),
        attention_gradient_batch_is(inp, att, mask, dout, other, t, nh, hs, old_d, new_d),
    ensures
        outs_inner(val, dout, out, h, t, nh, hs) == heads_inner(
            val,
            new_d.0,
            inp,
            2,
            h,
            t,
            nh,
            hs,
        ),
{
    let (kept, dpres) = choose|kept: Seq<Seq<F>>, dpres: Seq<Seq<F>>| #[trigger]
        attention_gradient_with(
            inp,
            att,
            mask,
            dout,
            other,
            t,
            nh,
            hs,
            old_d,
            new_d,
            kept,
            dpres,
        );
    let n = t as nat;
    let k = hs as nat;
    let by_out = |u: int, i: int|
        times(val(out_head(dout, u, h, nh, hs)[i]), val(out_head(out, u, h, nh, hs)[i]));
    let by_value = |u: int, i: int|
        times(val(head(new_d.0, u, 2, h, nh, hs)[i]), val(head(inp, u, 2, h, nh, hs)[i]));
    assert forall|i: int| 0 <= i < k implies #[trigger] over_positions(n, by_out, i)
        == over_positions(n, by_value, i) by {
        let wf = |ti: int, t2: int| seen(val, kept, h, t, ti, t2);
        let df = |ti: int| val(out_head(dout, ti, h, nh, hs)[i]);
        let xf = |t2: int| val(head(inp, t2, 2, h, nh, hs)[i]);
        let yf = |ti: int| val(out_head(out, ti, h, nh, hs)[i]);
        let gf = |t2: int| val(head(new_d.0, t2, 2, h, nh, hs)[i]);
        assert forall|ti: int| 0 <= ti < n implies #[trigger] yf(ti) == sum_to(
            n,
            |t2: int| times(wf(ti, t2), xf(t2)),
        ) by {
            let f = gradient_at(
                inp,
                att,
                mask,
                dout,
                other,
                t,
                nh,
                hs,
                old_d,
                new_d,
                kept,
                dpres,
                h,
                ti,
            );
            lemma_mixed_channel(
                val,
                inp,
                mask,
                scale,
                t,
                nh,
                hs,
                out,
                pre,
                att,
                kept,
                f,
                h,
                ti,
                i,
            );
            lemma_sum_same(
                n,
                |t2: int|
                    times(seen(val, kept, h, t, ti, t2), val(head(inp, t2, 2, h, nh, hs)[i])),
                |t2: int| times(wf(ti, t2), xf(t2)),
            );
        }
        assert forall|t2: int| 0 <= t2 < n implies #[trigger] gf(t2) == sum_to(
            n,
            |ti: int| times(wf(ti, t2), df(ti)),
        ) by {
            let o = head(old_d.0, t2, 2, h, nh, hs);
            let g = head(new_d.0, t2, 2, h, nh, hs);
            assert(part_gradient_is(inp, dout, kept, dpres, t, nh, hs, 2, h, t2, o, g));
            lemma_zero_head(old_d.0, t2, 2, h, t, nh, hs);
            lemma_head_place(old_d.0, t2, 2, h, t, nh, hs);
            lemma_value_channel(val, dout, kept, t, nh, hs, h, t2, i, o, g);
            lemma_sum_same(
                n,
                |ti: int|
                    times(seen(val, kept, h, t, ti, t2), val(out_head(dout, ti, h, nh, hs)[i])),
                |ti: int| times(wf(ti, t2), df(ti)),
            );
        }
        lemma_transpose(n, n, wf, df, xf, yf, gf);
        lemma_sum_same(n, |u: int| by_out(u, i), |ti: int| times(df(ti), yf(ti)));
        lemma_sum_same(n, |u: int| by_value(u, i), |t2: int| times(gf(t2), xf(t2)));
    }
    lemma_by_channels(n, k, by_out, by_value);
    let outs = |u: int| inner(val, out_head(dout, u, h, nh, hs), out_head(out, u, h, nh, hs));
    let outs_by = |u: int| sum_to(k, |i: int| by_out(u, i));
    assert forall|u: int| 0 <= u < n implies #[trigger] outs(u) == outs_by(u) by {
        let x = out_head(dout, u, h, nh, hs);
        let y = out_head(out, u, h, nh, hs);
        lemma_out_place(dout, u, h, t, nh, hs);
        lemma_sum_same(k, |i: int| times(val(x[i]), val(y[i])), |i: int| by_out(u, i));
    }
    lemma_sum_same(n, outs, outs_by);
    lemma_heads_by_channels(val, new_d.0, inp, 2, h, t, nh, hs, by_value);
}

/// The inner product of a head, channel by channel.
proof fn lemma_heads_by_channels<F>(
    val: spec_fn(F) -> real,
    x: Seq<F>,
    y: Seq<F>,
    part: int,
    h: int,
    t: int,
    nh: int,
    hs: int,
    f: spec_fn(int, int) -> real,
)
    requires
        0 <= t,
        0 <= part < 3,
        0 <= h < nh,
        0 <= hs,
        x.len() == t * packed(nh, hs),
        forall|u: int, i: int| #[trigger]
            f(u, i) == times(
                val(head(x, u, part, h, nh, hs)[i]),
                val(head(y, u, part, h, nh, hs)[i]),
            ),
    ensures
        heads_inner(val, x, y, part, h, t, nh, hs) == sum_to(
            t as nat,
            |u: int| sum_to(hs as nat, |i: int| f(u, i)),
        ),
{
    let heads = |u: int| inner(val, head(x, u, part, h, nh, hs), head(y, u, part, h, nh, hs));
    let channels = |u: int| sum_to(hs as nat, |i: int| f(u, i));
    assert forall|u: int| 0 <= u < t implies #[trigger] heads(u) == channels(u) by {
        let a = head(x, u, part, h, nh, hs);
        let b = head(y, u, part, h, nh, hs);
        lemma_head_place(x, u, part, h, t, nh, hs);
        lemma_sum_same(hs as nat, |i: int| times(val(a[i]), val(b[i])), |i: int| f(u, i));
    }
    lemma_sum_same(t as nat, heads, channels);
}

/// A head of an output has `hs` channels.
proof fn lemma_out_place<F>(s: Seq<F>, u: int, h: int, t: int, nh: int, hs: int)
    requires
        0 <= u < t,
        0 <= h < nh,
        0 <= hs,
        s.len() == t * (nh * hs),
    ensures
        out_head(s, u, h, nh, hs).len() == hs,
{
    lemma_nonneg(nh, hs);
    lemma_row_bounds(u, t, nh * hs);
    lemma_row_bounds(h, nh, hs);
}

/// One channel of the query gradient of a position, as a sum over the keys.
proof fn lemma_query_channel<F: Scalar>(
    val: spec_fn(F) -> real,
    inp: Seq<F>,
    dpres: Seq<Seq<F>>,
    t: int,
    nh: int,
    hs: int,
    h: int,
    ti: int,
    i: int,
    old_q: Seq<F>,
    new_q: Seq<F>,
)
    requires
        exact(val),
        0 <= ti < t,
        0 <= i < hs,
        is_zero(old_q[i]),
        query_gradient_is(inp, dpres[h * t + ti], nh, hs, h, ti, old_q, new_q),
    ensures
        val(new_q[i]) == sum_to(
            (ti + 1) as nat,
            |t2: int| times(val(dpres[h * t + ti][t2]), val(head(inp, t2, 1, h, nh, hs)[i])),
        ),
        val(new_q[i]) == sum_to(
            t as nat,
            |t2: int|
                times(seen(val, dpres, h, t, ti, t2), val(head(inp, t2, 1, h, nh, hs)[i])),
        ),
{
    let x = channel(inp, 0, ti + 1, 1, h, nh, hs, i);
    let y = dpres[h * t + ti];
    let n = (ti + 1) as nat;
    let k = |t2: int| val(head(inp, t2, 1, h, nh, hs)[i]);
    assert(dot_from_is(old_q[i], x, y, new_q[i]));
    lemma_dot_value(val, n, old_q[i], x, y, new_q[i]);
    let f = |t2: int| times(val(x[t2]), val(y[t2]));
    let g = |t2: int| times(val(dpres[h * t + ti][t2]), k(t2));
    assert forall|t2: int| 0 <= t2 < n implies #[trigger] f(t2) == g(t2) by {
        let (p, q) = (val(x[t2]), val(y[t2]));
        assert(p * q == q * p) by (nonlinear_arith);
    }
    lemma_sum_same(n, f, g);
    lemma_sum_same(n, f, |i: int| times(val(x[i]), val(y[i])));
    lemma_sum_same(
        n,
        g,
        |t2: int| times(val(dpres[h * t + ti][t2]), val(head(inp, t2, 1, h, nh, hs)[i])),
    );
    lemma_seen_row(val, dpres, h, t, ti, k);
    lemma_sum_same(n, g, |t2: int| times(val(dpres[h * t + ti][t2]), k(t2)));
    lemma_sum_same(
        t as nat,
        |t2: int| times(seen(val, dpres, h, t, ti, t2), k(t2)),
        |t2: int| times(seen(val, dpres, h, t, ti, t2), val(head(inp, t2, 1, h, nh, hs)[i])),
    );
}

/// One channel of the key gradient of a position, as a sum over the queries.
proof fn lemma_key_channel<F: Scalar>(
    val: spec_fn(F) -> real,
    inp: Seq<F>,
    dpres: Seq<Seq<F>>,
    t: int,
    nh: int,
    hs: int,
    h: int,
    t2: int,
    i: int,
    old_k: Seq<F>,
    new_k: Seq<F>,
)
    requires
        exact(val),
        0 <= t2 < t,
        0 <= i < hs,
        is_zero(old_k[i]),
        key_gradient_is(inp, dpres, t, nh, hs, h, t2, old_k, new_k),
    ensures
        val(new_k[i]) == sum_to(
            t as nat,
            |ti: int|
                times(seen(val, dpres, h, t, ti, t2), val(head(inp, ti, 0, h, nh, hs)[i])),
        ),
{
    let x = channel(inp, t2, t - t2, 0, h, nh, hs, i);
    let y = later(dpres, h, t2, t);
    let n = (t - t2) as nat;
    let q = |ti: int| val(head(inp, ti, 0, h, nh, hs)[i]);
    assert(dot_from_is(old_k[i], x, y, new_k[i]));
    lemma_dot_value(val, n, old_k[i], x, y, new_k[i]);
    let f = |u: int| times(val(x[u]), val(y[u]));
    let g = |u: int| times(val(later(dpres, h, t2, t)[u]), q(t2 + u));
    assert forall|u: int| 0 <= u < n implies #[trigger] f(u) == g(u) by {
        let (a, b) = (val(x[u]), val(y[u]));
        assert(a * b == b * a) by (nonlinear_arith);
    }
    lemma_sum_same(n, f, g);
    lemma_sum_same(n, f, |i: int| times(val(x[i]), val(y[i])));
    lemma_seen_column(val, dpres, h, t, t2, q);
    lemma_sum_same(n, g, |u: int| times(val(later(dpres, h, t2, t)[u]), q(t2 + u)));
    lemma_sum_same(
        t as nat,
        |ti: int| times(seen(val, dpres, h, t, ti, t2), q(ti)),
        |ti: int| times(seen(val, dpres, h, t, ti, t2), val(head(inp, ti, 0, h, nh, hs)[i])),
    );
}

/// The key gradients and the keys of one batch row have the inner product that
/// the query gradients and the queries have.
proof fn lemma_keys_row<F: Scalar>(
    val: spec_fn(F) -> real,
    inp: Seq<F>,
    att: Seq<F>,
    mask: Option<Seq<F>>,
    dout: Seq<F>,
    scale: F,
    t: int,
    nh: int,
    hs: int,
    old_d: (Seq<F>, Seq<F>, Seq<F>),
    new_d: (Seq<F>, Seq<F>, Seq<F>),
    kept: Seq<Seq<F>>,
    dpres: Seq<Seq<F>>,
    h: int,
)
    requires
        exact(val),
        0 <= t,
        0 <= h < nh,
        0 <= hs,
        old_d.0.len() == t * packed(nh, hs),
        all_zero(old_d.0),
        attention_gradient_with(
            inp,
            att,
            mask,
            dout,
            scale,
            t,
            nh,
            hs,
            old_d,
            new_d,
            kept,
            dpres,
        ),
    ensures
        heads_inner(val, new_d.0, inp, 0, h, t, nh, hs) == heads_inner(
            val,
            new_d.0,
            inp,
            1,
            h,
            t,
            nh,
            hs,
        ),
{
    let n = t as nat;
    let k = hs as nat;
    let by_query = |u: int, i: int|
        times(val(head(new_d.0, u, 0, h, nh, hs)[i]), val(head(inp, u, 0, h, nh, hs)[i]));
    let by_key = |u: int, i: int|
        times(val(head(new_d.0, u, 1, h, nh, hs)[i]), val(head(inp, u, 1, h, nh, hs)[i]));
    assert forall|i: int| 0 <= i < k implies #[trigger] over_positions(n, by_query, i)
        == over_positions(n, by_key, i) by {
        let wf = |ti: int, t2: int| seen(val, dpres, h, t, ti, t2);
        let df = |ti: int| val(head(inp, ti, 0, h, nh, hs)[i]);
        let xf = |t2: int| val(head(inp, t2, 1, h, nh, hs)[i]);
        let yf = |ti: int| val(head(new_d.0, ti, 0, h, nh, hs)[i]);
        let gf = |t2: int| val(head(new_d.0, t2, 1, h, nh, hs)[i]);
        assert forall|ti: int| 0 <= ti < n implies #[trigger] yf(ti) == sum_to(
            n,
            |t2: int| times(wf(ti, t2), xf(t2)),
        ) by {
            let o = head(old_d.0, ti, 0, h, nh, hs);
            let g = head(new_d.0, ti, 0, h, nh, hs);
            assert(part_gradient_is(inp, dout, kept, dpres, t, nh, hs, 0, h, ti, o, g));
            lemma_zero_head(old_d.0, ti, 0, h, t, nh, hs);
            lemma_head_place(old_d.0, ti, 0, h, t, nh, hs);
            lemma_query_channel(val, inp, dpres, t, nh, hs, h, ti, i, o, g);
            lemma_sum_same(
                n,
                |t2: int|
                    times(seen(val, dpres, h, t, ti, t2), val(head(inp, t2, 1, h, nh, hs)[i])),
                |t2: int| times(wf(ti, t2), xf(t2)),
            );
        }
        assert forall|t2: int| 0 <= t2 < n implies #[trigger] gf(t2) == sum_to(
            n,
            |ti: int| times(wf(ti, t2), df(ti)),
        ) by {
            let o = head(old_d.0, t2, 1, h, nh, hs);
            let g = head(new_d.0, t2, 1, h, nh, hs);
            assert(part_gradient_is(inp, dout, kept, dpres, t, nh, hs, 1, h, t2, o, g));
            lemma_zero_head(old_d.0, t2, 1, h, t, nh, hs);
            lemma_head_place(old_d.0, t2, 1, h, t, nh, hs);
            lemma_key_channel(val, inp, dpres, t, nh, hs, h, t2, i, o, g);
            lemma_sum_same(
                n,
                |ti: int|
                    times(seen(val, dpres, h, t, ti, t2), val(head(inp, ti, 0, h, nh, hs)[i])),
                |ti: int| times(wf(ti, t2), df(ti)),
            );
        }
        lemma_transpose(n, n, wf, df, xf, yf, gf);
        let left = |u: int| by_query(u, i);
        let right = |ti: int| times(df(ti), yf(ti));
        assert forall|u: int| 0 <= u < n implies #[trigger] left(u) == right(u) by {
            let (p, q) = (df(u), yf(u));
            assert(p * q == q * p) by (nonlinear_arith);
        }
        lemma_sum_same(n, left, right);
        lemma_sum_same(n, |u: int| by_key(u, i), |t2: int| times(gf(t2), xf(t2)));
    }
    lemma_by_channels(n, k, by_query, by_key);
    lemma_heads_by_channels(val, new_d.0, inp, 0, h, t, nh, hs, by_query);
    lemma_heads_by_channels(val, new_d.0, inp, 1, h, t, nh, hs, by_key);
}

/// A score, as a sum over the channels.
proof fn lemma_score_value<F: Scalar>(
    val: spec_fn(F) -> real,
    q: Seq<F>,
    k: Seq<F>,
    scale: F,
    r: F,
)
    requires
        exact(val),
        score_is(q, k, scale, r),
    ensures
        val(r) == times(sum_to(q.len(), |i: int| times(val(k[i]), val(q[i]))), val(scale)),
{
    let (zero, d) = choose|zero: F, d: F|
        #[trigger] is_zero(zero) && #[trigger] dot_from_is(zero, q, k, d)
            && product_is(d, scale, r);
    lemma_dot_value(val, q.len(), zero, q, k, d);
    let f = |i: int| times(val(q[i]), val(k[i]));
    let g = |i: int| times(val(k[i]), val(q[i]));
    assert forall|i: int| 0 <= i < q.len() implies #[trigger] f(i) == g(i) by {
        let (a, b) = (val(q[i]), val(k[i]));
        assert(a * b == b * a) by (nonlinear_arith);
    }
    lemma_sum_same(q.len(), f, g);
    lemma_sum_same(q.len(), f, |i: int| times(val(q[i]), val(k[i])));
    lemma_sum_same(q.len(), g, |i: int| times(val(k[i]), val(q[i])));
}

/// The query gradient of a position and its query have the inner product that
/// the score gradients and the scores of the position have.
proof fn lemma_query_at<F: Scalar>(
    val: spec_fn(F) -> real,
    inp: Seq<F>,
    mask: Option<Seq<F>>,
    scale: F,
    t: int,
    nh: int,
    hs: int,
    out: Seq<F>,
    pre: Seq<F>,
    att: Seq<F>,
    dout: Seq<F>,
    old_d: (Seq<F>, Seq<F>, Seq<F>),
    new_d: (Seq<F>, Seq<F>, Seq<F>),
    kept: Seq<Seq<F>>,
    dpres: Seq<Seq<F>>,
    h: int,
    ti: int,
)
    requires
        exact(val),
        0 <= h < nh,
        0 <= ti < t,
        0 <= hs,
        inp.len() == t * packed(nh, hs),
        old_d.0.len() == t * packed(nh, hs),
        all_zero(old_d.0),
        attention_batch_is(inp, mask, scale, t, nh, hs, out, pre, att),
        attention_gradient_with(
            inp,
            att,
            mask,
            dout,
            scale,
            t,
            nh,
            hs,
            old_d,
            new_d,
            kept,
            dpres,
        ),
    ensures
        inner(val, head_row(new_d.1, h, ti, t), head_row(pre, h, ti, t)) == inner(
            val,
            head(new_d.0, ti, 0, h, nh, hs),
            head(inp, ti, 0, h, nh, hs),
        ),
{
    let p = head_row(pre, h, ti, t);
    let dp = head_row(new_d.1, h, ti, t);
    let dpre = dpres[h * t + ti];
    let q = head(inp, ti, 0, h, nh, hs);
    let o = head(old_d.0, ti, 0, h, nh, hs);
    let g = head(new_d.0, ti, 0, h, nh, hs);
    let seen_p = dp.subrange(0, ti + 1);
    assert(attends_is(inp, scale, t, nh, hs, h, ti, p, head_row(att, h, ti, t)));
    let f = gradient_at(
        inp,
        att,
        mask,
        dout,
        scale,
        t,
        nh,
        hs,
        old_d,
        new_d,
        kept,
        dpres,
        h,
        ti,
    );
    assert(part_gradient_is(inp, dout, kept, dpres, t, nh, hs, 0, h, ti, o, g));
    lemma_zero_head(old_d.0, ti, 0, h, t, nh, hs);
    lemma_head_place(old_d.0, ti, 0, h, t, nh, hs);
    lemma_head_place(inp, ti, 0, h, t, nh, hs);
    let m = (ti + 1) as nat;
    let k = hs as nat;
    let wf = |t2: int, i: int| val(head(inp, t2, 1, h, nh, hs)[i]);
    let df = |t2: int| val(dpre[t2]);
    let xf = |i: int| val(q[i]);
    let yf = |t2: int| sum_to(k, |i: int| times(wf(t2, i), xf(i)));
    let gf = |i: int| val(g[i]);
    assert forall|i: int| 0 <= i < k implies #[trigger] gf(i) == sum_to(
        m,
        |t2: int| times(wf(t2, i), df(t2)),
    ) by {
        lemma_query_channel(val, inp, dpres, t, nh, hs, h, ti, i, o, g);
        let a = |t2: int| times(val(dpre[t2]), val(head(inp, t2, 1, h, nh, hs)[i]));
        let b = |t2: int| times(wf(t2, i), df(t2));
        assert forall|t2: int| 0 <= t2 < m implies #[trigger] a(t2) == b(t2) by {
            let (x, y) = (wf(t2, i), df(t2));
            assert(x * y == y * x) by (nonlinear_arith);
        }
        lemma_sum_same(m, a, b);
        lemma_sum_same(
            m,
            a,
            |t2: int| times(val(dpres[h * t + ti][t2]), val(head(inp, t2, 1, h, nh, hs)[i])),
        );
    }
    lemma_transpose(m, k, wf, df, xf, yf, gf);
    let score = |t2: int| times(val(dp[t2]), val(p[t2]));
    let pair = |t2: int| times(df(t2), yf(t2));
    assert forall|t2: int| 0 <= t2 < m implies #[trigger] score(t2) == pair(t2) by {
        let key = head(inp, t2, 1, h, nh, hs);
        assert(score_is(q, key, scale, p[t2]));
        lemma_score_value(val, q, key, scale, p[t2]);
        lemma_sum_same(
            k,
            |i: int| times(val(key[i]), val(q[i])),
            |i: int| times(wf(t2, i), xf(i)),
        );
        assert(product_is(seen_p[t2], scale, dpre[t2]));
        let (x, y, z) = (val(dp[t2]), yf(t2), val(scale));
        assert(x * (y * z) == (x * z) * y) by (nonlinear_arith);
    }
    lemma_sum_same(m, score, pair);
    let rest = (t - ti - 1) as nat;
    lemma_sum_parts(m, rest, score);
    let behind = |i: int| score(m + i);
    assert forall|i: int| 0 <= i < rest implies #[trigger] behind(i) == 0 as real by {
        assert(is_zero(p[m + i]));
        let x = val(dp[m + i]);
        assert(x * 0 as real == 0 as real) by (nonlinear_arith);
    }
    lemma_sum_zero(rest, behind);
    lemma_sum_same(t as nat, score, |i: int| times(val(dp[i]), val(p[i])));
    lemma_sum_same(k, |i: int| times(gf(i), xf(i)), |i: int| times(val(g[i]), val(q[i])));
}

/// The scale is one number.
proof fn lemma_scale_unique<F: Scalar>(hs: int, a: F, b: F)
    requires
        single_valued::<F>(),
        scale_is(hs, a),
        scale_is(hs, b),
    ensures
        a == b,
{
    let (c, r) = choose|c: F, r: F|
        #[trigger] ratio_is(hs as usize, 1, c) && #[trigger] sqrt_is(c, r) && reciprocal_is(r, a);
    let (d, s) = choose|d: F, s: F|
        #[trigger] ratio_is(hs as usize, 1, d) && #[trigger] sqrt_is(d, s) && reciprocal_is(s, b);
    assert(c == d);
    assert(r == s);
    lemma_reciprocal_unique(r, a, b);
}

/// The attention of a head is linear in its values, and the value gradient is
/// the adjoint: over each batch row, the output gradient and the output have the
/// inner product that the value gradient and the values have.
pub proof fn lemma_values_adjoint<F: Scalar>(
    val: spec_fn(F) -> real,
    inp: Seq<F>,
    mask: Option<Seq<F>>,
    b: int,
    t: int,
    nh: int,
    hs: int,
    out: Seq<F>,
    pre: Seq<F>,
    att: Seq<F>,
    dout: Seq<F>,
    old_d: (Seq<F>, Seq<F>, Seq<F>),
    new_d: (Seq<F>, Seq<F>, Seq<F>),
    bi: int,
    h: int,
)
    requires
        exact(val),
        0 <= t,
        0 <= bi < b,
        0 <= h < nh,
        0 <= hs,
        dout.len() == b * (t * (nh * hs)),
        old_d.0.len() == b * (t * packed(nh, hs)),
        all_zero(old_d.0),
        attention_is(inp, mask, b, t, nh, hs, out, pre, att),
        attention_gradient_is(inp, att, mask, dout, b, t, nh, hs, old_d, new_d),
    ensures
        outs_inner(
            val,
            row(dout, bi, t * (nh * hs)),
            row(out, bi, t * (nh * hs)),
            h,
            t,
            nh,
            hs,
        ) == heads_inner(
            val,
            row(new_d.0, bi, t * packed(nh, hs)),
            row(inp, bi, t * packed(nh, hs)),
            2,
            h,
            t,
            nh,
            hs,
        ),
{
    let scale = forward_scale(inp, mask, b, t, nh, hs, out, pre, att);
    let other = backward_scale(inp, att, mask, dout, b, t, nh, hs, old_d, new_d);
    let ci = t * packed(nh, hs);
    let ca = (nh * t) * t;
    let co = t * (nh * hs);
    lemma_batch_rows(b, t, nh, hs, bi);
    lemma_zero_row(old_d.0, b, ci, bi);
    lemma_values_row(
        val,
        row(inp, bi, ci),
        mask_batch(mask, bi, ca),
        scale,
        other,
        t,
        nh,
        hs,
        row(out, bi, co),
        row(pre, bi, ca),
        row(att, bi, ca),
        row(dout, bi, co),
        (row(old_d.0, bi, ci), row(old_d.1, bi, ca), row(old_d.2, bi, ca)),
        (row(new_d.0, bi, ci), row(new_d.1, bi, ca), row(new_d.2, bi, ca)),
        h,
    );
}

/// The scores are linear in the queries and in the keys, and their gradients are
/// the adjoints: over each batch row, the gradients and the scores of a head have
/// the inner product that the query gradient and the queries have, and that the
/// key gradient and the keys have.
pub proof fn lemma_scores_adjoint<F: Scalar>(
    val: spec_fn(F) -> real,
    inp: Seq<F>,
    mask: Option<Seq<F>>,
    b: int,
    t: int,
    nh: int,
    hs: int,
    out: Seq<F>,
    pre: Seq<F>,
    att: Seq<F>,
    dout: Seq<F>,
    old_d: (Seq<F>, Seq<F>, Seq<F>),
    new_d: (Seq<F>, Seq<F>, Seq<F>),
    bi: int,
    h: int,
)
    requires
        exact(val),
        single_valued::<F>(),
        0 <= t,
        0 <= bi < b,
        0 <= h < nh,
        0 <= hs,
        inp.len() == b * (t * packed(nh, hs)),
        old_d.0.len() == b * (t * packed(nh, hs)),
        all_zero(old_d.0),
        attention_is(inp, mask, b, t, nh, hs, out, pre, att),
        attention_gradient_is(inp, att, mask, dout, b, t, nh, hs, old_d, new_d),
    ensures
        scores_inner(val, row(new_d.1, bi, (nh * t) * t), row(pre, bi, (nh * t) * t), h, t)
            == heads_inner(
            val,
            row(new_d.0, bi, t * packed(nh, hs)),
            row(inp, bi, t * packed(nh, hs)),
            0,
            h,
            t,
            nh,
            hs,
        ),
        scores_inner(val, row(new_d.1, bi, (nh * t) * t), row(pre, bi, (nh * t) * t), h, t)
            == heads_inner(
            val,
            row(new_d.0, bi, t * packed(nh, hs)),
            row(inp, bi, t * packed(nh, hs)),
            1,
            h,
            t,
            nh,
            hs,
        ),
{
    let scale = forward_scale(inp, mask, b, t, nh, hs, out, pre, att);
    let other = backward_scale(inp, att, mask, dout, b, t, nh, hs, old_d, new_d);
    lemma_scale_unique(hs, scale, other);
    let ci = t * packed(nh, hs);
    let ca = (nh * t) * t;
    let co = t * (nh * hs);
    lemma_batch_rows(b, t, nh, hs, bi);
    lemma_zero_row(old_d.0, b, ci, bi);
    let x = row(inp, bi, ci);
    let m = mask_batch(mask, bi, ca);
    let p = row(pre, bi, ca);
    let a = row(att, bi, ca);
    let d = row(dout, bi, co);
    let o = (row(old_d.0, bi, ci), row(old_d.1, bi, ca), row(old_d.2, bi, ca));
    let n = (row(new_d.0, bi, ci), row(new_d.1, bi, ca), row(new_d.2, bi, ca));
    assert(attention_gradient_batch_is(x, a, m, d, scale, t, nh, hs, o, n));
    let (kept, dpres) = choose|kept: Seq<Seq<F>>, dpres: Seq<Seq<F>>| #[trigger]
        attention_gradient_with(x, a, m, d, scale, t, nh, hs, o, n, kept, dpres);
    let scores = |u: int| inner(val, head_row(n.1, h, u, t), head_row(p, h, u, t));
    let queries = |u: int| inner(val, head(n.0, u, 0, h, nh, hs), head(x, u, 0, h, nh, hs));
    assert forall|u: int| 0 <= u < t implies #[trigger] scores(u) == queries(u) by {
        lemma_query_at(
            val,
            x,
            m,
            scale,
            t,
            nh,
            hs,
            row(out, bi, co),
            p,
            a,
            d,
            o,
            n,
            kept,
            dpres,
            h,
            u,
        );
    }
    lemma_sum_same(t as nat, scores, queries);
    lemma_sum_same(
        t as nat,
        scores,
        |u: int| inner(val, head_row(n.1, h, u, t), head_row(p, h, u, t)),
    );
    lemma_sum_same(
        t as nat,
        queries,
        |u: int| inner(val, head(n.0, u, 0, h, nh, hs), head(x, u, 0, h, nh, hs)),
    );
    lemma_keys_row(val, x, a, m, d, scale, t, nh, hs, o, n, kept, dpres, h);
}

/// The scale of a forward pass.
proof fn forward_scale<F: Scalar>(
    inp: Seq<F>,
    mask: Option<Seq<F>>,
    b: int,
    t: int,
    nh: int,
    hs: int,
    out: Seq<F>,
    pre: Seq<F>,
    att: Seq<F>,
) -> (scale: F)
    requires
        attention_is(inp, mask, b, t, nh, hs, out, pre, att),
    ensures
        scale_is(hs, scale),
        attention_scaled_is(inp, mask, scale, b, t, nh, hs, out, pre, att),
{
    reveal(attention_is);
    choose|scale: F| #[trigger]
        scale_is(hs, scale) && attention_scaled_is(inp, mask, scale, b, t, nh, hs, out, pre, att)
}

/// The scale of a backward pass.
proof fn backward_scale<F: Scalar>(
    inp: Seq<F>,
    att: Seq<F>,
    mask: Option<Seq<F>>,
    dout: Seq<F>,
    b: int,
    t: int,
    nh: int,
    hs: int,
    old_d: (Seq<F>, Seq<F>, Seq<F>),
    new_d: (Seq<F>, Seq<F>, Seq<F>),
) -> (scale: F)
    requires
        attention_gradient_is(inp, att, mask, dout, b, t, nh, hs, old_d, new_d),
    ensures
        scale_is(hs, scale),
        attention_gradient_scaled_is(
            inp,
            att,
            mask,
            dout,
            scale,
            b,
            t,
            nh,
            hs,
            old_d,
            new_d,
        ),
{
    reveal(attention_gradient_is);
    choose|scale: F| #[trigger]
        scale_is(hs, scale) && attention_gradient_scaled_is(
            inp,
            att,
            mask,
            dout,
            scale,
            b,
            t,
            nh,
            hs,
            old_d,
            new_d,
        )
}

/// Where batch row `bi` lies in the tensors.
proof fn lemma_batch_rows(b: int, t: int, nh: int, hs: int, bi: int)
    requires
        0 <= bi < b,
        0 <= t,
        0 <= nh,
        0 <= hs,
    ensures
        0 <= bi * (t * packed(nh, hs)),
        bi * (t * packed(nh, hs)) + t * packed(nh, hs) <= b * (t * packed(nh, hs)),
        0 <= t * packed(nh, hs),
        0 <= bi * (t * (nh * hs)),
        bi * (t * (nh * hs)) + t * (nh * hs) <= b * (t * (nh * hs)),
        0 <= t * (nh * hs),
{
    lemma_nonneg(3 * nh, hs);
    lemma_nonneg(t, packed(nh, hs));
    lemma_row_bounds(bi, b, t * packed(nh, hs));
    lemma_nonneg(nh, hs);
    lemma_nonneg(t, nh * hs);
    lemma_row_bounds(bi, b, t * (nh * hs));
}

/// The rows of a zero tensor are zero.
proof fn lemma_zero_row<F: Scalar>(s: Seq<F>, n: int, c: int, r: int)
    requires
        0 <= r < n,
        0 <= c,
        s.len() == n * c,
        all_zero(s),
    ensures
        all_zero(row(s, r, c)),
{
    lemma_row_bounds(r, n, c);
    assert forall|i: int| 0 <= i < c implies is_zero(#[trigger] row(s, r, c)[i]) by {
        assert(is_zero(s[r * c + i]));
    }
}

} // verus!
