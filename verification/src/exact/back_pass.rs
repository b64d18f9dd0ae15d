//! What the backward pass computes where the arithmetic is exact: every gradient
//! of every layer as a formula over the gradients behind it, the activations and
//! the parameters of that layer.

use vstd::prelude::*;

use crate::arena::lemma_row_bounds;
use crate::exact::exact;
use crate::exact::gate::{exponential, lemma_gate_gradient_values};
use crate::exact::head_gradients::{
    attention_sizes, lemma_attention_gradient_values, packed_gradients_at, score_gradients_at,
};
use crate::exact::heads::keep_at;
use crate::exact::losses::lemma_logit_gradient_values;
use crate::exact::norm::{
    lemma_norm_gradient_values, lemma_norm_weight_gradient_values, norm_gradient_row_values,
    norm_overlap,
};
use crate::exact::ops::{
    input_gradient_values, lemma_input_gradient_values, lemma_scatter_values,
    lemma_weight_gradient_values,
};
use crate::exact::pass::{
    dropped_values, entry, lemma_dropped, lemma_layer_sizes, lemma_stream_size, lemma_sums,
    lemma_turned, mask_entry, turned_values,
};
use crate::exact::power::{exact_powers, exact_roots};
use crate::layout::{
    act_layout, lemma_act_layout, lemma_act_sizes, lemma_mask_layout, lemma_param_layout,
    lemma_param_sizes, mask_layout, param_layout, Config,
};
use crate::model::backward::{
    all_zero, attended_gradient_is, attended_gradient_with, backward_is, backward_with,
    fed_forward_gradient_is, fed_forward_gradient_with, grad_stream, layer_gradient_is,
};
use crate::model::forward::{batch_ids, dropped_is, encoded_mask};
use crate::model::layer::{
    layer_acts, layer_masks, layer_params, lemma_last_stream, lemma_mask_slots, lemma_shapes,
    stream,
};
use crate::ops::attention::packed;
use crate::ops::attention_backward::attention_gradient_is;
use crate::ops::linear::{input_gradient_is, weight_gradient_is};
use crate::ops::loss::{logit_gradient_is, reciprocal_is};
use crate::ops::norm::{norm_gradient_is, norm_weight_gradient_is};
use crate::ops::pointwise::sums_are;
use crate::scalar::{is_one, is_zero, quotient_is, ratio_is, Scalar};
use crate::sums::{lemma_sum_same, sum_to, times};

verus! {

/// Every value is zero.
pub open spec fn zero_values<F>(val: spec_fn(F) -> real, s: Seq<F>) -> bool {
    forall|i: int| 0 <= i < s.len() ==> val(#[trigger] s[i]) == 0 as real
}

/// The gradient of the input of a linear layer: each channel sums over the
/// outputs the weight times the output gradient.
pub open spec fn pulled_back<F>(
    val: spec_fn(F) -> real,
    d: Seq<F>,
    w: Seq<F>,
    n: int,
    c: int,
    oc: int,
    dx: Seq<F>,
) -> bool {
    &&& dx.len() == n * c
    &&& forall|r: int, i: int|
        0 <= r < n && 0 <= i < c ==> val(#[trigger] dx[r * c + i]) == sum_to(
            oc as nat,
            |o: int| times(val(w[o * c + i]), val(d[r * oc + o])),
        )
}

/// The gradient of the weight of a linear layer: each weight sums over the rows
/// the input times the output gradient.
pub open spec fn weight_pulled_back<F>(
    val: spec_fn(F) -> real,
    d: Seq<F>,
    x: Seq<F>,
    n: int,
    c: int,
    oc: int,
    dw: Seq<F>,
) -> bool {
    &&& dw.len() == oc * c
    &&& forall|o: int, i: int|
        0 <= o < oc && 0 <= i < c ==> val(#[trigger] dw[o * c + i]) == sum_to(
            n as nat,
            |r: int| times(val(x[r * c + i]), val(d[r * oc + o])),
        )
}

/// The gradient of row `r` of the input of a norm adds to `base` the factor of the
/// row times the weighed output gradient, less the normed input times the mean of
/// their products.
pub open spec fn norm_row_back<F>(
    val: spec_fn(F) -> real,
    x: Seq<F>,
    rstd: Seq<F>,
    w: Seq<F>,
    d: Seq<F>,
    c: int,
    base: Seq<F>,
    dx: Seq<F>,
    r: int,
) -> bool {
    exists|mean: real| #[trigger]
        norm_gradient_row_values(val, x, rstd, w, d, c, base, dx, r, mean) && times(
            mean,
            c as real,
        ) == norm_overlap(val, x, rstd, w, d, r, c)
}

/// The gradients of the input and of the weight of a norm.
pub open spec fn norm_back<F>(
    val: spec_fn(F) -> real,
    x: Seq<F>,
    rstd: Seq<F>,
    w: Seq<F>,
    d: Seq<F>,
    n: int,
    c: int,
    base: Seq<F>,
    dx: Seq<F>,
    dw: Seq<F>,
) -> bool {
    &&& forall|r: int|
        0 <= r < n ==> #[trigger] norm_row_back(val, x, rstd, w, d, c, base, dx, r)
    &&& forall|i: int|
        0 <= i < c ==> val(#[trigger] dw[i]) == sum_to(
            n as nat,
            |r: int| times(times(val(x[r * c + i]), val(rstd[r])), val(d[r * c + i])),
        )
}

/// The gradients of the gated product, value by value: with `e = e^-g`, that of
/// `up` times `1 + e` is the output gradient times `g`; that of `g` times
/// `(1 + e)^2` is the output gradient times `up` times `1 + e + g * e`.
pub open spec fn gated_back<F>(
    val: spec_fn(F) -> real,
    ex: spec_fn(real) -> real,
    gate: Seq<F>,
    up: Seq<F>,
    d: Seq<F>,
    dgate: Seq<F>,
    dup: Seq<F>,
) -> bool {
    forall|i: int|
        0 <= i < gate.len() ==> #[trigger] gated_back_at(
            val,
            ex,
            gate[i],
            up[i],
            d[i],
            dgate[i],
            dup[i],
        )
}

/// The same at one place.
pub open spec fn gated_back_at<F>(
    val: spec_fn(F) -> real,
    ex: spec_fn(real) -> real,
    gate: F,
    up: F,
    d: F,
    dgate: F,
    dup: F,
) -> bool {
    let e = ex(-val(gate));
    let g = val(gate);
    &&& val(dup) * (1 as real + e) == val(d) * g
    &&& val(dgate) * ((1 as real + e) * (1 as real + e)) == (val(d) * val(up)) * ((1 as real + e)
        + g * e)
}

/// The gradients of the attention of all heads, tokens and batch rows, from zero.
pub open spec fn attention_back<F>(
    val: spec_fn(F) -> real,
    qkv: Seq<F>,
    mask: Option<Seq<F>>,
    att: Seq<F>,
    dout: Seq<F>,
    b: int,
    t: int,
    nh: int,
    hs: int,
    z: (Seq<F>, Seq<F>, Seq<F>),
    d: (Seq<F>, Seq<F>, Seq<F>),
) -> bool {
    &&& zero_values(val, z.0) && z.0.len() == qkv.len()
    &&& zero_values(val, z.1) && z.1.len() == att.len()
    &&& zero_values(val, z.2) && z.2.len() == att.len()
    &&& forall|bi: int, h: int, ti: int|
        0 <= bi < b && 0 <= h < nh && 0 <= ti < t ==> #[trigger] head_back(
            val,
            qkv,
            mask,
            att,
            dout,
            t,
            nh,
            hs,
            z,
            d,
            bi,
            h,
            ti,
        )
}

/// The same for one head of one token, with the scores scaled by the root of the
/// head size.
pub open spec fn head_back<F>(
    val: spec_fn(F) -> real,
    qkv: Seq<F>,
    mask: Option<Seq<F>>,
    att: Seq<F>,
    dout: Seq<F>,
    t: int,
    nh: int,
    hs: int,
    z: (Seq<F>, Seq<F>, Seq<F>),
    d: (Seq<F>, Seq<F>, Seq<F>),
    bi: int,
    h: int,
    ti: int,
) -> bool {
    &&& score_gradients_at(val, qkv, mask, att, dout, z, d, t, nh, hs, bi, h, ti)
    &&& exists|s: real| #[trigger]
        packed_gradients_at(val, s, qkv, mask, att, dout, z, d, t, nh, hs, bi, h, ti) && s
            > 0 as real && (s * s) * (hs as real) == 1 as real
}

/// Backward over the feed-forward half of layer `l`, from the gradient `d_out` of
/// the stream behind the layer.
pub open spec fn feed_forward_back<F: Scalar>(
    val: spec_fn(F) -> real,
    ex: spec_fn(real) -> real,
    c: Config,
    params: Seq<F>,
    masks: Option<Seq<F>>,
    acts: Seq<F>,
    grads: Seq<F>,
    gacts: Seq<F>,
    d_out: Seq<F>,
    l: int,
) -> bool {
    let (al, pl, ml) = (act_layout(c), param_layout(c), mask_layout(c));
    let (ch, n) = (c.n_embd as int, c.batch_size * c.block_size);
    let h = 8 * ch / 3;
    let ln2 = entry(acts, al.ln2.off as int, l, n * ch);
    let d_fc = entry(gacts, al.fcproj.off as int, l, n * ch);
    let d_glu = entry(gacts, al.glu.off as int, l, n * h);
    let d_gate = entry(gacts, al.gate.off as int, l, n * h);
    let d_up = entry(gacts, al.up.off as int, l, n * h);
    let d_ln2 = entry(gacts, al.ln2.off as int, l, n * ch);
    &&& dropped_values(val, d_out, mask_entry(masks, ml.fcproj.off as int, l, n * ch), d_fc)
    &&& pulled_back(val, d_fc, entry(params, pl.w2.off as int, l, h * ch), n, h, ch, d_glu)
    &&& weight_pulled_back(
        val,
        d_fc,
        entry(acts, al.glu.off as int, l, n * h),
        n,
        h,
        ch,
        entry(grads, pl.w2.off as int, l, h * ch),
    )
    &&& gated_back(
        val,
        ex,
        entry(acts, al.gate.off as int, l, n * h),
        entry(acts, al.up.off as int, l, n * h),
        d_glu,
        d_gate,
        d_up,
    )
    &&& weight_pulled_back(
        val,
        d_gate,
        ln2,
        n,
        ch,
        h,
        entry(grads, pl.w1.off as int, l, h * ch),
    )
    &&& weight_pulled_back(
        val,
        d_up,
        ln2,
        n,
        ch,
        h,
        entry(grads, pl.w3.off as int, l, h * ch),
    )
    &&& exists|part: Seq<F>| #[trigger]
        pulled_back(
            val,
            d_gate,
            entry(params, pl.w1.off as int, l, h * ch),
            n,
            ch,
            h,
            part,
        ) && input_gradient_values(
            val,
            d_up,
            entry(params, pl.w3.off as int, l, h * ch),
            n,
            ch,
            h,
            part,
            d_ln2,
        )
    &&& norm_back(
        val,
        entry(acts, al.residual2.off as int, l, n * ch),
        entry(acts, al.ln2_rstd.off as int, l, n),
        entry(params, pl.ln2w.off as int, l, ch),
        d_ln2,
        n,
        ch,
        d_out,
        entry(gacts, al.residual2.off as int, l, n * ch),
        entry(grads, pl.ln2w.off as int, l, ch),
    )
}

/// Backward over the attention half of layer `l`, on the stream `inp`, to the
/// gradient `d_inp` of it.
pub open spec fn attention_half_back<F: Scalar>(
    val: spec_fn(F) -> real,
    c: Config,
    params: Seq<F>,
    masks: Option<Seq<F>>,
    acts: Seq<F>,
    grads: Seq<F>,
    gacts: Seq<F>,
    inp: Seq<F>,
    d_inp: Seq<F>,
    l: int,
) -> bool {
    let (al, pl, ml) = (act_layout(c), param_layout(c), mask_layout(c));
    let (b, t, nh, ch) = (
        c.batch_size as int,
        c.block_size as int,
        c.n_head as int,
        c.n_embd as int,
    );
    let n = b * t;
    let hs = ch / nh;
    let att = b * ((nh * t) * t);
    let d_res2 = entry(gacts, al.residual2.off as int, l, n * ch);
    let d_proj = entry(gacts, al.attproj.off as int, l, n * ch);
    let d_atty = entry(gacts, al.atty.off as int, l, n * ch);
    let d_qkv = entry(gacts, al.qkv.off as int, l, n * (3 * ch));
    let d_ln1 = entry(gacts, al.ln1.off as int, l, n * ch);
    &&& dropped_values(val, d_res2, mask_entry(masks, ml.attproj.off as int, l, n * ch), d_proj)
    &&& pulled_back(
        val,
        d_proj,
        entry(params, pl.attprojw.off as int, l, ch * ch),
        n,
        ch,
        ch,
        d_atty,
    )
    &&& weight_pulled_back(
        val,
        d_proj,
        entry(acts, al.atty.off as int, l, n * ch),
        n,
        ch,
        ch,
        entry(grads, pl.attprojw.off as int, l, ch * ch),
    )
    &&& exists|raw: Seq<F>, z: (Seq<F>, Seq<F>, Seq<F>)| #[trigger]
        attention_back(
            val,
            entry(acts, al.qkv.off as int, l, n * (3 * ch)),
            mask_entry(masks, ml.att.off as int, l, att),
            entry(acts, al.att.off as int, l, att),
            d_atty,
            b,
            t,
            nh,
            hs,
            z,
            (
                raw,
                entry(gacts, al.preatt.off as int, l, att),
                entry(gacts, al.att.off as int, l, att),
            ),
        ) && turned_values(val, true, n, t, nh, hs, raw, d_qkv)
    &&& pulled_back(
        val,
        d_qkv,
        entry(params, pl.qkvw.off as int, l, (3 * ch) * ch),
        n,
        ch,
        3 * ch,
        d_ln1,
    )
    &&& weight_pulled_back(
        val,
        d_qkv,
        entry(acts, al.ln1.off as int, l, n * ch),
        n,
        ch,
        3 * ch,
        entry(grads, pl.qkvw.off as int, l, (3 * ch) * ch),
    )
    &&& norm_back(
        val,
        inp,
        entry(acts, al.ln1_rstd.off as int, l, n),
        entry(params, pl.ln1w.off as int, l, ch),
        d_ln1,
        n,
        ch,
        d_res2,
        d_inp,
        entry(grads, pl.ln1w.off as int, l, ch),
    )
}

/// The stream in front of layer `l`: the embedding in front of the first, and
/// what the layer before puts out in front of another.
pub open spec fn stream_entry<F>(c: Config, s: Seq<F>, l: int) -> Seq<F> {
    let n = c.batch_size * c.block_size * c.n_embd;
    if l == 0 {
        entry(s, act_layout(c).encoded.off as int, 0, n)
    } else {
        entry(s, act_layout(c).residual3.off as int, l - 1, n)
    }
}

/// Zeros are zero values.
proof fn lemma_zero_values<F: Scalar>(val: spec_fn(F) -> real, s: Seq<F>)
    requires
        exact(val),
        all_zero(s),
    ensures
        zero_values(val, s),
{
    assert forall|i: int| 0 <= i < s.len() implies val(#[trigger] s[i]) == 0 as real by {
        assert(is_zero(s[i]));
    }
}

/// The gradient of an input that starts from zero.
proof fn lemma_pulled_back<F: Scalar>(
    val: spec_fn(F) -> real,
    d: Seq<F>,
    w: Seq<F>,
    n: int,
    c: int,
    oc: int,
    z: Seq<F>,
    dx: Seq<F>,
)
    requires
        exact(val),
        0 <= c,
        0 <= oc,
        d.len() == n * oc,
        w.len() == oc * c,
        z.len() == n * c,
        all_zero(z),
        input_gradient_is(d, w, n, c, oc, z, dx),
    ensures
        pulled_back(val, d, w, n, c, oc, dx),
{
    lemma_input_gradient_values(val, d, w, n, c, oc, z, dx);
    assert forall|r: int, i: int| 0 <= r < n && 0 <= i < c implies val(#[trigger] dx[r * c + i])
        == sum_to(oc as nat, |o: int| times(val(w[o * c + i]), val(d[r * oc + o]))) by {
        lemma_row_bounds(r, n, c);
        assert(is_zero(z[r * c + i]));
    }
}

/// The gradient of a weight that starts from zero.
proof fn lemma_weight_pulled_back<F: Scalar>(
    val: spec_fn(F) -> real,
    d: Seq<F>,
    x: Seq<F>,
    n: int,
    c: int,
    oc: int,
    z: Seq<F>,
    dw: Seq<F>,
)
    requires
        exact(val),
        0 <= n,
        0 <= c,
        d.len() == n * oc,
        x.len() == n * c,
        z.len() == oc * c,
        all_zero(z),
        weight_gradient_is(d, x, n, c, oc, z, dw),
    ensures
        weight_pulled_back(val, d, x, n, c, oc, dw),
{
    lemma_weight_gradient_values(val, d, x, n, c, oc, z, dw);
    assert forall|o: int, i: int| 0 <= o < oc && 0 <= i < c implies val(#[trigger] dw[o * c + i])
        == sum_to(n as nat, |r: int| times(val(x[r * c + i]), val(d[r * oc + o]))) by {
        lemma_row_bounds(o, oc, c);
        assert(is_zero(z[o * c + i]));
    }
}

/// The gradients of a norm, where `start` holds the values of `base`.
proof fn lemma_norm_back<F: Scalar>(
    val: spec_fn(F) -> real,
    x: Seq<F>,
    rstd: Seq<F>,
    w: Seq<F>,
    d: Seq<F>,
    n: int,
    c: int,
    base: Seq<F>,
    start: Seq<F>,
    dx: Seq<F>,
    zw: Seq<F>,
    dw: Seq<F>,
)
    requires
        exact(val),
        0 <= n,
        0 < c <= usize::MAX,
        x.len() == n * c,
        w.len() == c,
        d.len() == n * c,
        start.len() == n * c,
        forall|i: int| 0 <= i < n * c ==> val(#[trigger] start[i]) == val(base[i]),
        all_zero(zw),
        zw.len() == c,
        norm_gradient_is(x, rstd, w, d, n, c, start, dx),
        norm_weight_gradient_is(x, rstd, d, n, c, zw, dw),
    ensures
        norm_back(val, x, rstd, w, d, n, c, base, dx, dw),
{
    assert forall|r: int| 0 <= r < n implies #[trigger] norm_row_back(
        val,
        x,
        rstd,
        w,
        d,
        c,
        base,
        dx,
        r,
    ) by {
        lemma_norm_gradient_values(val, x, rstd, w, d, n, c, start, dx, r);
        let mean = choose|mean: real| #[trigger]
            norm_gradient_row_values(val, x, rstd, w, d, c, start, dx, r, mean) && times(
                mean,
                c as real,
            ) == norm_overlap(val, x, rstd, w, d, r, c);
        lemma_row_bounds(r, n, c);
        assert forall|i: int| 0 <= i < c implies val(#[trigger] dx[r * c + i]) == val(
            base[r * c + i],
        ) + times(
            times(val(w[i]), val(d[r * c + i])) - times(
                times(val(x[r * c + i]), val(rstd[r])),
                mean,
            ),
            val(rstd[r]),
        ) by {
            assert(val(start[r * c + i]) == val(base[r * c + i]));
        }
        assert(norm_gradient_row_values(val, x, rstd, w, d, c, base, dx, r, mean));
    }
    assert forall|i: int| 0 <= i < c implies val(#[trigger] dw[i]) == sum_to(
        n as nat,
        |r: int| times(times(val(x[r * c + i]), val(rstd[r])), val(d[r * c + i])),
    ) by {
        lemma_norm_weight_gradient_values(val, x, rstd, d, n, c, zw, dw, i);
        assert(is_zero(zw[i]));
    }
}

/// A gradient that is passed on to a place that held zeros, and dropped there.
proof fn lemma_dropped_on<F: Scalar>(
    val: spec_fn(F) -> real,
    z: Seq<F>,
    d: Seq<F>,
    mid: Seq<F>,
    mask: Option<Seq<F>>,
    out: Seq<F>,
)
    requires
        exact(val),
        all_zero(z),
        z.len() == d.len(),
        sums_are(z, d, mid),
        dropped_is(mid, mask, out),
    ensures
        dropped_values(val, d, mask, out),
{
    lemma_sums(val, z, d, mid);
    lemma_dropped(val, mid, mask, out);
    assert forall|i: int| 0 <= i < d.len() implies val(#[trigger] out[i]) == times(
        val(d[i]),
        keep_at(val, mask, i),
    ) by {
        assert(is_zero(z[i]));
        assert(val(mid[i]) == val(z[i]) + val(d[i]));
    }
}

/// A part of a buffer of zeros.
proof fn lemma_layer_zeros<F: Scalar>(c: Config, z: Seq<F>, zw: Seq<F>, l: int)
    requires
        c.runs(),
        z.len() == c.act_total(),
        zw.len() == c.param_total(),
        all_zero(z),
        all_zero(zw),
        0 <= l < c.n_layer,
    ensures
        ({
            let a = layer_acts(c, z, l);
            let p = layer_params(c, zw, l);
            &&& all_zero(a.ln1) && all_zero(a.qkv) && all_zero(a.atty)
            &&& all_zero(a.preatt) && all_zero(a.att) && all_zero(a.attproj)
            &&& all_zero(a.residual2) && all_zero(a.ln2) && all_zero(a.glu) && all_zero(a.fcproj)
            &&& all_zero(p.ln1w) && all_zero(p.qkvw) && all_zero(p.attprojw)
            &&& all_zero(p.ln2w) && all_zero(p.w1) && all_zero(p.w3) && all_zero(p.w2)
            &&& all_zero(stream(c, z, l))
            &&& a.preatt.len() == c.att_acts() && a.att.len() == c.att_acts()
            &&& a.attproj.len() == c.channel_acts() && a.fcproj.len() == c.channel_acts()
        }),
{
    lemma_layer_sizes(c, zw, z, l);
    lemma_stream_size(c, z, l);
    lemma_act_layout(c);
    lemma_act_sizes(c);
    lemma_param_layout(c);
    lemma_param_sizes(c);
    let n = c.n_layer as int;
    lemma_row_bounds(l, n, c.channel_acts());
    lemma_row_bounds(l, n, c.qkv_acts());
    lemma_row_bounds(l, n, c.att_acts());
    lemma_row_bounds(l, n, c.hidden_acts());
    lemma_row_bounds(l, n, c.n_embd as int);
    lemma_row_bounds(l, n, c.qkv_weights());
    lemma_row_bounds(l, n, c.square_weights());
    lemma_row_bounds(l, n, c.hidden_weights());
    if l > 0 {
        lemma_row_bounds(l - 1, n, c.channel_acts());
    }
}

/// Backward over the feed-forward half.
#[verifier::rlimit(40)]
proof fn lemma_feed_forward_back<F: Scalar>(
    val: spec_fn(F) -> real,
    ex: spec_fn(real) -> real,
    c: Config,
    params: Seq<F>,
    masks: Option<Seq<F>>,
    acts: Seq<F>,
    z: Seq<F>,
    zw: Seq<F>,
    grads: Seq<F>,
    gacts: Seq<F>,
    l: int,
)
    requires
        exact(val),
        exponential(val, ex),
        c.runs(),
        params.len() == c.param_total(),
        acts.len() == c.act_total(),
        grads.len() == c.param_total(),
        gacts.len() == c.act_total(),
        z.len() == c.act_total(),
        zw.len() == c.param_total(),
        all_zero(z),
        all_zero(zw),
        masks matches Some(m) ==> m.len() == c.mask_total(),
        0 <= l < c.n_layer,
        fed_forward_gradient_is(
            c,
            layer_params(c, params, l),
            layer_masks(c, masks, l),
            layer_acts(c, acts, l),
            layer_acts(c, z, l),
            stream(c, gacts, l + 1),
            layer_acts(c, gacts, l),
            layer_params(c, zw, l),
            layer_params(c, grads, l),
        ),
    ensures
        feed_forward_back(
            val,
            ex,
            c,
            params,
            masks,
            acts,
            grads,
            gacts,
            stream(c, gacts, l + 1),
            l,
        ),
{
    let a = layer_acts(c, acts, l);
    let p = layer_params(c, params, l);
    let m = layer_masks(c, masks, l);
    let g0 = layer_acts(c, z, l);
    let g = layer_acts(c, gacts, l);
    let w0 = layer_params(c, zw, l);
    let w = layer_params(c, grads, l);
    let d_out = stream(c, gacts, l + 1);
    let n = c.tokens();
    let ch = c.n_embd as int;
    let h = c.hidden();
    lemma_layer_sizes(c, params, acts, l);
    lemma_layer_sizes(c, grads, gacts, l);
    lemma_layer_sizes(c, zw, z, l);
    lemma_layer_zeros(c, z, zw, l);
    lemma_stream_size(c, gacts, l + 1);
    lemma_shapes(c);
    let (r2, fc, ln2) = choose|r2: Seq<F>, fc: Seq<F>, ln2: Seq<F>| #[trigger]
        fed_forward_gradient_with(c, p, m, a, g0, d_out, g, w0, w, r2, fc, ln2);
    lemma_dropped_on(val, g0.fcproj, d_out, fc, m.fcproj, g.fcproj);
    lemma_pulled_back(val, g.fcproj, p.w2, n, h, ch, g0.glu, g.glu);
    lemma_weight_pulled_back(val, g.fcproj, a.glu, n, h, ch, w0.w2, w.w2);
    assert forall|i: int| 0 <= i < a.gate.len() implies #[trigger] gated_back_at(
        val,
        ex,
        a.gate[i],
        a.up[i],
        g.glu[i],
        g.gate[i],
        g.up[i],
    ) by {
        lemma_gate_gradient_values(val, ex, a.gate, a.up, g.glu, g.gate, g.up, i);
    }
    lemma_weight_pulled_back(val, g.gate, a.ln2, n, ch, h, w0.w1, w.w1);
    lemma_weight_pulled_back(val, g.up, a.ln2, n, ch, h, w0.w3, w.w3);
    lemma_pulled_back(val, g.gate, p.w1, n, ch, h, g0.ln2, ln2);
    lemma_input_gradient_values(val, g.up, p.w3, n, ch, h, ln2, g.ln2);
    lemma_sums(val, g0.residual2, d_out, r2);
    assert forall|i: int| 0 <= i < n * ch implies val(#[trigger] r2[i]) == val(d_out[i]) by {
        assert(is_zero(g0.residual2[i]));
    }
    lemma_norm_back(
        val,
        a.residual2,
        a.ln2_rstd,
        p.ln2w,
        g.ln2,
        n,
        ch,
        d_out,
        r2,
        g.residual2,
        w0.ln2w,
        w.ln2w,
    );
    let (al, pl) = (act_layout(c), param_layout(c));
    assert(a.ln2 == entry(acts, al.ln2.off as int, l, n * ch));
    assert(a.glu == entry(acts, al.glu.off as int, l, n * h));
    assert(a.gate == entry(acts, al.gate.off as int, l, n * h));
    assert(a.up == entry(acts, al.up.off as int, l, n * h));
    assert(a.residual2 == entry(acts, al.residual2.off as int, l, n * ch));
    assert(a.ln2_rstd == entry(acts, al.ln2_rstd.off as int, l, n));
    assert(g.ln2 == entry(gacts, al.ln2.off as int, l, n * ch));
    assert(g.glu == entry(gacts, al.glu.off as int, l, n * h));
    assert(g.gate == entry(gacts, al.gate.off as int, l, n * h));
    assert(g.up == entry(gacts, al.up.off as int, l, n * h));
    assert(g.fcproj == entry(gacts, al.fcproj.off as int, l, n * ch));
    assert(g.residual2 == entry(gacts, al.residual2.off as int, l, n * ch));
    assert(p.w1 == entry(params, pl.w1.off as int, l, h * ch));
    assert(p.w2 == entry(params, pl.w2.off as int, l, h * ch));
    assert(p.w3 == entry(params, pl.w3.off as int, l, h * ch));
    assert(p.ln2w == entry(params, pl.ln2w.off as int, l, ch));
    assert(w.w1 == entry(grads, pl.w1.off as int, l, h * ch));
    assert(w.w2 == entry(grads, pl.w2.off as int, l, h * ch));
    assert(w.w3 == entry(grads, pl.w3.off as int, l, h * ch));
    assert(w.ln2w == entry(grads, pl.ln2w.off as int, l, ch));
    assert(m.fcproj == mask_entry(masks, mask_layout(c).fcproj.off as int, l, n * ch));
    assert(pulled_back(val, g.gate, p.w1, n, ch, h, ln2));
}

/// Backward over the attention half.
#[verifier::rlimit(40)]
proof fn lemma_attention_half_back<F: Scalar>(
    val: spec_fn(F) -> real,
    c: Config,
    params: Seq<F>,
    masks: Option<Seq<F>>,
    acts: Seq<F>,
    z: Seq<F>,
    zw: Seq<F>,
    grads: Seq<F>,
    gacts: Seq<F>,
    d_inp: Seq<F>,
    l: int,
)
    requires
        exact(val),
        exact_roots(val),
        exact_powers(val),
        c.runs(),
        params.len() == c.param_total(),
        acts.len() == c.act_total(),
        grads.len() == c.param_total(),
        gacts.len() == c.act_total(),
        z.len() == c.act_total(),
        zw.len() == c.param_total(),
        all_zero(z),
        all_zero(zw),
        masks matches Some(m) ==> m.len() == c.mask_total(),
        0 <= l < c.n_layer,
        attended_gradient_is(
            c,
            layer_params(c, params, l),
            layer_masks(c, masks, l),
            stream(c, acts, l),
            layer_acts(c, acts, l),
            layer_acts(c, z, l),
            stream(c, z, l),
            layer_acts(c, gacts, l),
            d_inp,
            layer_params(c, zw, l),
            layer_params(c, grads, l),
        ),
    ensures
        attention_half_back(
            val,
            c,
            params,
            masks,
            acts,
            grads,
            gacts,
            stream(c, acts, l),
            d_inp,
            l,
        ),
{
    let a = layer_acts(c, acts, l);
    let p = layer_params(c, params, l);
    let m = layer_masks(c, masks, l);
    let g0 = layer_acts(c, z, l);
    let g = layer_acts(c, gacts, l);
    let w0 = layer_params(c, zw, l);
    let w = layer_params(c, grads, l);
    let inp = stream(c, acts, l);
    let d0 = stream(c, z, l);
    let (b, t, nh, ch) = (
        c.batch_size as int,
        c.block_size as int,
        c.n_head as int,
        c.n_embd as int,
    );
    let n = c.tokens();
    let hs = c.head_size() as int;
    lemma_layer_sizes(c, params, acts, l);
    lemma_layer_sizes(c, grads, gacts, l);
    lemma_layer_sizes(c, zw, z, l);
    lemma_layer_zeros(c, z, zw, l);
    lemma_stream_size(c, acts, l);
    lemma_stream_size(c, z, l);
    lemma_shapes(c);
    lemma_att_sizes(c, acts, l);
    let (d, proj, qkv) = choose|d: Seq<F>, proj: Seq<F>, qkv: Seq<F>| #[trigger]
        attended_gradient_with(c, p, m, inp, a, g0, d0, g, d_inp, w0, w, d, proj, qkv);
    lemma_dropped_on(val, g0.attproj, g.residual2, proj, m.attproj, g.attproj);
    lemma_pulled_back(val, g.attproj, p.attprojw, n, ch, ch, g0.atty, g.atty);
    lemma_weight_pulled_back(val, g.attproj, a.atty, n, ch, ch, w0.attprojw, w.attprojw);
    if masks is Some {
        lemma_mask_slots(c, l);
    }
    let zd = (g0.qkv, g0.preatt, g0.att);
    let nd = (qkv, g.preatt, g.att);
    assert(attention_sizes(a.qkv, m.att, a.att, g.atty, zd, b, t, nh, hs));
    lemma_zero_values(val, g0.qkv);
    lemma_zero_values(val, g0.preatt);
    lemma_zero_values(val, g0.att);
    assert forall|bi: int, h: int, ti: int|
        0 <= bi < b && 0 <= h < nh && 0 <= ti < t implies #[trigger] head_back(
        val,
        a.qkv,
        m.att,
        a.att,
        g.atty,
        t,
        nh,
        hs,
        zd,
        nd,
        bi,
        h,
        ti,
    ) by {
        lemma_attention_gradient_values(
            val,
            a.qkv,
            m.att,
            a.att,
            g.atty,
            b,
            t,
            nh,
            hs,
            zd,
            nd,
            bi,
            h,
            ti,
        );
    }
    assert(attention_back(val, a.qkv, m.att, a.att, g.atty, b, t, nh, hs, zd, nd));
    assert(qkv.len() == n * ((3 * nh) * hs)) by {
        reveal(attention_gradient_is);
        assert(qkv.len() == g0.qkv.len());
        assert((3 * nh) * hs == packed(nh, hs));
    }
    lemma_turned(val, true, n, t, nh, c.head_size(), qkv, g.qkv);
    lemma_pulled_back(val, g.qkv, p.qkvw, n, ch, 3 * ch, g0.ln1, g.ln1);
    lemma_weight_pulled_back(val, g.qkv, a.ln1, n, ch, 3 * ch, w0.qkvw, w.qkvw);
    lemma_sums(val, d0, g.residual2, d);
    assert forall|i: int| 0 <= i < n * ch implies val(#[trigger] d[i]) == val(g.residual2[i]) by {
        assert(is_zero(d0[i]));
    }
    lemma_norm_back(
        val,
        inp,
        a.ln1_rstd,
        p.ln1w,
        g.ln1,
        n,
        ch,
        g.residual2,
        d,
        d_inp,
        w0.ln1w,
        w.ln1w,
    );
    let (al, pl) = (act_layout(c), param_layout(c));
    let s = b * ((nh * t) * t);
    assert(a.ln1 == entry(acts, al.ln1.off as int, l, n * ch));
    assert(a.ln1_rstd == entry(acts, al.ln1_rstd.off as int, l, n));
    assert(a.qkv == entry(acts, al.qkv.off as int, l, n * (3 * ch)));
    assert(a.atty == entry(acts, al.atty.off as int, l, n * ch));
    assert(a.att == entry(acts, al.att.off as int, l, s));
    assert(g.ln1 == entry(gacts, al.ln1.off as int, l, n * ch));
    assert(g.qkv == entry(gacts, al.qkv.off as int, l, n * (3 * ch)));
    assert(g.atty == entry(gacts, al.atty.off as int, l, n * ch));
    assert(g.preatt == entry(gacts, al.preatt.off as int, l, s));
    assert(g.att == entry(gacts, al.att.off as int, l, s));
    assert(g.attproj == entry(gacts, al.attproj.off as int, l, n * ch));
    assert(g.residual2 == entry(gacts, al.residual2.off as int, l, n * ch));
    assert(p.ln1w == entry(params, pl.ln1w.off as int, l, ch));
    assert(p.qkvw == entry(params, pl.qkvw.off as int, l, (3 * ch) * ch));
    assert(p.attprojw == entry(params, pl.attprojw.off as int, l, ch * ch));
    assert(w.ln1w == entry(grads, pl.ln1w.off as int, l, ch));
    assert(w.qkvw == entry(grads, pl.qkvw.off as int, l, (3 * ch) * ch));
    assert(w.attprojw == entry(grads, pl.attprojw.off as int, l, ch * ch));
    assert(m.att == mask_entry(masks, mask_layout(c).att.off as int, l, s));
    assert(m.attproj == mask_entry(masks, mask_layout(c).attproj.off as int, l, n * ch));
    assert(hs == ch / nh);
    assert(turned_values(val, true, n, t, nh, hs, qkv, g.qkv));
}

/// The weights of layer `l` have their size.
proof fn lemma_att_sizes<F>(c: Config, acts: Seq<F>, l: int)
    requires
        c.runs(),
        acts.len() == c.act_total(),
        0 <= l < c.n_layer,
    ensures
        layer_acts(c, acts, l).att.len() == c.att_acts(),
        c.att_acts() == c.batch_size * ((c.n_head * c.block_size) * c.block_size),
{
    lemma_act_layout(c);
    lemma_act_sizes(c);
    lemma_row_bounds(l, c.n_layer as int, c.att_acts());
}

/// Every layer runs backward over its two halves: from the gradient of the stream
/// behind it to that of the stream in front of it, with the parameters, the keep
/// factors and the activations of that layer. In front of the first layer stands
/// dropout.
pub proof fn lemma_layer_back_values<F: Scalar>(
    val: spec_fn(F) -> real,
    ex: spec_fn(real) -> real,
    c: Config,
    params: Seq<F>,
    ids: Seq<u16>,
    targets: Seq<u16>,
    masks: Option<Seq<F>>,
    acts: Seq<F>,
    grads: Seq<F>,
    gacts: Seq<F>,
    l: int,
)
    requires
        exact(val),
        exact_roots(val),
        exact_powers(val),
        exponential(val, ex),
        c.runs(),
        params.len() == c.param_total(),
        acts.len() == c.act_total(),
        masks matches Some(m) ==> m.len() == c.mask_total(),
        0 <= l < c.n_layer,
        backward_is(c, params, ids, targets, masks, acts, grads, gacts),
    ensures
        ({
            let (al, ml) = (act_layout(c), mask_layout(c));
            let n = c.batch_size * c.block_size * c.n_embd;
            let before = stream_entry(c, acts, l);
            &&& feed_forward_back(
                val,
                ex,
                c,
                params,
                masks,
                acts,
                grads,
                gacts,
                entry(gacts, al.residual3.off as int, l, n),
                l,
            )
            &&& exists|d: Seq<F>| #[trigger]
                attention_half_back(val, c, params, masks, acts, grads, gacts, before, d, l) && (l
                    > 0 ==> d == stream_entry(c, gacts, l)) && (l == 0 ==> dropped_values(
                    val,
                    d,
                    mask_entry(masks, ml.encoded.off as int, 0, n),
                    stream_entry(c, gacts, 0),
                ))
        }),
{
    reveal(backward_is);
    let (z, zw, d0) = choose|z: Seq<F>, zw: Seq<F>, d0: Seq<F>| #[trigger]
        backward_with(c, params, ids, targets, masks, acts, z, zw, d0, grads, gacts);
    let g = layer_acts(c, gacts, l);
    let d = grad_stream(c, gacts, d0, l);
    assert(layer_gradient_is(
        c,
        layer_params(c, params, l),
        layer_masks(c, masks, l),
        stream(c, acts, l),
        layer_acts(c, acts, l),
        layer_acts(c, z, l),
        grad_stream(c, gacts, d0, l + 1),
        stream(c, z, l),
        g,
        d,
        layer_params(c, zw, l),
        layer_params(c, grads, l),
    ));
    lemma_feed_forward_back(val, ex, c, params, masks, acts, z, zw, grads, gacts, l);
    lemma_attention_half_back(val, c, params, masks, acts, z, zw, grads, gacts, d, l);
    lemma_dropped(val, d0, encoded_mask(c, masks), stream(c, gacts, 0));
    lemma_act_layout(c);
    lemma_act_sizes(c);
    lemma_mask_layout(c);
    let n = c.batch_size * c.block_size * c.n_embd;
    assert(0 * n == 0);
    let al = act_layout(c);
    assert(stream(c, gacts, l + 1) == entry(gacts, al.residual3.off as int, l, n));
    assert(stream(c, acts, l) == stream_entry(c, acts, l));
    assert(stream(c, gacts, l) == stream_entry(c, gacts, l));
    assert(encoded_mask(c, masks) == mask_entry(masks, mask_layout(c).encoded.off as int, 0, n));
    assert(attention_half_back(
        val,
        c,
        params,
        masks,
        acts,
        grads,
        gacts,
        stream_entry(c, acts, l),
        d,
        l,
    ));
}

/// Backward from the losses: the gradient of logit `j` of token `r`, times the
/// number of tokens, is its probability, less one at the target.
pub proof fn lemma_logit_back_values<F: Scalar>(
    val: spec_fn(F) -> real,
    c: Config,
    params: Seq<F>,
    ids: Seq<u16>,
    targets: Seq<u16>,
    masks: Option<Seq<F>>,
    acts: Seq<F>,
    grads: Seq<F>,
    gacts: Seq<F>,
    r: int,
    j: int,
)
    requires
        exact(val),
        c.runs(),
        acts.len() == c.act_total(),
        0 <= r < c.batch_size * c.block_size,
        0 <= j < c.vocab_size,
        backward_is(c, params, ids, targets, masks, acts, grads, gacts),
    ensures
        ({
            let al = act_layout(c);
            let (n, v) = (c.batch_size * c.block_size, c.vocab_size as int);
            times(val(gacts[al.logits.off + r * v + j]), n as real) == val(
                acts[al.probs.off + r * v + j],
            ) - (if j == targets[r] {
                1 as real
            } else {
                0 as real
            })
        }),
{
    reveal(backward_is);
    let (z, zw, d0) = choose|z: Seq<F>, zw: Seq<F>, d0: Seq<F>| #[trigger]
        backward_with(c, params, ids, targets, masks, acts, z, zw, d0, grads, gacts);
    let al = act_layout(c);
    let (n, v) = (c.tokens(), c.vocab_size as int);
    lemma_act_layout(c);
    lemma_act_sizes(c);
    lemma_shapes(c);
    lemma_row_bounds(r, n, v);
    let (p, old_d, new_d) = (al.probs.of(acts), al.logits.of(z), al.logits.of(gacts));
    let (count, dmean) = choose|count: F, dmean: F| #[trigger]
        ratio_is(n as usize, 1, count) && reciprocal_is(count, dmean) && #[trigger]
        logit_gradient_is(p, targets, n, v, dmean, old_d, new_d);
    let one = choose|one: F| #[trigger] is_one(one) && quotient_is(one, count, dmean);
    let k = val(count);
    assert(k * (1 as int as real) == n as usize as int as real);
    assert(k * 1 as real == k) by (nonlinear_arith);
    lemma_logit_gradient_values(val, p, targets, n, v, dmean, old_d, new_d, r, j);
    assert(is_zero(z[al.logits.off + r * v + j]));
    assert(old_d[r * v + j] == z[al.logits.off + r * v + j]);
    assert(new_d[r * v + j] == gacts[al.logits.off + r * v + j]);
    assert(p[r * v + j] == acts[al.probs.off + r * v + j]);
    let x = val(p[r * v + j]) - (if j == targets[r] {
        1 as real
    } else {
        0 as real
    });
    let y = val(dmean);
    assert((x * y) * k == x * (y * k)) by (nonlinear_arith);
    lemma_times_one(x, y * k);
}

proof fn lemma_times_one(x: real, y: real)
    requires
        y == 1 as real,
    ensures
        x * y == x,
{
    assert(x * 1 as real == x) by (nonlinear_arith);
}

/// Backward from the logits to the stream behind the last layer: over the output
/// projection and the last norm, with their weights.
pub proof fn lemma_head_back_values<F: Scalar>(
    val: spec_fn(F) -> real,
    c: Config,
    params: Seq<F>,
    ids: Seq<u16>,
    targets: Seq<u16>,
    masks: Option<Seq<F>>,
    acts: Seq<F>,
    grads: Seq<F>,
    gacts: Seq<F>,
)
    requires
        exact(val),
        c.runs(),
        params.len() == c.param_total(),
        acts.len() == c.act_total(),
        0 < c.n_layer,
        backward_is(c, params, ids, targets, masks, acts, grads, gacts),
    ensures
        ({
            let (al, pl) = (act_layout(c), param_layout(c));
            let (ch, n, v) = (c.n_embd as int, c.batch_size * c.block_size, c.vocab_size as int);
            let last = c.n_layer - 1;
            let d_logits = entry(gacts, al.logits.off as int, 0, n * v);
            let d_lnf = entry(gacts, al.lnf.off as int, 0, n * ch);
            exists|base: Seq<F>| #[trigger]
                zero_values(val, base) && base.len() == n * ch && pulled_back(
                    val,
                    d_logits,
                    entry(params, pl.lm_head.off as int, 0, v * ch),
                    n,
                    ch,
                    v,
                    d_lnf,
                ) && weight_pulled_back(
                    val,
                    d_logits,
                    entry(acts, al.lnf.off as int, 0, n * ch),
                    n,
                    ch,
                    v,
                    entry(grads, pl.lm_head.off as int, 0, v * ch),
                ) && norm_back(
                    val,
                    entry(acts, al.residual3.off as int, last, n * ch),
                    entry(acts, al.lnf_rstd.off as int, 0, n),
                    entry(params, pl.lnfw.off as int, 0, ch),
                    d_lnf,
                    n,
                    ch,
                    base,
                    entry(gacts, al.residual3.off as int, last, n * ch),
                    entry(grads, pl.lnfw.off as int, 0, ch),
                )
        }),
{
    reveal(backward_is);
    let (z, zw, d0) = choose|z: Seq<F>, zw: Seq<F>, d0: Seq<F>| #[trigger]
        backward_with(c, params, ids, targets, masks, acts, z, zw, d0, grads, gacts);
    let (al, pl) = (act_layout(c), param_layout(c));
    let (ch, n, v) = (c.n_embd as int, c.tokens(), c.vocab_size as int);
    let last = c.n_layer as int;
    lemma_act_layout(c);
    lemma_act_sizes(c);
    lemma_param_layout(c);
    lemma_param_sizes(c);
    lemma_shapes(c);
    lemma_last_stream(c);
    lemma_stream_size(c, acts, last);
    lemma_stream_size(c, z, last);
    let d_logits = al.logits.of(gacts);
    let d_lnf = al.lnf.of(gacts);
    let base = stream(c, z, last);
    lemma_pulled_back(val, d_logits, pl.lm_head.of(params), n, ch, v, al.lnf.of(z), d_lnf);
    lemma_weight_pulled_back(
        val,
        d_logits,
        al.lnf.of(acts),
        n,
        ch,
        v,
        pl.lm_head.of(zw),
        pl.lm_head.of(grads),
    );
    lemma_norm_back(
        val,
        stream(c, acts, last),
        al.lnf_rstd.of(acts),
        pl.lnfw.of(params),
        d_lnf,
        n,
        ch,
        base,
        base,
        stream(c, gacts, last),
        pl.lnfw.of(zw),
        pl.lnfw.of(grads),
    );
    assert(zero_values(val, base)) by {
        assert(all_zero(base));
        lemma_zero_values(val, base);
    }
    assert(d_logits == entry(gacts, al.logits.off as int, 0, n * v));
    assert(d_lnf == entry(gacts, al.lnf.off as int, 0, n * ch));
    assert(pl.lm_head.of(params) == entry(params, pl.lm_head.off as int, 0, v * ch));
    assert(pl.lm_head.of(grads) == entry(grads, pl.lm_head.off as int, 0, v * ch));
    assert(al.lnf.of(acts) == entry(acts, al.lnf.off as int, 0, n * ch));
    assert(al.lnf_rstd.of(acts) == entry(acts, al.lnf_rstd.off as int, 0, n));
    assert(pl.lnfw.of(params) == entry(params, pl.lnfw.off as int, 0, ch));
    assert(pl.lnfw.of(grads) == entry(grads, pl.lnfw.off as int, 0, ch));
    assert(stream(c, acts, last) == entry(acts, al.residual3.off as int, last - 1, n * ch));
    assert(stream(c, gacts, last) == entry(gacts, al.residual3.off as int, last - 1, n * ch));
}

/// Backward into the embedding table: channel `i` of the row for id `x` sums the
/// gradients in front of the first layer of the tokens with that id.
pub proof fn lemma_table_back_values<F: Scalar>(
    val: spec_fn(F) -> real,
    c: Config,
    params: Seq<F>,
    ids: Seq<u16>,
    targets: Seq<u16>,
    masks: Option<Seq<F>>,
    acts: Seq<F>,
    grads: Seq<F>,
    gacts: Seq<F>,
    x: int,
    i: int,
)
    requires
        exact(val),
        c.runs(),
        batch_ids(c, ids),
        0 <= x < c.vocab_size,
        0 <= i < c.n_embd,
        backward_is(c, params, ids, targets, masks, acts, grads, gacts),
    ensures
        val(grads[x * c.n_embd + i]) == sum_to(
            ids.len(),
            |k: int|
                if ids[k] == x {
                    val(gacts[act_layout(c).encoded.off + k * c.n_embd + i])
                } else {
                    0 as real
                },
        ),
{
    reveal(backward_is);
    let (z, zw, d0) = choose|z: Seq<F>, zw: Seq<F>, d0: Seq<F>| #[trigger]
        backward_with(c, params, ids, targets, masks, acts, z, zw, d0, grads, gacts);
    let (al, pl) = (act_layout(c), param_layout(c));
    let (ch, v) = (c.n_embd as int, c.vocab_size as int);
    lemma_act_layout(c);
    lemma_act_sizes(c);
    lemma_param_layout(c);
    lemma_param_sizes(c);
    lemma_shapes(c);
    lemma_stream_size(c, gacts, 0);
    lemma_row_bounds(x, v, ch);
    let d = stream(c, gacts, 0);
    lemma_scatter_values(val, ids, d, v, ch, pl.wte.of(zw), pl.wte.of(grads), x, i);
    assert(is_zero(zw[x * ch + i]));
    assert(pl.wte.of(zw)[x * ch + i] == zw[x * ch + i]);
    assert(pl.wte.of(grads)[x * ch + i] == grads[x * ch + i]);
    let f = |k: int|
        if ids[k] == x {
            val(d[k * ch + i])
        } else {
            0 as real
        };
    let g = |k: int|
        if ids[k] == x {
            val(gacts[al.encoded.off + k * ch + i])
        } else {
            0 as real
        };
    assert forall|k: int| 0 <= k < ids.len() implies #[trigger] f(k) == g(k) by {
        lemma_row_bounds(k, ids.len() as int, ch);
    }
    lemma_sum_same(ids.len(), f, g);
    lemma_sum_same(
        ids.len(),
        f,
        |k: int|
            if ids[k] == x {
                val(d[k * ch + i])
            } else {
                0 as real
            },
    );
}

} // verus!
