//! What the forward pass computes where the arithmetic is exact: every
//! activation of every layer as a formula over the activations in front of it
//! and the parameters of that layer.

use vstd::prelude::*;

use crate::arena::{lemma_row_bounds, tensor};
use crate::exact::exact;
use crate::exact::gate::{exponential, lemma_gate_values};
use crate::exact::heads::{keep_at, lemma_attention_values, mixed_at, weights_at};
use crate::exact::losses::{lemma_loss_values, lemma_mean_values, lemma_softmax_values};
use crate::exact::ops::{
    lemma_embedding_values, lemma_linear_values, lemma_norm_values, lemma_scaled_values,
    lemma_sums_values, linear_values, norm_values,
};
use crate::exact::power::{exact_powers, exact_roots};
use crate::exact::rope::{lemma_rope_turns, pair_turned};
use crate::layout::{
    act_layout, lemma_act_layout, lemma_act_sizes, lemma_mask_layout, lemma_param_layout,
    lemma_param_sizes, mask_layout, param_layout, Config,
};
use crate::model::forward::{
    attended_is, batch_ids, dropped_is, encoded_mask, fed_forward_is, forward_is, layer_is,
    projected_is, scored_is,
};
use crate::model::layer::{
    layer_acts, layer_masks, layer_params, lemma_last_stream, lemma_mask_slots, lemma_shapes,
    stream,
};
use crate::ops::embed::embedding_is;
use crate::ops::linear::linear_is;
use crate::ops::pointwise::sums_are;
use crate::ops::rope::rope_is;
use crate::scalar::Scalar;
use crate::sums::{lemma_sum_same, sum_to, times};

verus! {

/// Entry `l` of a tensor of entries of `n` values that starts at `off`.
pub open spec fn entry<F>(s: Seq<F>, off: int, l: int, n: int) -> Seq<F> {
    s.subrange(off + l * n, off + l * n + n)
}

/// Entry `l` of a tensor of keep factors, if there are any.
pub open spec fn mask_entry<F>(s: Option<Seq<F>>, off: int, l: int, n: int) -> Option<Seq<F>> {
    match s {
        Some(m) => Some(entry(m, off, l, n)),
        None => None,
    }
}

/// Pair `j` of head `m` of row `k` is turned by its position, or stays among the
/// values.
pub open spec fn head_pair_turned<F: Scalar>(
    val: spec_fn(F) -> real,
    back: bool,
    t: int,
    nh: int,
    hs: int,
    x: Seq<F>,
    y: Seq<F>,
    k: int,
    m: int,
    j: int,
) -> bool {
    let at = k * ((3 * nh) * hs) + m * hs + j;
    let half = hs / 2;
    if m < 2 * nh {
        pair_turned(
            val,
            back,
            (k % t) as nat,
            j as nat,
            hs as nat,
            x[at],
            x[at + half],
            y[at],
            y[at + half],
        )
    } else {
        y[at] == x[at] && y[at + half] == x[at + half]
    }
}

/// Every pair of every query and key is turned by its position.
pub open spec fn turned_values<F: Scalar>(
    val: spec_fn(F) -> real,
    back: bool,
    n: int,
    t: int,
    nh: int,
    hs: int,
    x: Seq<F>,
    y: Seq<F>,
) -> bool {
    &&& y.len() == x.len()
    &&& forall|k: int, m: int, j: int|
        0 <= k < n && 0 <= m < 3 * nh && 0 <= j && 2 * j < hs ==> #[trigger] head_pair_turned(
            val,
            back,
            t,
            nh,
            hs,
            x,
            y,
            k,
            m,
            j,
        )
}

/// The scores, the weights and the output of head `h` of token `ti` of batch row
/// `bi`, with the scores scaled by the root of the head size.
pub open spec fn head_values<F>(
    val: spec_fn(F) -> real,
    ex: spec_fn(real) -> real,
    qkv: Seq<F>,
    mask: Option<Seq<F>>,
    t: int,
    nh: int,
    hs: int,
    out: Seq<F>,
    pre: Seq<F>,
    att: Seq<F>,
    bi: int,
    h: int,
    ti: int,
) -> bool {
    &&& exists|s: real| #[trigger]
        weights_at(val, ex, s, qkv, pre, att, t, nh, hs, bi, h, ti) && s > 0 as real && (s * s) * (
        hs as real) == 1 as real
    &&& mixed_at(val, qkv, mask, att, out, t, nh, hs, bi, h, ti)
}

/// The same for all heads, tokens and batch rows.
pub open spec fn attention_values<F>(
    val: spec_fn(F) -> real,
    ex: spec_fn(real) -> real,
    qkv: Seq<F>,
    mask: Option<Seq<F>>,
    b: int,
    t: int,
    nh: int,
    hs: int,
    out: Seq<F>,
    pre: Seq<F>,
    att: Seq<F>,
) -> bool {
    forall|bi: int, h: int, ti: int|
        0 <= bi < b && 0 <= h < nh && 0 <= ti < t ==> #[trigger] head_values(
            val,
            ex,
            qkv,
            mask,
            t,
            nh,
            hs,
            out,
            pre,
            att,
            bi,
            h,
            ti,
        )
}

/// Every value times its keep factor.
pub open spec fn dropped_values<F>(
    val: spec_fn(F) -> real,
    raw: Seq<F>,
    mask: Option<Seq<F>>,
    out: Seq<F>,
) -> bool {
    &&& out.len() == raw.len()
    &&& forall|i: int|
        0 <= i < raw.len() ==> val(#[trigger] out[i]) == times(val(raw[i]), keep_at(val, mask, i))
}

/// Every value is the sum of two.
pub open spec fn sum_values<F>(val: spec_fn(F) -> real, a: Seq<F>, b: Seq<F>, y: Seq<F>) -> bool {
    &&& y.len() == a.len()
    &&& forall|i: int| 0 <= i < a.len() ==> val(#[trigger] y[i]) == val(a[i]) + val(b[i])
}

/// Every value is gated.
pub open spec fn gate_values<F>(
    val: spec_fn(F) -> real,
    ex: spec_fn(real) -> real,
    gate: Seq<F>,
    up: Seq<F>,
    y: Seq<F>,
) -> bool {
    &&& y.len() == gate.len()
    &&& forall|i: int|
        0 <= i < gate.len() ==> val(#[trigger] y[i]) * (1 as real + ex(-val(gate[i]))) == val(
            gate[i],
        ) * val(up[i])
}

/// A projection with dropout behind it.
pub open spec fn projected_values<F>(
    val: spec_fn(F) -> real,
    x: Seq<F>,
    w: Seq<F>,
    n: int,
    c: int,
    oc: int,
    mask: Option<Seq<F>>,
    out: Seq<F>,
) -> bool {
    exists|raw: Seq<F>| #[trigger]
        linear_values(val, x, w, None, n, c, oc, raw) && dropped_values(val, raw, mask, out)
}

/// The attention half of layer `l`, on the stream `inp`: norm, projection to
/// queries, keys and values, turning, attention, projection and sum.
pub open spec fn attention_half<F: Scalar>(
    val: spec_fn(F) -> real,
    ex: spec_fn(real) -> real,
    c: Config,
    params: Seq<F>,
    masks: Option<Seq<F>>,
    acts: Seq<F>,
    inp: Seq<F>,
    l: int,
) -> bool {
    let (al, pl, ml) = (act_layout(c), param_layout(c), mask_layout(c));
    let (b, t, nh, ch) = (
        c.batch_size as int,
        c.block_size as int,
        c.n_head as int,
        c.n_embd as int,
    );
    let n = b * t;
    let hs = ch / nh;
    let ln1 = entry(acts, al.ln1.off as int, l, n * ch);
    let qkv = entry(acts, al.qkv.off as int, l, n * (3 * ch));
    let atty = entry(acts, al.atty.off as int, l, n * ch);
    let pre = entry(acts, al.preatt.off as int, l, b * ((nh * t) * t));
    let att = entry(acts, al.att.off as int, l, b * ((nh * t) * t));
    let attproj = entry(acts, al.attproj.off as int, l, n * ch);
    let residual2 = entry(acts, al.residual2.off as int, l, n * ch);
    &&& norm_values(
        val,
        inp,
        entry(params, pl.ln1w.off as int, l, ch),
        n,
        ch,
        ln1,
        entry(acts, al.ln1_rstd.off as int, l, n),
    )
    &&& exists|raw: Seq<F>| #[trigger]
        linear_values(
            val,
            ln1,
            entry(params, pl.qkvw.off as int, l, (3 * ch) * ch),
            None,
            n,
            ch,
            3 * ch,
            raw,
        ) && turned_values(val, false, n, t, nh, hs, raw, qkv)
    &&& attention_values(
        val,
        ex,
        qkv,
        mask_entry(masks, ml.att.off as int, l, b * ((nh * t) * t)),
        b,
        t,
        nh,
        hs,
        atty,
        pre,
        att,
    )
    &&& projected_values(
        val,
        atty,
        entry(params, pl.attprojw.off as int, l, ch * ch),
        n,
        ch,
        ch,
        mask_entry(masks, ml.attproj.off as int, l, n * ch),
        attproj,
    )
    &&& sum_values(val, inp, attproj, residual2)
}

/// The feed-forward half of layer `l`: norm, gate and up projection, gating,
/// projection and sum, which is the stream behind the layer.
pub open spec fn feed_forward_half<F: Scalar>(
    val: spec_fn(F) -> real,
    ex: spec_fn(real) -> real,
    c: Config,
    params: Seq<F>,
    masks: Option<Seq<F>>,
    acts: Seq<F>,
    l: int,
) -> bool {
    let (al, pl, ml) = (act_layout(c), param_layout(c), mask_layout(c));
    let (ch, n) = (c.n_embd as int, c.batch_size * c.block_size);
    let h = 8 * ch / 3;
    let residual2 = entry(acts, al.residual2.off as int, l, n * ch);
    let ln2 = entry(acts, al.ln2.off as int, l, n * ch);
    let gate = entry(acts, al.gate.off as int, l, n * h);
    let up = entry(acts, al.up.off as int, l, n * h);
    let glu = entry(acts, al.glu.off as int, l, n * h);
    let fcproj = entry(acts, al.fcproj.off as int, l, n * ch);
    &&& norm_values(
        val,
        residual2,
        entry(params, pl.ln2w.off as int, l, ch),
        n,
        ch,
        ln2,
        entry(acts, al.ln2_rstd.off as int, l, n),
    )
    &&& linear_values(val, ln2, entry(params, pl.w1.off as int, l, h * ch), None, n, ch, h, gate)
    &&& linear_values(val, ln2, entry(params, pl.w3.off as int, l, h * ch), None, n, ch, h, up)
    &&& gate_values(val, ex, gate, up, glu)
    &&& projected_values(
        val,
        glu,
        entry(params, pl.w2.off as int, l, h * ch),
        n,
        h,
        ch,
        mask_entry(masks, ml.fcproj.off as int, l, n * ch),
        fcproj,
    )
    &&& sum_values(val, residual2, fcproj, entry(acts, al.residual3.off as int, l, n * ch))
}

/// Dropout, value by value.
pub(crate) proof fn lemma_dropped<F: Scalar>(
    val: spec_fn(F) -> real,
    raw: Seq<F>,
    mask: Option<Seq<F>>,
    out: Seq<F>,
)
    requires
        exact(val),
        dropped_is(raw, mask, out),
    ensures
        dropped_values(val, raw, mask, out),
{
    assert forall|i: int| 0 <= i < raw.len() implies val(#[trigger] out[i]) == times(
        val(raw[i]),
        keep_at(val, mask, i),
    ) by {
        match mask {
            Some(m) => {
                lemma_scaled_values(val, raw, m, out, i);
            },
            None => {
                let x = val(raw[i]);
                assert(x * 1 as real == x) by (nonlinear_arith);
            },
        }
    }
}

/// A projection with dropout, value by value.
proof fn lemma_projected<F: Scalar>(
    val: spec_fn(F) -> real,
    x: Seq<F>,
    w: Seq<F>,
    n: int,
    c: int,
    oc: int,
    mask: Option<Seq<F>>,
    out: Seq<F>,
)
    requires
        exact(val),
        0 <= c,
        x.len() == n * c,
        w.len() == oc * c,
        projected_is(x, w, n, c, oc, mask, out),
    ensures
        projected_values(val, x, w, n, c, oc, mask, out),
{
    let raw = choose|raw: Seq<F>| #[trigger]
        linear_is(x, w, None, n, c, oc, raw) && dropped_is(raw, mask, out);
    lemma_linear_values(val, x, w, None, n, c, oc, raw);
    lemma_dropped(val, raw, mask, out);
}

/// Sums, value by value.
pub(crate) proof fn lemma_sums<F: Scalar>(val: spec_fn(F) -> real, a: Seq<F>, b: Seq<F>, y: Seq<F>)
    requires
        exact(val),
        sums_are(a, b, y),
    ensures
        sum_values(val, a, b, y),
{
    reveal(sums_are);
    assert forall|i: int| 0 <= i < a.len() implies val(#[trigger] y[i]) == val(a[i]) + val(
        b[i],
    ) by {
        lemma_sums_values(val, a, b, y, i);
    }
}

/// Turning, pair by pair.
pub(crate) proof fn lemma_turned<F: Scalar>(
    val: spec_fn(F) -> real,
    back: bool,
    n: int,
    t: int,
    nh: int,
    hs: usize,
    x: Seq<F>,
    y: Seq<F>,
)
    requires
        exact(val),
        exact_powers(val),
        0 < t <= usize::MAX,
        hs % 2 == 0,
        x.len() == n * ((3 * nh) * hs),
        rope_is(back, n, t, nh, hs, x, y),
    ensures
        turned_values(val, back, n, t, nh, hs as int, x, y),
{
    assert(y.len() == x.len()) by {
        reveal(rope_is);
    }
    assert forall|k: int, m: int, j: int|
        0 <= k < n && 0 <= m < 3 * nh && 0 <= j && 2 * j < hs implies #[trigger] head_pair_turned(
        val,
        back,
        t,
        nh,
        hs as int,
        x,
        y,
        k,
        m,
        j,
    ) by {
        lemma_rope_turns(val, back, n, t, nh, hs, x, y, k, m, j as nat);
    }
}

/// The tensors of layer `l` lie in their buffers, and have their sizes.
pub(crate) proof fn lemma_layer_sizes<F>(c: Config, params: Seq<F>, acts: Seq<F>, l: int)
    requires
        c.runs(),
        params.len() == c.param_total(),
        acts.len() == c.act_total(),
        0 <= l < c.n_layer,
    ensures
        ({
            let a = layer_acts(c, acts, l);
            let p = layer_params(c, params, l);
            &&& a.ln1.len() == c.channel_acts()
            &&& a.qkv.len() == c.qkv_acts()
            &&& a.atty.len() == c.channel_acts()
            &&& a.residual2.len() == c.channel_acts()
            &&& a.ln2.len() == c.channel_acts()
            &&& a.gate.len() == c.hidden_acts()
            &&& a.up.len() == c.hidden_acts()
            &&& a.glu.len() == c.hidden_acts()
            &&& p.ln1w.len() == c.n_embd
            &&& p.qkvw.len() == c.qkv_weights()
            &&& p.attprojw.len() == c.square_weights()
            &&& p.ln2w.len() == c.n_embd
            &&& p.w1.len() == c.hidden_weights()
            &&& p.w3.len() == c.hidden_weights()
            &&& p.w2.len() == c.hidden_weights()
        }),
{
    lemma_act_layout(c);
    lemma_act_sizes(c);
    lemma_param_layout(c);
    lemma_param_sizes(c);
    let n = c.n_layer as int;
    lemma_row_bounds(l, n, c.channel_acts());
    lemma_row_bounds(l, n, c.qkv_acts());
    lemma_row_bounds(l, n, c.hidden_acts());
    lemma_row_bounds(l, n, c.n_embd as int);
    lemma_row_bounds(l, n, c.qkv_weights());
    lemma_row_bounds(l, n, c.square_weights());
    lemma_row_bounds(l, n, c.hidden_weights());
}

/// The stream in front of layer `l`, or behind the last one, has its size.
pub(crate) proof fn lemma_stream_size<F>(c: Config, acts: Seq<F>, l: int)
    requires
        c.runs(),
        acts.len() == c.act_total(),
        0 <= l <= c.n_layer,
    ensures
        stream(c, acts, l).len() == c.channel_acts(),
{
    lemma_act_layout(c);
    lemma_act_sizes(c);
    if l > 0 {
        lemma_row_bounds(l - 1, c.n_layer as int, c.channel_acts());
    }
}

/// Every layer computes its two halves: from the stream in front of it, with the
/// parameters and the keep factors of that layer, to the stream behind it, which
/// is the one in front of the next.
pub proof fn lemma_layer_values<F: Scalar>(
    val: spec_fn(F) -> real,
    ex: spec_fn(real) -> real,
    c: Config,
    params: Seq<F>,
    ids: Seq<u16>,
    masks: Option<Seq<F>>,
    acts: Seq<F>,
    l: int,
)
    requires
        exact(val),
        exact_roots(val),
        exact_powers(val),
        exponential(val, ex),
        c.runs(),
        params.len() == c.param_total(),
        masks matches Some(m) ==> m.len() == c.mask_total(),
        0 <= l < c.n_layer,
        forward_is(c, params, ids, masks, acts),
    ensures
        attention_half(
            val,
            ex,
            c,
            params,
            masks,
            acts,
            if l == 0 {
                entry(
                    acts,
                    act_layout(c).encoded.off as int,
                    0,
                    (c.batch_size * c.block_size) * c.n_embd,
                )
            } else {
                entry(
                    acts,
                    act_layout(c).residual3.off as int,
                    l - 1,
                    (c.batch_size * c.block_size) * c.n_embd,
                )
            },
            l,
        ),
        feed_forward_half(val, ex, c, params, masks, acts, l),
{
    reveal(forward_is);
    let a = layer_acts(c, acts, l);
    let p = layer_params(c, params, l);
    let m = layer_masks(c, masks, l);
    let inp = stream(c, acts, l);
    let out = stream(c, acts, l + 1);
    assert(layer_is(c, p, m, inp, a, out));
    lemma_layer_sizes(c, params, acts, l);
    lemma_stream_size(c, acts, l);
    lemma_shapes(c);
    lemma_attention_half(val, ex, c, params, masks, acts, l);
    lemma_feed_forward_half(val, ex, c, params, masks, acts, l);
}

proof fn lemma_attention_half<F: Scalar>(
    val: spec_fn(F) -> real,
    ex: spec_fn(real) -> real,
    c: Config,
    params: Seq<F>,
    masks: Option<Seq<F>>,
    acts: Seq<F>,
    l: int,
)
    requires
        exact(val),
        exact_roots(val),
        exact_powers(val),
        exponential(val, ex),
        c.runs(),
        params.len() == c.param_total(),
        acts.len() == c.act_total(),
        masks matches Some(m) ==> m.len() == c.mask_total(),
        0 <= l < c.n_layer,
        attended_is(
            c,
            layer_params(c, params, l),
            layer_masks(c, masks, l),
            stream(c, acts, l),
            layer_acts(c, acts, l),
        ),
    ensures
        attention_half(val, ex, c, params, masks, acts, stream(c, acts, l), l),
{
    let a = layer_acts(c, acts, l);
    let p = layer_params(c, params, l);
    let m = layer_masks(c, masks, l);
    let inp = stream(c, acts, l);
    let (b, t, nh, ch) = (
        c.batch_size as int,
        c.block_size as int,
        c.n_head as int,
        c.n_embd as int,
    );
    let n = c.tokens();
    let hs = c.head_size() as int;
    lemma_layer_sizes(c, params, acts, l);
    lemma_stream_size(c, acts, l);
    lemma_shapes(c);
    lemma_norm_values(val, inp, p.ln1w, n, ch, a.ln1, a.ln1_rstd);
    let raw = choose|raw: Seq<F>| #[trigger]
        linear_is(a.ln1, p.qkvw, None, n, ch, 3 * ch, raw) && rope_is(
            false,
            n,
            t,
            nh,
            c.head_size(),
            raw,
            a.qkv,
        );
    lemma_linear_values(val, a.ln1, p.qkvw, None, n, ch, 3 * ch, raw);
    lemma_turned(val, false, n, t, nh, c.head_size(), raw, a.qkv);
    if masks is Some {
        lemma_mask_slots(c, l);
    }
    assert forall|bi: int, h: int, ti: int|
        0 <= bi < b && 0 <= h < nh && 0 <= ti < t implies #[trigger] head_values(
        val,
        ex,
        a.qkv,
        m.att,
        t,
        nh,
        hs,
        a.atty,
        a.preatt,
        a.att,
        bi,
        h,
        ti,
    ) by {
        lemma_attention_values(
            val,
            ex,
            a.qkv,
            m.att,
            b,
            t,
            nh,
            hs,
            a.atty,
            a.preatt,
            a.att,
            bi,
            h,
            ti,
        );
    }
    lemma_projected(val, a.atty, p.attprojw, n, ch, ch, m.attproj, a.attproj);
    lemma_sums(val, inp, a.attproj, a.residual2);
    assert(a.ln1 == entry(acts, act_layout(c).ln1.off as int, l, n * ch));
    assert(a.ln1_rstd == entry(acts, act_layout(c).ln1_rstd.off as int, l, n));
    assert(p.ln1w == entry(params, param_layout(c).ln1w.off as int, l, ch));
    assert(p.qkvw == entry(params, param_layout(c).qkvw.off as int, l, (3 * ch) * ch));
    assert(a.qkv == entry(acts, act_layout(c).qkv.off as int, l, n * (3 * ch)));
    assert(a.atty == entry(acts, act_layout(c).atty.off as int, l, n * ch));
    assert(a.preatt == entry(acts, act_layout(c).preatt.off as int, l, b * ((nh * t) * t)));
    assert(a.att == entry(acts, act_layout(c).att.off as int, l, b * ((nh * t) * t)));
    assert(a.attproj == entry(acts, act_layout(c).attproj.off as int, l, n * ch));
    assert(a.residual2 == entry(acts, act_layout(c).residual2.off as int, l, n * ch));
    assert(p.attprojw == entry(params, param_layout(c).attprojw.off as int, l, ch * ch));
    assert(m.att == mask_entry(masks, mask_layout(c).att.off as int, l, b * ((nh * t) * t)));
    assert(m.attproj == mask_entry(masks, mask_layout(c).attproj.off as int, l, n * ch));
    assert(hs == ch / nh);
    assert(attention_values(val, ex, a.qkv, m.att, b, t, nh, hs, a.atty, a.preatt, a.att));
}

proof fn lemma_feed_forward_half<F: Scalar>(
    val: spec_fn(F) -> real,
    ex: spec_fn(real) -> real,
    c: Config,
    params: Seq<F>,
    masks: Option<Seq<F>>,
    acts: Seq<F>,
    l: int,
)
    requires
        exact(val),
        exact_roots(val),
        exponential(val, ex),
        c.runs(),
        params.len() == c.param_total(),
        acts.len() == c.act_total(),
        masks matches Some(m) ==> m.len() == c.mask_total(),
        0 <= l < c.n_layer,
        fed_forward_is(
            c,
            layer_params(c, params, l),
            layer_masks(c, masks, l),
            layer_acts(c, acts, l),
            stream(c, acts, l + 1),
        ),
    ensures
        feed_forward_half(val, ex, c, params, masks, acts, l),
{
    let a = layer_acts(c, acts, l);
    let p = layer_params(c, params, l);
    let m = layer_masks(c, masks, l);
    let n = c.tokens();
    let ch = c.n_embd as int;
    let h = c.hidden();
    lemma_layer_sizes(c, params, acts, l);
    lemma_shapes(c);
    lemma_norm_values(val, a.residual2, p.ln2w, n, ch, a.ln2, a.ln2_rstd);
    lemma_linear_values(val, a.ln2, p.w1, None, n, ch, h, a.gate);
    lemma_linear_values(val, a.ln2, p.w3, None, n, ch, h, a.up);
    assert(a.glu.len() == a.gate.len());
    assert forall|i: int| 0 <= i < a.gate.len() implies val(#[trigger] a.glu[i]) * (1 as real + ex(
        -val(a.gate[i]),
    )) == val(a.gate[i]) * val(a.up[i]) by {
        lemma_gate_values(val, ex, a.gate, a.up, a.glu, i);
    }
    lemma_projected(val, a.glu, p.w2, n, h, ch, m.fcproj, a.fcproj);
    lemma_sums(val, a.residual2, a.fcproj, stream(c, acts, l + 1));
}

/// In front of the first layer stands the embedding of the ids: channel `i` of
/// token `k` is that of the row of the table for its id, times its keep factor.
pub proof fn lemma_embedded_values<F: Scalar>(
    val: spec_fn(F) -> real,
    c: Config,
    params: Seq<F>,
    ids: Seq<u16>,
    masks: Option<Seq<F>>,
    acts: Seq<F>,
    k: int,
    i: int,
)
    requires
        exact(val),
        c.runs(),
        params.len() == c.param_total(),
        masks matches Some(m) ==> m.len() == c.mask_total(),
        batch_ids(c, ids),
        0 <= k < ids.len(),
        0 <= i < c.n_embd,
        forward_is(c, params, ids, masks, acts),
    ensures
        val(acts[act_layout(c).encoded.off + k * c.n_embd + i]) == times(
            val(params[ids[k] * c.n_embd + i]),
            match masks {
                Some(m) => val(m[mask_layout(c).encoded.off + k * c.n_embd + i]),
                None => 1 as real,
            },
        ),
{
    reveal(forward_is);
    let ch = c.n_embd as int;
    let al = act_layout(c);
    let pl = param_layout(c);
    lemma_act_layout(c);
    lemma_act_sizes(c);
    lemma_param_layout(c);
    lemma_param_sizes(c);
    lemma_stream_size(c, acts, 0);
    lemma_row_bounds(k, ids.len() as int, ch);
    lemma_row_bounds(ids[k] as int, c.vocab_size as int, ch);
    let enc = stream(c, acts, 0);
    let wte = pl.wte.of(params);
    let raw = choose|raw: Seq<F>| #[trigger]
        embedding_is(wte, ids, ch, raw) && dropped_is(raw, encoded_mask(c, masks), enc);
    lemma_embedding_values(wte, ids, c.vocab_size as int, ch, raw, k, i);
    lemma_dropped(val, raw, encoded_mask(c, masks), enc);
    let p = k * ch + i;
    assert(0 <= p < raw.len());
    assert(enc[p] == acts[al.encoded.off + k * ch + i]);
    assert(val(enc[p]) == times(val(raw[p]), keep_at(val, encoded_mask(c, masks), p)));
    assert(raw[p] == params[ids[k] * ch + i]);
    if let Some(m) = masks {
        lemma_mask_layout(c);
        assert(mask_layout(c).encoded.of(m)[p] == m[mask_layout(c).encoded.off + p]);
    }
}

/// Behind the last layer: the stream is normed with the last norm's weight, and
/// the logits are its products with the rows of the output projection.
pub proof fn lemma_logit_values<F: Scalar>(
    val: spec_fn(F) -> real,
    c: Config,
    params: Seq<F>,
    ids: Seq<u16>,
    masks: Option<Seq<F>>,
    acts: Seq<F>,
)
    requires
        exact(val),
        exact_roots(val),
        c.runs(),
        params.len() == c.param_total(),
        forward_is(c, params, ids, masks, acts),
    ensures
        ({
            let (al, pl) = (act_layout(c), param_layout(c));
            let (ch, n, v) = (
                c.n_embd as int,
                c.batch_size * c.block_size,
                c.vocab_size as int,
            );
            let lnf = entry(acts, al.lnf.off as int, 0, n * ch);
            &&& norm_values(
                val,
                entry(acts, al.residual3.off as int, c.n_layer - 1, n * ch),
                entry(params, pl.lnfw.off as int, 0, ch),
                n,
                ch,
                lnf,
                entry(acts, al.lnf_rstd.off as int, 0, n),
            )
            &&& linear_values(
                val,
                lnf,
                entry(params, pl.lm_head.off as int, 0, v * ch),
                None,
                n,
                ch,
                v,
                entry(acts, al.logits.off as int, 0, n * v),
            )
        }),
{
    reveal(forward_is);
    let (al, pl) = (act_layout(c), param_layout(c));
    let (ch, n, v) = (c.n_embd as int, c.tokens(), c.vocab_size as int);
    lemma_act_layout(c);
    lemma_act_sizes(c);
    lemma_param_layout(c);
    lemma_param_sizes(c);
    lemma_stream_size(c, acts, c.n_layer as int);
    lemma_last_stream(c);
    let last = stream(c, acts, c.n_layer as int);
    lemma_norm_values(val, last, pl.lnfw.of(params), n, ch, al.lnf.of(acts), al.lnf_rstd.of(acts));
    lemma_linear_values(
        val,
        al.lnf.of(acts),
        pl.lm_head.of(params),
        None,
        n,
        ch,
        v,
        al.logits.of(acts),
    );
    assert(0 * (n * ch) == 0 && 0 * n == 0 && 0 * ch == 0 && 0 * (v * ch) == 0 && 0 * (n * v)
        == 0);
}

/// The mean loss times the number of tokens is the sum of their losses, and the
/// exponential of a token's loss, times the exponential of the logit of its
/// target, is the sum of the exponentials of its logits.
pub proof fn lemma_scored_values<F: Scalar>(
    val: spec_fn(F) -> real,
    ex: spec_fn(real) -> real,
    c: Config,
    acts: Seq<F>,
    targets: Seq<u16>,
    loss: F,
    r: int,
)
    requires
        exact(val),
        exponential(val, ex),
        c.runs(),
        acts.len() == c.act_total(),
        batch_ids(c, targets),
        0 <= r < targets.len(),
        scored_is(c, acts, targets, loss),
    ensures
        ({
            let al = act_layout(c);
            let (n, v) = (c.batch_size * c.block_size, c.vocab_size as int);
            let (logits, losses) = (al.logits.off, al.losses.off);
            &&& times(val(loss), n as real) == sum_to(n as nat, |k: int| val(acts[losses + k]))
            &&& times(
                ex(-val(acts[losses + r])),
                sum_to(v as nat, |k: int| ex(val(acts[logits + r * v + k]))),
            ) == ex(val(acts[logits + r * v + targets[r]]))
        }),
{
    let al = act_layout(c);
    let (n, v) = (c.tokens(), c.vocab_size as int);
    lemma_act_layout(c);
    lemma_act_sizes(c);
    lemma_shapes(c);
    lemma_row_bounds(r, n, v);
    let (logits, probs, losses) = (al.logits.of(acts), al.probs.of(acts), al.losses.of(acts));
    let j = targets[r] as int;
    lemma_softmax_values(val, ex, logits, n, v, probs, r, j);
    lemma_loss_values(val, ex, probs, targets, n, v, losses, r);
    lemma_mean_values(val, losses, loss);
    lemma_sum_same(
        n as nat,
        |k: int| val(losses[k]),
        |k: int| val(acts[al.losses.off + k]),
    );
    lemma_sum_same(
        v as nat,
        |k: int| ex(val(logits[r * v + k])),
        |k: int| ex(val(acts[al.logits.off + r * v + k])),
    );
    assert(losses[r] == acts[al.losses.off + r]);
    assert(logits[r * v + j] == acts[al.logits.off + r * v + j]);
}

} // verus!
