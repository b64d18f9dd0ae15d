//! The backward pass.

use vstd::prelude::*;

use crate::arena::{group_kept, only_changed, tensor};
use crate::layout::{
    act_layout, lemma_act_layout, lemma_act_sizes, lemma_mask_layout, lemma_param_layout,
    lemma_param_sizes, mask_layout, param_layout, swiglu_hidden, ActLayout, Config, MaskLayout,
    ParamLayout,
};
use crate::model::forward::{
    batch_ids, drop_values, dropped_is, encoded_mask, mask_part, masks_cover,
};
use crate::model::layer::{
    acts_at, layer_acts, layer_changed, layer_masks, layer_params, lemma_behind_kept,
    lemma_last_stream, lemma_layer_behind_encoded, lemma_layer_in_front_of_last, lemma_mask_slots,
    lemma_other_layer_kept, lemma_other_params_kept, lemma_other_stream_kept,
    lemma_param_slots_ordered, lemma_params_behind_wte, lemma_params_in_front, lemma_shapes,
    lemma_shared_params_kept, lemma_slots_ordered, lemma_stream_in_front_of_last, params_at,
    params_changed, stream, stream_off, ActSlots, LayerActs, LayerMasks, LayerParams, ParamSlots,
};
use crate::ops::attention::mask_values;
use crate::ops::attention_backward::{attention_backward, attention_gradient_is};
use crate::ops::embed::{encoder_backward, scatter_is};
use crate::ops::linear::{input_gradient_is, linear_backward, weight_gradient_is};
use crate::ops::loss::{crossentropy_softmax_backward, logit_gradient_is, reciprocal_is};
use crate::ops::norm::{norm_gradient_is, norm_weight_gradient_is, rmsnorm_backward};
use crate::ops::pointwise::{
    residual_backward, sums_are, swiglu_backward, swiglu_gradient_is,
};
use crate::ops::rope::{rope_backward, rope_is};
use crate::scalar::{is_zero, ratio_is, Scalar};

verus! {

/// Backward over the feed-forward half of a layer, by the intermediate
/// gradients `r2` of the residual stream, `fc` in front of dropout and `ln2` of
/// the norm before the second of its two projections is counted.
pub open spec fn fed_forward_gradient_with<F: Scalar>(
    c: Config,
    p: LayerParams<F>,
    m: LayerMasks<F>,
    a: LayerActs<F>,
    g0: LayerActs<F>,
    d_out: Seq<F>,
    g: LayerActs<F>,
    w0: LayerParams<F>,
    w: LayerParams<F>,
    r2: Seq<F>,
    fc: Seq<F>,
    ln2: Seq<F>,
) -> bool {
    let n = c.tokens();
    let ch = c.n_embd as int;
    let h = c.hidden();
    &&& sums_are(g0.residual2, d_out, r2)
    &&& sums_are(g0.fcproj, d_out, fc)
    &&& dropped_is(fc, m.fcproj, g.fcproj)
    &&& input_gradient_is(g.fcproj, p.w2, n, h, ch, g0.glu, g.glu)
    &&& weight_gradient_is(g.fcproj, a.glu, n, h, ch, w0.w2, w.w2)
    &&& swiglu_gradient_is(a.gate, a.up, g.glu, g.gate, g.up)
    &&& input_gradient_is(g.gate, p.w1, n, ch, h, g0.ln2, ln2)
    &&& weight_gradient_is(g.gate, a.ln2, n, ch, h, w0.w1, w.w1)
    &&& input_gradient_is(g.up, p.w3, n, ch, h, ln2, g.ln2)
    &&& weight_gradient_is(g.up, a.ln2, n, ch, h, w0.w3, w.w3)
    &&& norm_gradient_is(a.residual2, a.ln2_rstd, p.ln2w, g.ln2, n, ch, r2, g.residual2)
    &&& norm_weight_gradient_is(a.residual2, a.ln2_rstd, g.ln2, n, ch, w0.ln2w, w.ln2w)
}

/// Backward over the feed-forward half of a layer: from the gradient `d_out` of
/// the residual stream behind it, and the gradients `g0` and `w0` before, to
/// the gradients `g` and `w`.
pub open spec fn fed_forward_gradient_is<F: Scalar>(
    c: Config,
    p: LayerParams<F>,
    m: LayerMasks<F>,
    a: LayerActs<F>,
    g0: LayerActs<F>,
    d_out: Seq<F>,
    g: LayerActs<F>,
    w0: LayerParams<F>,
    w: LayerParams<F>,
) -> bool {
    exists|r2: Seq<F>, fc: Seq<F>, ln2: Seq<F>| #[trigger]
        fed_forward_gradient_with(c, p, m, a, g0, d_out, g, w0, w, r2, fc, ln2)
}

/// Backward over the attention half of a layer, by the intermediate gradients
/// `d` of the residual stream, `proj` in front of dropout and `qkv` in front of
/// the rotation back.
pub open spec fn attended_gradient_with<F: Scalar>(
    c: Config,
    p: LayerParams<F>,
    m: LayerMasks<F>,
    inp: Seq<F>,
    a: LayerActs<F>,
    g0: LayerActs<F>,
    d_inp0: Seq<F>,
    g: LayerActs<F>,
    d_inp: Seq<F>,
    w0: LayerParams<F>,
    w: LayerParams<F>,
    d: Seq<F>,
    proj: Seq<F>,
    qkv: Seq<F>,
) -> bool {
    let n = c.tokens();
    let ch = c.n_embd as int;
    &&& sums_are(d_inp0, g.residual2, d)
    &&& sums_are(g0.attproj, g.residual2, proj)
    &&& dropped_is(proj, m.attproj, g.attproj)
    &&& input_gradient_is(g.attproj, p.attprojw, n, ch, ch, g0.atty, g.atty)
    &&& weight_gradient_is(g.attproj, a.atty, n, ch, ch, w0.attprojw, w.attprojw)
    &&& attention_gradient_is(
        a.qkv,
        a.att,
        m.att,
        g.atty,
        c.batch_size as int,
        c.block_size as int,
        c.n_head as int,
        c.head_size() as int,
        (g0.qkv, g0.preatt, g0.att),
        (qkv, g.preatt, g.att),
    )
    &&& rope_is(
        true,
        n,
        c.block_size as int,
        c.n_head as int,
        c.head_size(),
        qkv,
        g.qkv,
    )
    &&& input_gradient_is(g.qkv, p.qkvw, n, ch, 3 * ch, g0.ln1, g.ln1)
    &&& weight_gradient_is(g.qkv, a.ln1, n, ch, 3 * ch, w0.qkvw, w.qkvw)
    &&& norm_gradient_is(inp, a.ln1_rstd, p.ln1w, g.ln1, n, ch, d, d_inp)
    &&& norm_weight_gradient_is(inp, a.ln1_rstd, g.ln1, n, ch, w0.ln1w, w.ln1w)
}

/// Backward over the attention half of a layer: from the gradient
/// `g.residual2` of the residual stream behind it, and the gradients `g0`,
/// `d_inp0` and `w0` before, to the gradients `g`, `d_inp` and `w`.
pub open spec fn attended_gradient_is<F: Scalar>(
    c: Config,
    p: LayerParams<F>,
    m: LayerMasks<F>,
    inp: Seq<F>,
    a: LayerActs<F>,
    g0: LayerActs<F>,
    d_inp0: Seq<F>,
    g: LayerActs<F>,
    d_inp: Seq<F>,
    w0: LayerParams<F>,
    w: LayerParams<F>,
) -> bool {
    exists|d: Seq<F>, proj: Seq<F>, qkv: Seq<F>| #[trigger]
        attended_gradient_with(c, p, m, inp, a, g0, d_inp0, g, d_inp, w0, w, d, proj, qkv)
}

/// Backward over one layer.
pub open spec fn layer_gradient_is<F: Scalar>(
    c: Config,
    p: LayerParams<F>,
    m: LayerMasks<F>,
    inp: Seq<F>,
    a: LayerActs<F>,
    g0: LayerActs<F>,
    d_out: Seq<F>,
    d_inp0: Seq<F>,
    g: LayerActs<F>,
    d_inp: Seq<F>,
    w0: LayerParams<F>,
    w: LayerParams<F>,
) -> bool {
    &&& fed_forward_gradient_is(c, p, m, a, g0, d_out, g, w0, w)
    &&& attended_gradient_is(c, p, m, inp, a, g0, d_inp0, g, d_inp, w0, w)
}

/// The gradients of the attention half at `p`, and of the residual stream on
/// both sides of the layer, are what they were.
pub open spec fn attention_grads_kept<F>(
    c: Config,
    p: ActSlots,
    old_s: Seq<F>,
    new_s: Seq<F>,
) -> bool {
    let a = acts_at(c, p, old_s);
    let b = acts_at(c, p, new_s);
    let n = c.channel_acts();
    &&& tensor(new_s, p.inp as int, n) == tensor(old_s, p.inp as int, n)
    &&& tensor(new_s, p.out as int, n) == tensor(old_s, p.out as int, n)
    &&& a.ln1 == b.ln1
    &&& a.qkv == b.qkv
    &&& a.atty == b.atty
    &&& a.preatt == b.preatt
    &&& a.att == b.att
    &&& a.attproj == b.attproj
}

/// Run backward over the feed-forward half of a layer.
#[verifier::rlimit(80)]
fn feed_forward_half_backward<F: Scalar>(
    c: &Config,
    p: &ActSlots,
    w: &ParamSlots,
    params: &[F],
    acts: &[F],
    grads: &mut [F],
    gacts: &mut [F],
    fcproj_mask: Option<&[F]>,
    Ghost(lm): Ghost<LayerMasks<F>>,
)
    requires
        c.runs(),
        p.in_order(*c),
        w.in_order(*c),
        params@.len() == c.param_total(),
        old(grads)@.len() == c.param_total(),
        acts@.len() == c.act_total(),
        old(gacts)@.len() == c.act_total(),
        lm.fcproj == mask_values(fcproj_mask),
        fcproj_mask matches Some(m) ==> m@.len() == c.channel_acts(),
    ensures
        layer_changed(*c, *p, p.inp, old(gacts)@, final(gacts)@),
        params_changed(*c, *w, old(grads)@, final(grads)@),
        attention_grads_kept(*c, *p, old(gacts)@, final(gacts)@),
        params_at(*c, *w, final(grads)@).ln1w == params_at(*c, *w, old(grads)@).ln1w,
        params_at(*c, *w, final(grads)@).qkvw == params_at(*c, *w, old(grads)@).qkvw,
        params_at(*c, *w, final(grads)@).attprojw == params_at(*c, *w, old(grads)@).attprojw,
        fed_forward_gradient_is(
            *c,
            params_at(*c, *w, params@),
            lm,
            acts_at(*c, *p, acts@),
            acts_at(*c, *p, old(gacts)@),
            tensor(old(gacts)@, p.out as int, c.channel_acts()),
            acts_at(*c, *p, final(gacts)@),
            params_at(*c, *w, old(grads)@),
            params_at(*c, *w, final(grads)@),
        ),
{
    broadcast use group_kept;

    proof {
        lemma_shapes(*c);
        lemma_act_sizes(*c);
        lemma_param_sizes(*c);
    }
    let ch = c.n_embd;
    let hidden = swiglu_hidden(ch);
    let n = c.batch_size * c.block_size;
    let ghost g0 = gacts@;
    let ghost w0 = grads@;
    residual_backward(gacts, p.residual2, p.fcproj, p.out, n * ch);
    let ghost g1 = gacts@;
    drop_values(gacts, p.fcproj, fcproj_mask, n * ch);
    linear_backward(
        gacts,
        p.glu,
        p.fcproj,
        grads,
        w.w2,
        None,
        acts,
        p.glu,
        params,
        w.w2,
        n,
        hidden,
        ch,
    );
    let ghost w3 = grads@;
    swiglu_backward(gacts, p.gate, p.up, p.glu, acts, p.gate, p.up, n * hidden);
    linear_backward(
        gacts,
        p.ln2,
        p.gate,
        grads,
        w.w1,
        None,
        acts,
        p.ln2,
        params,
        w.w1,
        n,
        ch,
        hidden,
    );
    let ghost g5 = gacts@;
    linear_backward(
        gacts,
        p.ln2,
        p.up,
        grads,
        w.w3,
        None,
        acts,
        p.ln2,
        params,
        w.w3,
        n,
        ch,
        hidden,
    );
    rmsnorm_backward(
        gacts,
        p.residual2,
        p.ln2,
        grads,
        w.ln2w,
        acts,
        p.residual2,
        p.ln2_rstd,
        params,
        w.ln2w,
        n,
        ch,
    );
    proof {
        reveal(layer_changed);
        reveal(params_changed);
        let r2 = tensor(g1, p.residual2 as int, c.channel_acts());
        let fc = tensor(g1, p.fcproj as int, c.channel_acts());
        let ln2 = tensor(g5, p.ln2 as int, c.channel_acts());
        assert(fed_forward_gradient_with(
            *c,
            params_at(*c, *w, params@),
            lm,
            acts_at(*c, *p, acts@),
            acts_at(*c, *p, g0),
            tensor(g0, p.out as int, c.channel_acts()),
            acts_at(*c, *p, gacts@),
            params_at(*c, *w, w0),
            params_at(*c, *w, grads@),
            r2,
            fc,
            ln2,
        ));
    }
}

/// The gradients of the feed-forward half at `p`, of the residual stream between
/// the halves and behind the layer, are what they were.
pub open spec fn feed_forward_grads_kept<F>(
    c: Config,
    p: ActSlots,
    old_s: Seq<F>,
    new_s: Seq<F>,
) -> bool {
    let a = acts_at(c, p, old_s);
    let b = acts_at(c, p, new_s);
    let n = c.channel_acts();
    &&& tensor(new_s, p.out as int, n) == tensor(old_s, p.out as int, n)
    &&& a.residual2 == b.residual2
    &&& a.ln2 == b.ln2
    &&& a.gate == b.gate
    &&& a.up == b.up
    &&& a.glu == b.glu
    &&& a.fcproj == b.fcproj
}

/// Run backward over the attention half of a layer.
#[verifier::rlimit(80)]
fn attention_half_backward<F: Scalar>(
    c: &Config,
    p: &ActSlots,
    w: &ParamSlots,
    params: &[F],
    acts: &[F],
    grads: &mut [F],
    gacts: &mut [F],
    att_mask: Option<&[F]>,
    attproj_mask: Option<&[F]>,
    Ghost(lm): Ghost<LayerMasks<F>>,
)
    requires
        c.runs(),
        p.in_order(*c),
        w.in_order(*c),
        params@.len() == c.param_total(),
        old(grads)@.len() == c.param_total(),
        acts@.len() == c.act_total(),
        old(gacts)@.len() == c.act_total(),
        lm.att == mask_values(att_mask),
        lm.attproj == mask_values(attproj_mask),
        att_mask matches Some(m) ==> m@.len() == c.att_acts(),
        attproj_mask matches Some(m) ==> m@.len() == c.channel_acts(),
    ensures
        layer_changed(*c, *p, p.inp, old(gacts)@, final(gacts)@),
        params_changed(*c, *w, old(grads)@, final(grads)@),
        feed_forward_grads_kept(*c, *p, old(gacts)@, final(gacts)@),
        params_at(*c, *w, final(grads)@).ln2w == params_at(*c, *w, old(grads)@).ln2w,
        params_at(*c, *w, final(grads)@).w1 == params_at(*c, *w, old(grads)@).w1,
        params_at(*c, *w, final(grads)@).w3 == params_at(*c, *w, old(grads)@).w3,
        params_at(*c, *w, final(grads)@).w2 == params_at(*c, *w, old(grads)@).w2,
        attended_gradient_is(
            *c,
            params_at(*c, *w, params@),
            lm,
            tensor(acts@, p.inp as int, c.channel_acts()),
            acts_at(*c, *p, acts@),
            acts_at(*c, *p, old(gacts)@),
            tensor(old(gacts)@, p.inp as int, c.channel_acts()),
            acts_at(*c, *p, final(gacts)@),
            tensor(final(gacts)@, p.inp as int, c.channel_acts()),
            params_at(*c, *w, old(grads)@),
            params_at(*c, *w, final(grads)@),
        ),
{
    broadcast use group_kept;

    proof {
        lemma_shapes(*c);
        lemma_act_sizes(*c);
        lemma_param_sizes(*c);
    }
    let b = c.batch_size;
    let t = c.block_size;
    let ch = c.n_embd;
    let nh = c.n_head;
    let hs = ch / nh;
    let n = b * t;
    let ghost g0 = gacts@;
    let ghost w0 = grads@;
    residual_backward(gacts, p.inp, p.attproj, p.residual2, n * ch);
    let ghost g1 = gacts@;
    drop_values(gacts, p.attproj, attproj_mask, n * ch);
    linear_backward(
        gacts,
        p.atty,
        p.attproj,
        grads,
        w.attprojw,
        None,
        acts,
        p.atty,
        params,
        w.attprojw,
        n,
        ch,
        ch,
    );
    attention_backward(
        gacts,
        p.qkv,
        p.preatt,
        p.att,
        p.atty,
        acts,
        p.qkv,
        p.att,
        b,
        t,
        nh,
        hs,
        att_mask,
    );
    let ghost g4 = gacts@;
    rope_backward(gacts, p.qkv, b, t, nh, hs);
    linear_backward(
        gacts,
        p.ln1,
        p.qkv,
        grads,
        w.qkvw,
        None,
        acts,
        p.ln1,
        params,
        w.qkvw,
        n,
        ch,
        3 * ch,
    );
    rmsnorm_backward(
        gacts,
        p.inp,
        p.ln1,
        grads,
        w.ln1w,
        acts,
        p.inp,
        p.ln1_rstd,
        params,
        w.ln1w,
        n,
        ch,
    );
    proof {
        reveal(layer_changed);
        reveal(params_changed);
        let d = tensor(g1, p.inp as int, c.channel_acts());
        let proj = tensor(g1, p.attproj as int, c.channel_acts());
        let qkv = tensor(g4, p.qkv as int, c.qkv_acts());
        assert(attended_gradient_with(
            *c,
            params_at(*c, *w, params@),
            lm,
            tensor(acts@, p.inp as int, c.channel_acts()),
            acts_at(*c, *p, acts@),
            acts_at(*c, *p, g0),
            tensor(g0, p.inp as int, c.channel_acts()),
            acts_at(*c, *p, gacts@),
            tensor(gacts@, p.inp as int, c.channel_acts()),
            params_at(*c, *w, w0),
            params_at(*c, *w, grads@),
            d,
            proj,
            qkv,
        ));
    }
}

/// Run backward over layer `l`, whose activations lie at `p` and whose
/// parameters at `w`.
fn layer_backward<F: Scalar>(
    c: &Config,
    p: &ActSlots,
    w: &ParamSlots,
    ml: &MaskLayout,
    l: usize,
    params: &[F],
    acts: &[F],
    grads: &mut [F],
    gacts: &mut [F],
    masks: Option<&[F]>,
)
    requires
        c.runs(),
        l < c.n_layer,
        p.is_for(*c, l as int),
        w.is_for(*c, l as int),
        *ml == mask_layout(*c),
        params@.len() == c.param_total(),
        old(grads)@.len() == c.param_total(),
        acts@.len() == c.act_total(),
        old(gacts)@.len() == c.act_total(),
        masks_cover(*c, masks),
    ensures
        layer_changed(*c, *p, p.inp, old(gacts)@, final(gacts)@),
        params_changed(*c, *w, old(grads)@, final(grads)@),
        final(gacts)@.len() == c.act_total(),
        final(grads)@.len() == c.param_total(),
        layer_gradient_is(
            *c,
            layer_params(*c, params@, l as int),
            layer_masks(*c, mask_values(masks), l as int),
            stream(*c, acts@, l as int),
            layer_acts(*c, acts@, l as int),
            layer_acts(*c, old(gacts)@, l as int),
            stream(*c, final(gacts)@, l + 1),
            stream(*c, old(gacts)@, l as int),
            layer_acts(*c, final(gacts)@, l as int),
            stream(*c, final(gacts)@, l as int),
            layer_params(*c, old(grads)@, l as int),
            layer_params(*c, final(grads)@, l as int),
        ),
{
    proof {
        lemma_slots_ordered(*c, *p, l as int);
        lemma_param_slots_ordered(*c, *w, l as int);
        lemma_mask_slots(*c, l as int);
        lemma_act_sizes(*c);
        lemma_shapes(*c);
    }
    let ca = (c.batch_size * c.block_size) * c.n_embd;
    let aa = c.batch_size * ((c.n_head * c.block_size) * c.block_size);
    let att_mask = mask_part(masks, ml.att.off + l * aa, aa);
    let attproj_mask = mask_part(masks, ml.attproj.off + l * ca, ca);
    let fcproj_mask = mask_part(masks, ml.fcproj.off + l * ca, ca);
    let ghost lp = layer_params(*c, params@, l as int);
    let ghost lm = layer_masks(*c, mask_values(masks), l as int);
    let ghost g0 = gacts@;
    let ghost w0 = grads@;
    feed_forward_half_backward(c, p, w, params, acts, grads, gacts, fcproj_mask, Ghost(lm));
    let ghost g1 = gacts@;
    let ghost w1 = grads@;
    proof {
        assert(g1.len() == g0.len()) by {
            reveal(layer_changed);
        }
        assert(w1.len() == w0.len()) by {
            reveal(params_changed);
        }
    }
    attention_half_backward(
        c,
        p,
        w,
        params,
        acts,
        grads,
        gacts,
        att_mask,
        attproj_mask,
        Ghost(lm),
    );
    proof {
        assert(layer_changed(*c, *p, p.inp, g0, gacts@)) by {
            reveal(layer_changed);
        }
        assert(params_changed(*c, *w, w0, grads@)) by {
            reveal(params_changed);
        }
        assert(gacts@.len() == g0.len()) by {
            reveal(layer_changed);
        }
        assert(grads@.len() == w0.len()) by {
            reveal(params_changed);
        }
        let a = layer_acts(*c, acts@, l as int);
        let ga = layer_acts(*c, g0, l as int);
        let gb = layer_acts(*c, g1, l as int);
        let gc = layer_acts(*c, gacts@, l as int);
        let wa = layer_params(*c, w0, l as int);
        let wb = layer_params(*c, w1, l as int);
        let wc = layer_params(*c, grads@, l as int);
        lemma_halves_join(
            *c,
            lp,
            lm,
            stream(*c, acts@, l as int),
            a,
            ga,
            gb,
            gc,
            stream(*c, gacts@, l + 1),
            stream(*c, g0, l as int),
            stream(*c, gacts@, l as int),
            wa,
            wb,
            wc,
        );
    }
}

/// The two halves of a backward layer make one: the first leaves what the
/// second starts from, and the second leaves what the first has written.
proof fn lemma_halves_join<F: Scalar>(
    c: Config,
    p: LayerParams<F>,
    m: LayerMasks<F>,
    inp: Seq<F>,
    a: LayerActs<F>,
    ga: LayerActs<F>,
    gb: LayerActs<F>,
    gc: LayerActs<F>,
    d_out: Seq<F>,
    d_inp0: Seq<F>,
    d_inp: Seq<F>,
    wa: LayerParams<F>,
    wb: LayerParams<F>,
    wc: LayerParams<F>,
)
    requires
        fed_forward_gradient_is(c, p, m, a, ga, d_out, gb, wa, wb),
        attended_gradient_is(c, p, m, inp, a, gb, d_inp0, gc, d_inp, wb, wc),
        ga.ln1 == gb.ln1,
        ga.qkv == gb.qkv,
        ga.atty == gb.atty,
        ga.preatt == gb.preatt,
        ga.att == gb.att,
        ga.attproj == gb.attproj,
        gc.residual2 == gb.residual2,
        gc.ln2 == gb.ln2,
        gc.gate == gb.gate,
        gc.up == gb.up,
        gc.glu == gb.glu,
        gc.fcproj == gb.fcproj,
        wa.ln1w == wb.ln1w,
        wa.qkvw == wb.qkvw,
        wa.attprojw == wb.attprojw,
        wc.ln2w == wb.ln2w,
        wc.w1 == wb.w1,
        wc.w3 == wb.w3,
        wc.w2 == wb.w2,
    ensures
        layer_gradient_is(c, p, m, inp, a, ga, d_out, d_inp0, gc, d_inp, wa, wc),
{
    let (r2, fc, ln2) = choose|r2: Seq<F>, fc: Seq<F>, ln2: Seq<F>| #[trigger]
        fed_forward_gradient_with(c, p, m, a, ga, d_out, gb, wa, wb, r2, fc, ln2);
    assert(fed_forward_gradient_with(c, p, m, a, ga, d_out, gc, wa, wc, r2, fc, ln2));
    let (d, proj, qkv) = choose|d: Seq<F>, proj: Seq<F>, qkv: Seq<F>| #[trigger]
        attended_gradient_with(c, p, m, inp, a, gb, d_inp0, gc, d_inp, wb, wc, d, proj, qkv);
    assert(attended_gradient_with(
        c,
        p,
        m,
        inp,
        a,
        ga,
        d_inp0,
        gc,
        d_inp,
        wa,
        wc,
        d,
        proj,
        qkv,
    ));
}

/// Every value is zero.
pub open spec fn all_zero<F: Scalar>(s: Seq<F>) -> bool {
    forall|i: int| 0 <= i < s.len() ==> is_zero(#[trigger] s[i])
}

/// Backward from the losses to the residual stream behind the last layer. `z`
/// and `zw` are the gradients before.
pub open spec fn head_gradient_is<F: Scalar>(
    c: Config,
    params: Seq<F>,
    targets: Seq<u16>,
    acts: Seq<F>,
    z: Seq<F>,
    zw: Seq<F>,
    gacts: Seq<F>,
    grads: Seq<F>,
) -> bool {
    let al = act_layout(c);
    let pl = param_layout(c);
    let n = c.tokens();
    let ch = c.n_embd as int;
    let v = c.vocab_size as int;
    let last = c.n_layer as int;
    &&& mean_logit_gradient_is(
        al.probs.of(acts),
        targets,
        n,
        v,
        al.logits.of(z),
        al.logits.of(gacts),
    )
    &&& input_gradient_is(
        al.logits.of(gacts),
        pl.lm_head.of(params),
        n,
        ch,
        v,
        al.lnf.of(z),
        al.lnf.of(gacts),
    )
    &&& weight_gradient_is(
        al.logits.of(gacts),
        al.lnf.of(acts),
        n,
        ch,
        v,
        pl.lm_head.of(zw),
        pl.lm_head.of(grads),
    )
    &&& norm_gradient_is(
        stream(c, acts, last),
        al.lnf_rstd.of(acts),
        pl.lnfw.of(params),
        al.lnf.of(gacts),
        n,
        ch,
        stream(c, z, last),
        stream(c, gacts, last),
    )
    &&& norm_weight_gradient_is(
        stream(c, acts, last),
        al.lnf_rstd.of(acts),
        al.lnf.of(gacts),
        n,
        ch,
        pl.lnfw.of(zw),
        pl.lnfw.of(grads),
    )
}

/// The logit gradients of the mean of `n` losses: each loss counts `1 / n`.
pub open spec fn mean_logit_gradient_is<F: Scalar>(
    probs: Seq<F>,
    targets: Seq<u16>,
    n: int,
    v: int,
    old_d: Seq<F>,
    new_d: Seq<F>,
) -> bool {
    exists|count: F, dmean: F| #[trigger]
        ratio_is(n as usize, 1, count) && reciprocal_is(count, dmean) && #[trigger]
        logit_gradient_is(probs, targets, n, v, dmean, old_d, new_d)
}

/// The gradient of the residual stream before layer `k`, where `d0` is the one
/// before the first layer.
pub open spec fn grad_stream<F>(c: Config, gacts: Seq<F>, d0: Seq<F>, k: int) -> Seq<F> {
    if k == 0 {
        d0
    } else {
        stream(c, gacts, k)
    }
}

/// Backward over the layers from the last one down to layer `from`.
pub open spec fn layer_gradients_are<F: Scalar>(
    c: Config,
    params: Seq<F>,
    masks: Option<Seq<F>>,
    acts: Seq<F>,
    z: Seq<F>,
    zw: Seq<F>,
    gacts: Seq<F>,
    d0: Seq<F>,
    grads: Seq<F>,
    from: int,
) -> bool {
    forall|l: int|
        from <= l < c.n_layer ==> layer_gradient_is(
            c,
            layer_params(c, params, l),
            layer_masks(c, masks, l),
            stream(c, acts, l),
            layer_acts(c, acts, l),
            layer_acts(c, z, l),
            grad_stream(c, gacts, d0, l + 1),
            stream(c, z, l),
            #[trigger] layer_acts(c, gacts, l),
            grad_stream(c, gacts, d0, l),
            layer_params(c, zw, l),
            layer_params(c, grads, l),
        )
}

/// The backward pass from the zero gradients `z` and `zw`, with `d0` the
/// gradient of the residual stream before the first layer.
pub open spec fn backward_with<F: Scalar>(
    c: Config,
    params: Seq<F>,
    ids: Seq<u16>,
    targets: Seq<u16>,
    masks: Option<Seq<F>>,
    acts: Seq<F>,
    z: Seq<F>,
    zw: Seq<F>,
    d0: Seq<F>,
    grads: Seq<F>,
    gacts: Seq<F>,
) -> bool {
    &&& z.len() == c.act_total()
    &&& zw.len() == c.param_total()
    &&& all_zero(z)
    &&& all_zero(zw)
    &&& head_gradient_is(c, params, targets, acts, z, zw, gacts, grads)
    &&& layer_gradients_are(c, params, masks, acts, z, zw, gacts, d0, grads, 0)
    &&& dropped_is(d0, encoded_mask(c, masks), stream(c, gacts, 0))
    &&& scatter_is(
        ids,
        stream(c, gacts, 0),
        c.vocab_size as int,
        c.n_embd as int,
        param_layout(c).wte.of(zw),
        param_layout(c).wte.of(grads),
    )
}

/// `grads` holds the gradients of the mean loss by the parameters, and `gacts`
/// those by the activations, where `acts` holds the forward pass.
#[verifier::opaque]
pub open spec fn backward_is<F: Scalar>(
    c: Config,
    params: Seq<F>,
    ids: Seq<u16>,
    targets: Seq<u16>,
    masks: Option<Seq<F>>,
    acts: Seq<F>,
    grads: Seq<F>,
    gacts: Seq<F>,
) -> bool {
    &&& grads.len() == c.param_total()
    &&& gacts.len() == c.act_total()
    &&& exists|z: Seq<F>, zw: Seq<F>, d0: Seq<F>| #[trigger]
        backward_with(c, params, ids, targets, masks, acts, z, zw, d0, grads, gacts)
}

/// Set every value to zero.
fn zero_fill<F: Scalar>(buf: &mut [F])
    ensures
        final(buf)@.len() == old(buf)@.len(),
        all_zero(final(buf)@),
{
    let n = buf.len();
    for i in 0..n
        invariant
            n == buf@.len(),
            buf@.len() == old(buf)@.len(),
            forall|j: int| 0 <= j < i ==> is_zero(#[trigger] buf@[j]),
    {
        buf[i] = F::zero();
    }
}

/// The gradients of the layers in front of `l` are still those of the start.
spec fn untouched<F>(
    c: Config,
    z: Seq<F>,
    zw: Seq<F>,
    gacts: Seq<F>,
    grads: Seq<F>,
    l: int,
) -> bool {
    &&& forall|q: int|
        0 <= q < l ==> #[trigger] layer_acts(c, gacts, q) == layer_acts(c, z, q)
    &&& forall|q: int| 0 <= q < l ==> #[trigger] stream(c, gacts, q) == stream(c, z, q)
    &&& forall|q: int|
        0 <= q < l ==> #[trigger] layer_params(c, grads, q) == layer_params(c, zw, q)
    &&& param_layout(c).wte.of(grads) == param_layout(c).wte.of(zw)
}

/// Layer `l` adds itself to those behind it.
proof fn lemma_layer_back<F: Scalar>(
    c: Config,
    params: Seq<F>,
    targets: Seq<u16>,
    masks: Option<Seq<F>>,
    acts: Seq<F>,
    z: Seq<F>,
    zw: Seq<F>,
    p: ActSlots,
    w: ParamSlots,
    l: int,
    g0: Seq<F>,
    g1: Seq<F>,
    w0: Seq<F>,
    w1: Seq<F>,
)
    requires
        c.runs(),
        0 <= l < c.n_layer,
        p.is_for(c, l),
        w.is_for(c, l),
        g0.len() == c.act_total(),
        w0.len() == c.param_total(),
        head_gradient_is(c, params, targets, acts, z, zw, g0, w0),
        layer_gradients_are(
            c,
            params,
            masks,
            acts,
            z,
            zw,
            g0,
            stream(c, g0, 0),
            w0,
            l + 1,
        ),
        untouched(c, z, zw, g0, w0, l + 1),
        layer_changed(c, p, p.inp, g0, g1),
        params_changed(c, w, w0, w1),
        layer_gradient_is(
            c,
            layer_params(c, params, l),
            layer_masks(c, masks, l),
            stream(c, acts, l),
            layer_acts(c, acts, l),
            layer_acts(c, g0, l),
            stream(c, g1, l + 1),
            stream(c, g0, l),
            layer_acts(c, g1, l),
            stream(c, g1, l),
            layer_params(c, w0, l),
            layer_params(c, w1, l),
        ),
    ensures
        head_gradient_is(c, params, targets, acts, z, zw, g1, w1),
        layer_gradients_are(c, params, masks, acts, z, zw, g1, stream(c, g1, 0), w1, l),
        untouched(c, z, zw, g1, w1, l),
{
    let al = act_layout(c);
    lemma_act_layout(c);
    lemma_act_sizes(c);
    lemma_shared_params_kept(c, w, l, w0, w1);
    lemma_other_stream_kept(c, p, l, l, p.inp, c.n_layer as int, g0, g1);
    lemma_behind_kept(c, p, l, l, p.inp, al.lnf.off as int, al.lnf.len as int, g0, g1);
    lemma_behind_kept(c, p, l, l, p.inp, al.logits.off as int, al.logits.len as int, g0, g1);
    assert forall|q: int| l <= q < c.n_layer implies layer_gradient_is(
        c,
        layer_params(c, params, q),
        layer_masks(c, masks, q),
        stream(c, acts, q),
        layer_acts(c, acts, q),
        layer_acts(c, z, q),
        grad_stream(c, g1, stream(c, g1, 0), q + 1),
        stream(c, z, q),
        #[trigger] layer_acts(c, g1, q),
        grad_stream(c, g1, stream(c, g1, 0), q),
        layer_params(c, zw, q),
        layer_params(c, w1, q),
    ) by {
        if q > l {
            lemma_other_layer_kept(c, p, l, l, p.inp, q, g0, g1);
            lemma_other_stream_kept(c, p, l, l, p.inp, q, g0, g1);
            lemma_other_stream_kept(c, p, l, l, p.inp, q + 1, g0, g1);
            lemma_other_params_kept(c, w, l, q, w0, w1);
            let g = layer_acts(c, g0, q);
        } else {
            let g = layer_acts(c, g0, l);
        }
    }
    assert forall|q: int| 0 <= q < l implies #[trigger] layer_acts(c, g1, q) == layer_acts(
        c,
        z,
        q,
    ) by {
        lemma_other_layer_kept(c, p, l, l, p.inp, q, g0, g1);
        let g = layer_acts(c, g0, q);
    }
    assert forall|q: int| 0 <= q < l implies #[trigger] stream(c, g1, q) == stream(c, z, q) by {
        lemma_other_stream_kept(c, p, l, l, p.inp, q, g0, g1);
        let g = stream(c, g0, q);
    }
    assert forall|q: int| 0 <= q < l implies #[trigger] layer_params(c, w1, q) == layer_params(
        c,
        zw,
        q,
    ) by {
        lemma_other_params_kept(c, w, l, q, w0, w1);
    }
}

/// The backward pass. Zeroes `grads` and `gacts`, then adds up the gradients in
/// the reverse order of the forward pass, of which `acts` holds the
/// activations.
pub fn backward_into<F: Scalar>(
    cfg: &Config,
    params: &[F],
    acts: &[F],
    grads: &mut [F],
    gacts: &mut [F],
    ids: &[u16],
    targets: &[u16],
    masks: Option<&[F]>,
)
    requires
        cfg.runs(),
        params@.len() == cfg.param_total(),
        acts@.len() == cfg.act_total(),
        old(grads)@.len() == cfg.param_total(),
        old(gacts)@.len() == cfg.act_total(),
        batch_ids(*cfg, ids@),
        targets@.len() == cfg.tokens(),
        masks_cover(*cfg, masks),
    ensures
        final(grads)@.len() == old(grads)@.len(),
        final(gacts)@.len() == old(gacts)@.len(),
        backward_is(
            *cfg,
            params@,
            ids@,
            targets@,
            mask_values(masks),
            acts@,
            final(grads)@,
            final(gacts)@,
        ),
{
    broadcast use group_kept;

    proof {
        lemma_act_layout(*cfg);
        lemma_param_layout(*cfg);
        lemma_mask_layout(*cfg);
        lemma_param_sizes(*cfg);
        lemma_act_sizes(*cfg);
        lemma_shapes(*cfg);
        lemma_last_stream(*cfg);
    }
    let b = cfg.batch_size;
    let t = cfg.block_size;
    let ch = cfg.n_embd;
    let v = cfg.vocab_size;
    let bt = b * t;
    let pl = ParamLayout::new(cfg);
    let al = ActLayout::new(cfg);
    let ml = MaskLayout::new(cfg);
    zero_fill(grads);
    zero_fill(gacts);
    let ghost z = gacts@;
    let ghost zw = grads@;
    let count = F::from_ratio(bt, 1);
    let dmean = F::one().divide(count);
    crossentropy_softmax_backward(
        gacts,
        al.logits.off,
        acts,
        al.probs.off,
        targets,
        bt,
        v,
        dmean,
    );
    linear_backward(
        gacts,
        al.lnf.off,
        al.logits.off,
        grads,
        pl.lm_head.off,
        None,
        acts,
        al.lnf.off,
        params,
        pl.lm_head.off,
        bt,
        ch,
        v,
    );
    let resf = al.residual3.off + (cfg.n_layer - 1) * (bt * ch);
    rmsnorm_backward(
        gacts,
        resf,
        al.lnf.off,
        grads,
        pl.lnfw.off,
        acts,
        resf,
        al.lnf_rstd.off,
        params,
        pl.lnfw.off,
        bt,
        ch,
    );
    proof {
        assert(reciprocal_is(count, dmean));
        assert(head_gradient_is(*cfg, params@, targets@, acts@, z, zw, gacts@, grads@));
        lemma_head_untouched(*cfg, z, zw, gacts@, grads@);
    }
    let mut l: usize = cfg.n_layer;
    while l > 0
        invariant
            l <= cfg.n_layer,
            cfg.runs(),
            params@.len() == cfg.param_total(),
            acts@.len() == cfg.act_total(),
            grads@.len() == cfg.param_total(),
            gacts@.len() == cfg.act_total(),
            masks_cover(*cfg, masks),
            pl == param_layout(*cfg),
            al == act_layout(*cfg),
            ml == mask_layout(*cfg),
            head_gradient_is(*cfg, params@, targets@, acts@, z, zw, gacts@, grads@),
            layer_gradients_are(
                *cfg,
                params@,
                mask_values(masks),
                acts@,
                z,
                zw,
                gacts@,
                stream(*cfg, gacts@, 0),
                grads@,
                l as int,
            ),
            untouched(*cfg, z, zw, gacts@, grads@, l as int),
        decreases l,
    {
        l = l - 1;
        let p = ActSlots::new(cfg, &al, l);
        let w = ParamSlots::new(cfg, &pl, l);
        let ghost g0 = gacts@;
        let ghost w0 = grads@;
        layer_backward(cfg, &p, &w, &ml, l, params, acts, grads, gacts, masks);
        proof {
            lemma_layer_back(
                *cfg,
                params@,
                targets@,
                mask_values(masks),
                acts@,
                z,
                zw,
                p,
                w,
                l as int,
                g0,
                gacts@,
                w0,
                grads@,
            );
        }
    }
    let ghost g3 = gacts@;
    let ghost d0 = stream(*cfg, gacts@, 0);
    let encoded_part = mask_part(masks, ml.encoded.off, bt * ch);
    drop_values(gacts, al.encoded.off, encoded_part, bt * ch);
    let ghost w3 = grads@;
    encoder_backward(grads, pl.wte.off, gacts, al.encoded.off, ids, v, ch);
    proof {
        reveal(backward_is);
        assert(mask_values(encoded_part) == encoded_mask(*cfg, mask_values(masks)));
        lemma_encoded_written(
            *cfg,
            params@,
            targets@,
            mask_values(masks),
            acts@,
            z,
            zw,
            d0,
            g3,
            gacts@,
            w3,
            grads@,
        );
        assert(backward_with(
            *cfg,
            params@,
            ids@,
            targets@,
            mask_values(masks),
            acts@,
            z,
            zw,
            d0,
            grads@,
            gacts@,
        ));
    }
}

/// Backward up to the last layer leaves the gradients of the layers.
proof fn lemma_head_untouched<F: Scalar>(
    c: Config,
    z: Seq<F>,
    zw: Seq<F>,
    gacts: Seq<F>,
    grads: Seq<F>,
)
    requires
        c.runs(),
        z.len() == c.act_total(),
        gacts.len() == c.act_total(),
        zw.len() == c.param_total(),
        grads.len() == c.param_total(),
        forall|i: int|
            0 <= i < stream_off(c, c.n_layer as int) ==> gacts[i] == z[i],
        forall|i: int| 0 <= i < param_layout(c).lnfw.off ==> grads[i] == zw[i],
    ensures
        untouched(c, z, zw, gacts, grads, c.n_layer as int),
{
    lemma_act_layout(c);
    lemma_param_layout(c);
    lemma_param_sizes(c);
    lemma_act_sizes(c);
    lemma_last_stream(c);
    assert forall|q: int| 0 <= q < c.n_layer implies #[trigger] layer_acts(c, gacts, q)
        == layer_acts(c, z, q) by {
        lemma_layer_in_front_of_last(c, q, z, gacts);
    }
    assert forall|q: int| 0 <= q < c.n_layer implies #[trigger] stream(c, gacts, q) == stream(
        c,
        z,
        q,
    ) by {
        lemma_stream_in_front_of_last(c, q, z, gacts);
    }
    assert forall|q: int| 0 <= q < c.n_layer implies #[trigger] layer_params(c, grads, q)
        == layer_params(c, zw, q) by {
        lemma_params_in_front(c, q, zw, grads);
    }
    assert(param_layout(c).wte.of(grads) =~= param_layout(c).wte.of(zw));
}

/// Dropout on the embedded tokens and the embedding gradient leave the rest.
proof fn lemma_encoded_written<F: Scalar>(
    c: Config,
    params: Seq<F>,
    targets: Seq<u16>,
    masks: Option<Seq<F>>,
    acts: Seq<F>,
    z: Seq<F>,
    zw: Seq<F>,
    d0: Seq<F>,
    g0: Seq<F>,
    g1: Seq<F>,
    w0: Seq<F>,
    w1: Seq<F>,
)
    requires
        c.runs(),
        g0.len() == c.act_total(),
        w0.len() == c.param_total(),
        d0 == stream(c, g0, 0),
        only_changed(g0, g1, act_layout(c).encoded.off as int, c.channel_acts()),
        only_changed(w0, w1, param_layout(c).wte.off as int, c.vocab_values()),
        head_gradient_is(c, params, targets, acts, z, zw, g0, w0),
        layer_gradients_are(c, params, masks, acts, z, zw, g0, d0, w0, 0),
    ensures
        head_gradient_is(c, params, targets, acts, z, zw, g1, w1),
        layer_gradients_are(c, params, masks, acts, z, zw, g1, d0, w1, 0),
{
    broadcast use group_kept;

    lemma_act_layout(c);
    lemma_param_layout(c);
    lemma_param_sizes(c);
    lemma_act_sizes(c);
    lemma_last_stream(c);
    lemma_layer_behind_encoded(c, c.n_layer - 1, g0, g1);
    assert forall|q: int| 0 <= q < c.n_layer implies layer_gradient_is(
        c,
        layer_params(c, params, q),
        layer_masks(c, masks, q),
        stream(c, acts, q),
        layer_acts(c, acts, q),
        layer_acts(c, z, q),
        grad_stream(c, g1, d0, q + 1),
        stream(c, z, q),
        #[trigger] layer_acts(c, g1, q),
        grad_stream(c, g1, d0, q),
        layer_params(c, zw, q),
        layer_params(c, w1, q),
    ) by {
        lemma_layer_behind_encoded(c, q, g0, g1);
        if q > 0 {
            lemma_layer_behind_encoded(c, q - 1, g0, g1);
        }
        lemma_params_behind_wte(c, q, w0, w1);
    }
}

} // verus!
