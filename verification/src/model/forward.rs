//! The forward pass.

use vstd::prelude::*;

use crate::arena::{group_kept, only_changed, tensor};
use crate::layout::{
    act_layout, lemma_act_layout, lemma_act_sizes, lemma_mask_layout, lemma_param_layout,
    lemma_param_sizes, mask_layout, param_layout, swiglu_hidden, ActLayout, Config, MaskLayout,
    ParamLayout,
};
use crate::model::layer::{
    acts_at, layer_acts, layer_changed, layer_masks, layer_params, lemma_behind_kept,
    lemma_last_stream, lemma_layer_in_front, lemma_mask_slots, lemma_other_layer_kept,
    lemma_other_stream_kept, lemma_param_slots_ordered, lemma_shapes, lemma_slots_ordered,
    lemma_stream_in_front, stream, ActSlots, LayerActs, LayerMasks, LayerParams, ParamSlots,
};
use crate::ops::attention::{attention_forward, attention_is, mask_values};
use crate::ops::embed::{embedding_is, encoder_forward};
use crate::ops::linear::{linear, linear_is};
use crate::ops::loss::{
    crossentropy_forward, ids_below, losses_are, mean_loss, mean_loss_is, softmax_forward,
    softmax_is,
};
use crate::ops::norm::{rmsnorm_forward, rmsnorm_is};
use crate::ops::pointwise::{
    apply_dropout, residual_forward, scaled_is, sums_are, swiglu_forward, swiglu_is,
};
use crate::ops::rope::{rope_forward, rope_is};
use crate::scalar::Scalar;

verus! {

/// `out` is `raw` times the keep factors, or `raw` itself without any.
pub open spec fn dropped_is<F: Scalar>(raw: Seq<F>, mask: Option<Seq<F>>, out: Seq<F>) -> bool {
    match mask {
        Some(m) => scaled_is(raw, m, out),
        None => out == raw,
    }
}

/// `out` is a linear layer of `inp` without a bias, with dropout behind it.
pub open spec fn projected_is<F: Scalar>(
    inp: Seq<F>,
    w: Seq<F>,
    n: int,
    c: int,
    oc: int,
    mask: Option<Seq<F>>,
    out: Seq<F>,
) -> bool {
    exists|raw: Seq<F>| #[trigger]
        linear_is(inp, w, None, n, c, oc, raw) && dropped_is(raw, mask, out)
}

/// `qkv` holds the queries, keys and values of `inp`, queries and keys rotated.
pub open spec fn rotated_projection_is<F: Scalar>(
    c: Config,
    inp: Seq<F>,
    w: Seq<F>,
    qkv: Seq<F>,
) -> bool {
    exists|raw: Seq<F>| #[trigger]
        linear_is(inp, w, None, c.tokens(), c.n_embd as int, 3 * c.n_embd, raw) && rope_is(
            false,
            c.tokens(),
            c.block_size as int,
            c.n_head as int,
            c.head_size(),
            raw,
            qkv,
        )
}

/// The attention half of a layer: norm, projection to queries, keys and values,
/// rotary embedding, attention, output projection and residual sum.
pub open spec fn attended_is<F: Scalar>(
    c: Config,
    p: LayerParams<F>,
    m: LayerMasks<F>,
    inp: Seq<F>,
    a: LayerActs<F>,
) -> bool {
    let n = c.tokens();
    let ch = c.n_embd as int;
    &&& rmsnorm_is(inp, p.ln1w, n, ch, a.ln1, a.ln1_rstd)
    &&& rotated_projection_is(c, a.ln1, p.qkvw, a.qkv)
    &&& attention_is(
        a.qkv,
        m.att,
        c.batch_size as int,
        c.block_size as int,
        c.n_head as int,
        c.head_size() as int,
        a.atty,
        a.preatt,
        a.att,
    )
    &&& projected_is(a.atty, p.attprojw, n, ch, ch, m.attproj, a.attproj)
    &&& sums_are(inp, a.attproj, a.residual2)
}

/// The feed-forward half of a layer: norm, gate and up projection, SwiGLU, down
/// projection and residual sum.
pub open spec fn fed_forward_is<F: Scalar>(
    c: Config,
    p: LayerParams<F>,
    m: LayerMasks<F>,
    a: LayerActs<F>,
    out: Seq<F>,
) -> bool {
    let n = c.tokens();
    let ch = c.n_embd as int;
    let h = c.hidden();
    &&& rmsnorm_is(a.residual2, p.ln2w, n, ch, a.ln2, a.ln2_rstd)
    &&& linear_is(a.ln2, p.w1, None, n, ch, h, a.gate)
    &&& linear_is(a.ln2, p.w3, None, n, ch, h, a.up)
    &&& swiglu_is(a.gate, a.up, a.glu)
    &&& projected_is(a.glu, p.w2, n, h, ch, m.fcproj, a.fcproj)
    &&& sums_are(a.residual2, a.fcproj, out)
}

/// One layer takes the residual stream `inp` to `out` by the activations `a`.
pub open spec fn layer_is<F: Scalar>(
    c: Config,
    p: LayerParams<F>,
    m: LayerMasks<F>,
    inp: Seq<F>,
    a: LayerActs<F>,
    out: Seq<F>,
) -> bool {
    attended_is(c, p, m, inp, a) && fed_forward_is(c, p, m, a, out)
}

/// Dropout in place, where there is a mask.
pub fn drop_values<F: Scalar>(acts: &mut [F], off: usize, mask: Option<&[F]>, n: usize)
    requires
        off + n <= old(acts).len(),
        mask matches Some(m) ==> m@.len() == n,
    ensures
        only_changed(old(acts)@, final(acts)@, off as int, n as int),
        dropped_is(
            tensor(old(acts)@, off as int, n as int),
            mask_values(mask),
            tensor(final(acts)@, off as int, n as int),
        ),
{
    match mask {
        Some(m) => {
            assert(tensor(m@, 0, n as int) =~= m@);
            apply_dropout(acts, off, m, 0, n);
        },
        None => {},
    }
}

/// Run the attention half of a layer.
#[verifier::rlimit(60)]
fn attention_half<F: Scalar>(
    c: &Config,
    p: &ActSlots,
    acts: &mut [F],
    ln1w: &[F],
    qkvw: &[F],
    attprojw: &[F],
    att_mask: Option<&[F]>,
    attproj_mask: Option<&[F]>,
    Ghost(lp): Ghost<LayerParams<F>>,
    Ghost(lm): Ghost<LayerMasks<F>>,
)
    requires
        c.runs(),
        p.in_order(*c),
        old(acts)@.len() == c.act_total(),
        lp.ln1w == ln1w@,
        lp.qkvw == qkvw@,
        lp.attprojw == attprojw@,
        ln1w@.len() == c.n_embd,
        qkvw@.len() == c.qkv_weights(),
        attprojw@.len() == c.square_weights(),
        lm.att == mask_values(att_mask),
        lm.attproj == mask_values(attproj_mask),
        att_mask matches Some(m) ==> m@.len() == c.att_acts(),
        attproj_mask matches Some(m) ==> m@.len() == c.channel_acts(),
    ensures
        layer_changed(*c, *p, p.out, old(acts)@, final(acts)@),
        tensor(final(acts)@, p.inp as int, c.channel_acts()) == tensor(
            old(acts)@,
            p.inp as int,
            c.channel_acts(),
        ),
        attended_is(
            *c,
            lp,
            lm,
            tensor(old(acts)@, p.inp as int, c.channel_acts()),
            acts_at(*c, *p, final(acts)@),
        ),
{
    broadcast use group_kept;

    proof {
        lemma_shapes(*c);
        lemma_act_sizes(*c);
    }
    let b = c.batch_size;
    let t = c.block_size;
    let ch = c.n_embd;
    let nh = c.n_head;
    let hs = ch / nh;
    let n = b * t;
    rmsnorm_forward(acts, p.ln1, p.ln1_rstd, p.inp, ln1w, n, ch);
    let ghost s1 = acts@;
    linear(acts, p.qkv, p.ln1, qkvw, None, n, ch, 3 * ch);
    let ghost s2 = acts@;
    rope_forward(acts, p.qkv, b, t, nh, hs);
    let ghost s3 = acts@;
    attention_forward(acts, p.atty, p.preatt, p.att, p.qkv, b, t, nh, hs, att_mask);
    linear(acts, p.attproj, p.atty, attprojw, None, n, ch, ch);
    drop_values(acts, p.attproj, attproj_mask, n * ch);
    residual_forward(acts, p.residual2, p.inp, p.attproj, n * ch);
    proof {
        reveal(layer_changed);
        let s7 = acts@;
        let a = acts_at(*c, *p, s7);
        let ca = c.channel_acts();
        assert(tensor(s3, p.qkv as int, c.qkv_acts()) == a.qkv);
        assert(tensor(s2, p.ln1 as int, ca) == a.ln1);
        assert(tensor(s1, p.ln1 as int, ca) == a.ln1);
        assert(rotated_projection_is(*c, a.ln1, lp.qkvw, a.qkv));
        assert(projected_is(a.atty, lp.attprojw, c.tokens(), ch as int, ch as int, lm.attproj, a.attproj));
    }
}

/// Run the feed-forward half of a layer.
#[verifier::rlimit(60)]
fn feed_forward_half<F: Scalar>(
    c: &Config,
    p: &ActSlots,
    acts: &mut [F],
    ln2w: &[F],
    w1: &[F],
    w3: &[F],
    w2: &[F],
    fcproj_mask: Option<&[F]>,
    Ghost(lp): Ghost<LayerParams<F>>,
    Ghost(lm): Ghost<LayerMasks<F>>,
)
    requires
        c.runs(),
        p.in_order(*c),
        old(acts)@.len() == c.act_total(),
        lp.ln2w == ln2w@,
        lp.w1 == w1@,
        lp.w3 == w3@,
        lp.w2 == w2@,
        ln2w@.len() == c.n_embd,
        w1@.len() == c.hidden_weights(),
        w3@.len() == c.hidden_weights(),
        w2@.len() == c.hidden_weights(),
        lm.fcproj == mask_values(fcproj_mask),
        fcproj_mask matches Some(m) ==> m@.len() == c.channel_acts(),
    ensures
        layer_changed(*c, *p, p.out, old(acts)@, final(acts)@),
        first_half_kept(*c, *p, old(acts)@, final(acts)@),
        fed_forward_is(
            *c,
            lp,
            lm,
            acts_at(*c, *p, final(acts)@),
            tensor(final(acts)@, p.out as int, c.channel_acts()),
        ),
{
    broadcast use group_kept;

    proof {
        lemma_shapes(*c);
        lemma_act_sizes(*c);
    }
    let ch = c.n_embd;
    let hidden = swiglu_hidden(ch);
    let n = c.batch_size * c.block_size;
    rmsnorm_forward(acts, p.ln2, p.ln2_rstd, p.residual2, ln2w, n, ch);
    linear(acts, p.gate, p.ln2, w1, None, n, ch, hidden);
    linear(acts, p.up, p.ln2, w3, None, n, ch, hidden);
    swiglu_forward(acts, p.glu, p.gate, p.up, n * hidden);
    linear(acts, p.fcproj, p.glu, w2, None, n, hidden, ch);
    drop_values(acts, p.fcproj, fcproj_mask, n * ch);
    residual_forward(acts, p.out, p.residual2, p.fcproj, n * ch);
    proof {
        reveal(layer_changed);
        let a = acts_at(*c, *p, acts@);
        assert(projected_is(
            a.glu,
            lp.w2,
            c.tokens(),
            c.hidden(),
            ch as int,
            lm.fcproj,
            a.fcproj,
        ));
    }
}

/// The tensors of the attention half of the layer at `p`, and the residual
/// stream before it, are what they were.
pub open spec fn first_half_kept<F>(c: Config, p: ActSlots, old_s: Seq<F>, new_s: Seq<F>) -> bool {
    let a = acts_at(c, p, old_s);
    let b = acts_at(c, p, new_s);
    &&& tensor(new_s, p.inp as int, c.channel_acts()) == tensor(
        old_s,
        p.inp as int,
        c.channel_acts(),
    )
    &&& a.ln1 == b.ln1
    &&& a.ln1_rstd == b.ln1_rstd
    &&& a.qkv == b.qkv
    &&& a.atty == b.atty
    &&& a.preatt == b.preatt
    &&& a.att == b.att
    &&& a.attproj == b.attproj
    &&& a.residual2 == b.residual2
}

/// The `n` keep factors from `off` on, if there are masks.
pub fn mask_part<F>(masks: Option<&[F]>, off: usize, n: usize) -> (part: Option<&[F]>)
    requires
        masks matches Some(m) ==> off + n <= m@.len(),
    ensures
        part matches Some(x) ==> x@.len() == n,
        match masks {
            Some(m) => mask_values(part) == Some(tensor(m@, off as int, n as int)),
            None => part is None,
        },
{
    match masks {
        Some(m) => {
            assert(off + n <= m.len());
            Some(&m[off..off + n])
        },
        None => None,
    }
}

/// The mask buffer, if there is one, has a keep factor for every place.
pub open spec fn masks_cover<F>(c: Config, masks: Option<&[F]>) -> bool {
    masks matches Some(m) ==> m@.len() == c.mask_total()
}

/// Run layer `l`, whose activations lie at `p` and whose parameters at `w`.
fn layer_forward<F: Scalar>(
    c: &Config,
    p: &ActSlots,
    w: &ParamSlots,
    ml: &MaskLayout,
    l: usize,
    params: &[F],
    acts: &mut [F],
    masks: Option<&[F]>,
)
    requires
        c.runs(),
        l < c.n_layer,
        p.is_for(*c, l as int),
        w.is_for(*c, l as int),
        *ml == mask_layout(*c),
        params@.len() == c.param_total(),
        old(acts)@.len() == c.act_total(),
        masks_cover(*c, masks),
    ensures
        layer_changed(*c, *p, p.out, old(acts)@, final(acts)@),
        layer_is(
            *c,
            layer_params(*c, params@, l as int),
            layer_masks(*c, mask_values(masks), l as int),
            stream(*c, final(acts)@, l as int),
            layer_acts(*c, final(acts)@, l as int),
            stream(*c, final(acts)@, l + 1),
        ),
{
    proof {
        lemma_slots_ordered(*c, *p, l as int);
        lemma_param_slots_ordered(*c, *w, l as int);
        lemma_mask_slots(*c, l as int);
        lemma_param_sizes(*c);
        lemma_act_sizes(*c);
        lemma_shapes(*c);
    }
    let ch = c.n_embd;
    let hidden = swiglu_hidden(ch);
    let ca = (c.batch_size * c.block_size) * ch;
    let aa = c.batch_size * ((c.n_head * c.block_size) * c.block_size);
    let ln1w = &params[w.ln1w..w.ln1w + ch];
    let qkvw = &params[w.qkvw..w.qkvw + (3 * ch) * ch];
    let attprojw = &params[w.attprojw..w.attprojw + ch * ch];
    let ln2w = &params[w.ln2w..w.ln2w + ch];
    let w1 = &params[w.w1..w.w1 + hidden * ch];
    let w3 = &params[w.w3..w.w3 + hidden * ch];
    let w2 = &params[w.w2..w.w2 + hidden * ch];
    let att_mask = mask_part(masks, ml.att.off + l * aa, aa);
    let attproj_mask = mask_part(masks, ml.attproj.off + l * ca, ca);
    let fcproj_mask = mask_part(masks, ml.fcproj.off + l * ca, ca);
    let ghost lp = layer_params(*c, params@, l as int);
    let ghost lm = layer_masks(*c, mask_values(masks), l as int);
    let ghost s0 = acts@;
    attention_half(
        c,
        p,
        acts,
        ln1w,
        qkvw,
        attprojw,
        att_mask,
        attproj_mask,
        Ghost(lp),
        Ghost(lm),
    );
    let ghost s1 = acts@;
    assert(s1.len() == s0.len()) by {
        reveal(layer_changed);
    }
    feed_forward_half(c, p, acts, ln2w, w1, w3, w2, fcproj_mask, Ghost(lp), Ghost(lm));
    assert(layer_changed(*c, *p, p.out, s0, acts@)) by {
        reveal(layer_changed);
    }
}

/// The residual stream before the first layer: the embedded tokens, with
/// dropout behind them.
pub open spec fn embedded_is<F: Scalar>(
    c: Config,
    params: Seq<F>,
    ids: Seq<u16>,
    masks: Option<Seq<F>>,
    encoded: Seq<F>,
) -> bool {
    exists|raw: Seq<F>| #[trigger]
        embedding_is(param_layout(c).wte.of(params), ids, c.n_embd as int, raw) && dropped_is(
            raw,
            encoded_mask(c, masks),
            encoded,
        )
}

/// The keep factors of the embedded tokens, if there are masks.
pub open spec fn encoded_mask<F>(c: Config, masks: Option<Seq<F>>) -> Option<Seq<F>> {
    match masks {
        Some(m) => Some(mask_layout(c).encoded.of(m)),
        None => None,
    }
}

/// `acts` holds the forward pass over `ids` up to the logits.
#[verifier::opaque]
pub open spec fn forward_is<F: Scalar>(
    c: Config,
    params: Seq<F>,
    ids: Seq<u16>,
    masks: Option<Seq<F>>,
    acts: Seq<F>,
) -> bool {
    let al = act_layout(c);
    let pl = param_layout(c);
    &&& acts.len() == c.act_total()
    &&& embedded_is(c, params, ids, masks, stream(c, acts, 0))
    &&& layers_are(c, params, masks, acts, c.n_layer as int)
    &&& rmsnorm_is(
        stream(c, acts, c.n_layer as int),
        pl.lnfw.of(params),
        c.tokens(),
        c.n_embd as int,
        al.lnf.of(acts),
        al.lnf_rstd.of(acts),
    )
    &&& linear_is(
        al.lnf.of(acts),
        pl.lm_head.of(params),
        None,
        c.tokens(),
        c.n_embd as int,
        c.vocab_size as int,
        al.logits.of(acts),
    )
}

/// The first `n` layers take the residual stream from each to the next.
pub open spec fn layers_are<F: Scalar>(
    c: Config,
    params: Seq<F>,
    masks: Option<Seq<F>>,
    acts: Seq<F>,
    n: int,
) -> bool {
    forall|l: int|
        0 <= l < n ==> layer_is(
            c,
            layer_params(c, params, l),
            layer_masks(c, masks, l),
            stream(c, acts, l),
            #[trigger] layer_acts(c, acts, l),
            stream(c, acts, l + 1),
        )
}

/// `acts` holds the probabilities that follow from its logits and the losses of
/// the targets, and `loss` is their mean.
pub open spec fn scored_is<F: Scalar>(
    c: Config,
    acts: Seq<F>,
    targets: Seq<u16>,
    loss: F,
) -> bool {
    let al = act_layout(c);
    &&& softmax_is(
        al.logits.of(acts),
        c.tokens(),
        c.vocab_size as int,
        al.probs.of(acts),
    )
    &&& losses_are(
        al.probs.of(acts),
        targets,
        c.tokens(),
        c.vocab_size as int,
        al.losses.of(acts),
    )
    &&& mean_loss_is(al.losses.of(acts), loss)
}

/// One id of the vocabulary for each token of a batch.
pub open spec fn batch_ids(c: Config, ids: Seq<u16>) -> bool {
    ids.len() == c.tokens() && ids_below(ids, c.vocab_size as int)
}

/// What a forward pass makes of the arena: it holds the pass over `ids`; with
/// targets also their probabilities and losses, of which the result is the
/// mean; without, what it held of those before.
pub open spec fn forward_result_is<F: Scalar>(
    c: Config,
    params: Seq<F>,
    ids: Seq<u16>,
    targets: Option<Seq<u16>>,
    masks: Option<Seq<F>>,
    old_acts: Seq<F>,
    acts: Seq<F>,
    loss: Option<F>,
) -> bool {
    let al = act_layout(c);
    &&& forward_is(c, params, ids, masks, acts)
    &&& match targets {
        Some(t) => loss matches Some(x) && scored_is(c, acts, t, x),
        None => loss is None && al.probs.of(acts) == al.probs.of(old_acts) && al.losses.of(acts)
            == al.losses.of(old_acts),
    }
}

/// `loss` is the mean loss of a forward pass over `ids` with these targets.
pub open spec fn batch_loss_is<F: Scalar>(
    c: Config,
    params: Seq<F>,
    ids: Seq<u16>,
    targets: Seq<u16>,
    masks: Option<Seq<F>>,
    loss: F,
) -> bool {
    exists|acts: Seq<F>| #[trigger]
        forward_is(c, params, ids, masks, acts) && scored_is(c, acts, targets, loss)
}

/// The values of the targets, if there are any.
pub open spec fn target_ids(targets: Option<&[u16]>) -> Option<Seq<u16>> {
    match targets {
        Some(t) => Some(t@),
        None => None,
    }
}

/// Layer `l` adds itself to those before it.
proof fn lemma_layer_done<F: Scalar>(
    c: Config,
    params: Seq<F>,
    masks: Option<Seq<F>>,
    p: ActSlots,
    l: int,
    before: Seq<F>,
    after: Seq<F>,
)
    requires
        c.runs(),
        0 <= l < c.n_layer,
        p.is_for(c, l),
        before.len() == c.act_total(),
        layers_are(c, params, masks, before, l),
        layer_changed(c, p, p.out, before, after),
        layer_is(
            c,
            layer_params(c, params, l),
            layer_masks(c, masks, l),
            stream(c, after, l),
            layer_acts(c, after, l),
            stream(c, after, l + 1),
        ),
    ensures
        after.len() == before.len(),
        layers_are(c, params, masks, after, l + 1),
        stream(c, after, 0) == stream(c, before, 0),
        act_layout(c).probs.of(after) == act_layout(c).probs.of(before),
        act_layout(c).losses.of(after) == act_layout(c).losses.of(before),
{
    assert(after.len() == before.len()) by {
        reveal(layer_changed);
    }
    assert forall|q: int| 0 <= q < l + 1 implies layer_is(
        c,
        layer_params(c, params, q),
        layer_masks(c, masks, q),
        stream(c, after, q),
        #[trigger] layer_acts(c, after, q),
        stream(c, after, q + 1),
    ) by {
        if q < l {
            lemma_other_layer_kept(c, p, l, l + 1, p.out, q, before, after);
            lemma_other_stream_kept(c, p, l, l + 1, p.out, q, before, after);
            lemma_other_stream_kept(c, p, l, l + 1, p.out, q + 1, before, after);
        }
    }
    lemma_other_stream_kept(c, p, l, l + 1, p.out, 0, before, after);
    lemma_act_layout(c);
    lemma_act_sizes(c);
    let al = act_layout(c);
    lemma_behind_kept(
        c,
        p,
        l,
        l + 1,
        p.out,
        al.probs.off as int,
        al.probs.len as int,
        before,
        after,
    );
    lemma_behind_kept(
        c,
        p,
        l,
        l + 1,
        p.out,
        al.losses.off as int,
        al.losses.len as int,
        before,
        after,
    );
}

/// A write behind the layers leaves the embedded tokens and the layers.
proof fn lemma_tail_written<F: Scalar>(
    c: Config,
    params: Seq<F>,
    ids: Seq<u16>,
    masks: Option<Seq<F>>,
    before: Seq<F>,
    after: Seq<F>,
)
    requires
        c.runs(),
        before.len() == c.act_total(),
        after.len() == c.act_total(),
        forall|i: int| 0 <= i < act_layout(c).lnf.off ==> after[i] == before[i],
        embedded_is(c, params, ids, masks, stream(c, before, 0)),
        layers_are(c, params, masks, before, c.n_layer as int),
    ensures
        embedded_is(c, params, ids, masks, stream(c, after, 0)),
        layers_are(c, params, masks, after, c.n_layer as int),
        stream(c, after, c.n_layer as int) == stream(c, before, c.n_layer as int),
{
    lemma_act_layout(c);
    lemma_act_sizes(c);
    lemma_stream_in_front(c, 0, before, after);
    lemma_stream_in_front(c, c.n_layer as int, before, after);
    assert forall|q: int| 0 <= q < c.n_layer implies layer_is(
        c,
        layer_params(c, params, q),
        layer_masks(c, masks, q),
        stream(c, after, q),
        #[trigger] layer_acts(c, after, q),
        stream(c, after, q + 1),
    ) by {
        lemma_layer_in_front(c, q, before, after);
        lemma_stream_in_front(c, q, before, after);
        lemma_stream_in_front(c, q + 1, before, after);
    }
}

/// The forward pass over one batch of token ids. With targets it also computes
/// the probabilities and the loss of each token, and gives back the mean loss.
pub fn forward_into<F: Scalar>(
    cfg: &Config,
    params: &[F],
    acts: &mut [F],
    ids: &[u16],
    targets: Option<&[u16]>,
    masks: Option<&[F]>,
) -> (loss: Option<F>)
    requires
        cfg.runs(),
        params@.len() == cfg.param_total(),
        old(acts)@.len() == cfg.act_total(),
        batch_ids(*cfg, ids@),
        targets matches Some(t) ==> batch_ids(*cfg, t@),
        masks_cover(*cfg, masks),
    ensures
        final(acts)@.len() == old(acts)@.len(),
        forward_result_is(
            *cfg,
            params@,
            ids@,
            target_ids(targets),
            mask_values(masks),
            old(acts)@,
            final(acts)@,
            loss,
        ),
{
    broadcast use group_kept;

    proof {
        reveal(forward_is);
        lemma_act_layout(*cfg);
        lemma_param_layout(*cfg);
        lemma_mask_layout(*cfg);
        lemma_param_sizes(*cfg);
        lemma_act_sizes(*cfg);
        lemma_shapes(*cfg);
    }
    let b = cfg.batch_size;
    let t = cfg.block_size;
    let ch = cfg.n_embd;
    let v = cfg.vocab_size;
    let bt = b * t;
    let pl = ParamLayout::new(cfg);
    let al = ActLayout::new(cfg);
    let ml = MaskLayout::new(cfg);
    let ghost start = acts@;
    let wte = &params[pl.wte.off..pl.wte.off + pl.wte.len];
    encoder_forward(acts, al.encoded.off, ids, wte, v, ch);
    let ghost raw = stream(*cfg, acts@, 0);
    let encoded_part = mask_part(masks, ml.encoded.off, bt * ch);
    drop_values(acts, al.encoded.off, encoded_part, bt * ch);
    proof {
        assert(embedding_is(pl.wte.of(params@), ids@, ch as int, raw));
        assert(mask_values(encoded_part) == encoded_mask(*cfg, mask_values(masks)));
        assert(embedded_is(*cfg, params@, ids@, mask_values(masks), stream(*cfg, acts@, 0)));
    }
    for l in 0..cfg.n_layer
        invariant
            cfg.runs(),
            params@.len() == cfg.param_total(),
            acts@.len() == cfg.act_total(),
            masks_cover(*cfg, masks),
            pl == param_layout(*cfg),
            al == act_layout(*cfg),
            ml == mask_layout(*cfg),
            embedded_is(*cfg, params@, ids@, mask_values(masks), stream(*cfg, acts@, 0)),
            layers_are(*cfg, params@, mask_values(masks), acts@, l as int),
            al.probs.of(acts@) == al.probs.of(start),
            al.losses.of(acts@) == al.losses.of(start),
    {
        let p = ActSlots::new(cfg, &al, l);
        let w = ParamSlots::new(cfg, &pl, l);
        let ghost before = acts@;
        layer_forward(cfg, &p, &w, &ml, l, params, acts, masks);
        proof {
            lemma_layer_done(*cfg, params@, mask_values(masks), p, l as int, before, acts@);
        }
    }
    proof {
        lemma_last_stream(*cfg);
    }
    let resf = al.residual3.off + (cfg.n_layer - 1) * (bt * ch);
    let ghost s0 = acts@;
    let lnfw = &params[pl.lnfw.off..pl.lnfw.off + pl.lnfw.len];
    rmsnorm_forward(acts, al.lnf.off, al.lnf_rstd.off, resf, lnfw, bt, ch);
    let lm_head = &params[pl.lm_head.off..pl.lm_head.off + pl.lm_head.len];
    linear(acts, al.logits.off, al.lnf.off, lm_head, None, bt, ch, v);
    let ghost s2 = acts@;
    proof {
        lemma_tail_written(*cfg, params@, ids@, mask_values(masks), s0, s2);
    }
    match targets {
        Some(targets) => {
            softmax_forward(acts, al.probs.off, al.logits.off, bt, v);
            crossentropy_forward(acts, al.losses.off, al.probs.off, targets, bt, v);
            proof {
                lemma_tail_written(*cfg, params@, ids@, mask_values(masks), s0, acts@);
            }
            let losses = &acts[al.losses.off..al.losses.off + al.losses.len];
            Some(mean_loss(losses))
        },
        None => None,
    }
}

/// What a forward pass with targets leaves in the arena, and its loss, do not
/// depend on what the arena held before.
pub proof fn lemma_forward_forgets<F: Scalar>(
    c: Config,
    params: Seq<F>,
    ids: Seq<u16>,
    targets: Seq<u16>,
    masks: Option<Seq<F>>,
    before: Seq<F>,
    other: Seq<F>,
    acts: Seq<F>,
    loss: Option<F>,
)
    requires
        forward_result_is(c, params, ids, Some(targets), masks, before, acts, loss),
    ensures
        forward_result_is(c, params, ids, Some(targets), masks, other, acts, loss),
{
}

} // verus!
