//! The tensors of one layer inside the flat buffers.

use vstd::prelude::*;

use crate::arena::{apart, lemma_row_bounds, lemma_rows_apart, tensor, within};
use crate::layout::{
    act_layout, lemma_act_layout, lemma_act_sizes, lemma_mask_layout, lemma_param_layout,
    lemma_param_sizes, mask_layout, param_layout, swiglu_hidden, ActLayout, Config, ParamLayout,
};
use crate::ops::attention::packed;

verus! {

/// The activations of one layer, or their gradients.
#[verifier::ext_equal]
pub struct LayerActs<F> {
    pub ln1: Seq<F>,
    pub ln1_rstd: Seq<F>,
    pub qkv: Seq<F>,
    pub atty: Seq<F>,
    pub preatt: Seq<F>,
    pub att: Seq<F>,
    pub attproj: Seq<F>,
    pub residual2: Seq<F>,
    pub ln2: Seq<F>,
    pub ln2_rstd: Seq<F>,
    pub gate: Seq<F>,
    pub up: Seq<F>,
    pub glu: Seq<F>,
    pub fcproj: Seq<F>,
}

/// The parameters of one layer, or their gradients.
#[verifier::ext_equal]
pub struct LayerParams<F> {
    pub ln1w: Seq<F>,
    pub qkvw: Seq<F>,
    pub attprojw: Seq<F>,
    pub ln2w: Seq<F>,
    pub w1: Seq<F>,
    pub w3: Seq<F>,
    pub w2: Seq<F>,
}

/// The keep factors of one layer, if dropout is on.
pub struct LayerMasks<F> {
    pub att: Option<Seq<F>>,
    pub attproj: Option<Seq<F>>,
    pub fcproj: Option<Seq<F>>,
}

/// Entry `l` of a tensor of entries of `n` values that starts at `base`.
pub open spec fn slot<F>(s: Seq<F>, base: usize, l: int, n: int) -> Seq<F> {
    tensor(s, base + l * n, n)
}

/// The activations of layer `l`.
pub open spec fn layer_acts<F>(c: Config, s: Seq<F>, l: int) -> LayerActs<F> {
    let al = act_layout(c);
    LayerActs {
        ln1: slot(s, al.ln1.off, l, c.channel_acts()),
        ln1_rstd: slot(s, al.ln1_rstd.off, l, c.tokens()),
        qkv: slot(s, al.qkv.off, l, c.qkv_acts()),
        atty: slot(s, al.atty.off, l, c.channel_acts()),
        preatt: slot(s, al.preatt.off, l, c.att_acts()),
        att: slot(s, al.att.off, l, c.att_acts()),
        attproj: slot(s, al.attproj.off, l, c.channel_acts()),
        residual2: slot(s, al.residual2.off, l, c.channel_acts()),
        ln2: slot(s, al.ln2.off, l, c.channel_acts()),
        ln2_rstd: slot(s, al.ln2_rstd.off, l, c.tokens()),
        gate: slot(s, al.gate.off, l, c.hidden_acts()),
        up: slot(s, al.up.off, l, c.hidden_acts()),
        glu: slot(s, al.glu.off, l, c.hidden_acts()),
        fcproj: slot(s, al.fcproj.off, l, c.channel_acts()),
    }
}

/// Where the residual stream lies before layer `k`, or behind the last layer.
pub open spec fn stream_off(c: Config, k: int) -> int {
    if k == 0 {
        act_layout(c).encoded.off as int
    } else {
        act_layout(c).residual3.off + (k - 1) * c.channel_acts()
    }
}

/// The residual stream before layer `k`, or behind the last layer.
pub open spec fn stream<F>(c: Config, s: Seq<F>, k: int) -> Seq<F> {
    tensor(s, stream_off(c, k), c.channel_acts())
}

/// The parameters of layer `l`.
pub open spec fn layer_params<F>(c: Config, s: Seq<F>, l: int) -> LayerParams<F> {
    let pl = param_layout(c);
    LayerParams {
        ln1w: slot(s, pl.ln1w.off, l, c.n_embd as int),
        qkvw: slot(s, pl.qkvw.off, l, c.qkv_weights()),
        attprojw: slot(s, pl.attprojw.off, l, c.square_weights()),
        ln2w: slot(s, pl.ln2w.off, l, c.n_embd as int),
        w1: slot(s, pl.w1.off, l, c.hidden_weights()),
        w3: slot(s, pl.w3.off, l, c.hidden_weights()),
        w2: slot(s, pl.w2.off, l, c.hidden_weights()),
    }
}

/// Entry `l` of a mask, if there are masks.
pub open spec fn mask_slot<F>(masks: Option<Seq<F>>, base: usize, l: int, n: int) -> Option<
    Seq<F>,
> {
    match masks {
        Some(m) => Some(slot(m, base, l, n)),
        None => None,
    }
}

/// The keep factors of layer `l`.
pub open spec fn layer_masks<F>(c: Config, masks: Option<Seq<F>>, l: int) -> LayerMasks<F> {
    let ml = mask_layout(c);
    LayerMasks {
        att: mask_slot(masks, ml.att.off, l, c.att_acts()),
        attproj: mask_slot(masks, ml.attproj.off, l, c.channel_acts()),
        fcproj: mask_slot(masks, ml.fcproj.off, l, c.channel_acts()),
    }
}

/// Where the activations of one layer lie, with the residual stream before and
/// behind it.
#[derive(Debug, Clone, Copy)]
pub struct ActSlots {
    pub inp: usize,
    pub ln1: usize,
    pub ln1_rstd: usize,
    pub qkv: usize,
    pub atty: usize,
    pub preatt: usize,
    pub att: usize,
    pub attproj: usize,
    pub residual2: usize,
    pub ln2: usize,
    pub ln2_rstd: usize,
    pub gate: usize,
    pub up: usize,
    pub glu: usize,
    pub fcproj: usize,
    pub out: usize,
}

impl ActSlots {
    /// These are the places for layer `l`.
    pub open spec fn is_for(self, c: Config, l: int) -> bool {
        let al = act_layout(c);
        &&& self.inp == stream_off(c, l)
        &&& self.ln1 == al.ln1.off + l * c.channel_acts()
        &&& self.ln1_rstd == al.ln1_rstd.off + l * c.tokens()
        &&& self.qkv == al.qkv.off + l * c.qkv_acts()
        &&& self.atty == al.atty.off + l * c.channel_acts()
        &&& self.preatt == al.preatt.off + l * c.att_acts()
        &&& self.att == al.att.off + l * c.att_acts()
        &&& self.attproj == al.attproj.off + l * c.channel_acts()
        &&& self.residual2 == al.residual2.off + l * c.channel_acts()
        &&& self.ln2 == al.ln2.off + l * c.channel_acts()
        &&& self.ln2_rstd == al.ln2_rstd.off + l * c.tokens()
        &&& self.gate == al.gate.off + l * c.hidden_acts()
        &&& self.up == al.up.off + l * c.hidden_acts()
        &&& self.glu == al.glu.off + l * c.hidden_acts()
        &&& self.fcproj == al.fcproj.off + l * c.channel_acts()
        &&& self.out == stream_off(c, l + 1)
    }

    /// The tensors do not overlap: they ascend in the order of the fields, but
    /// for the residual stream before the layer, which lies in front of all of
    /// them or right before the stream behind the layer.
    pub open spec fn in_order(self, c: Config) -> bool {
        &&& self.ln1 + c.channel_acts() <= self.ln1_rstd
        &&& self.ln1_rstd + c.tokens() <= self.qkv
        &&& self.qkv + c.qkv_acts() <= self.atty
        &&& self.atty + c.channel_acts() <= self.preatt
        &&& self.preatt + c.att_acts() <= self.att
        &&& self.att + c.att_acts() <= self.attproj
        &&& self.attproj + c.channel_acts() <= self.residual2
        &&& self.residual2 + c.channel_acts() <= self.ln2
        &&& self.ln2 + c.channel_acts() <= self.ln2_rstd
        &&& self.ln2_rstd + c.tokens() <= self.gate
        &&& self.gate + c.hidden_acts() <= self.up
        &&& self.up + c.hidden_acts() <= self.glu
        &&& self.glu + c.hidden_acts() <= self.fcproj
        &&& self.fcproj + c.channel_acts() <= self.out
        &&& self.out + c.channel_acts() <= c.act_total()
        &&& self.inp + c.channel_acts() <= self.ln1 || (self.fcproj + c.channel_acts() <= self.inp
            && self.inp + c.channel_acts() <= self.out)
    }

    /// Place `i` belongs to an activation of the layer.
    pub open spec fn holds(self, c: Config, i: int) -> bool {
        ||| within(i, self.ln1 as int, c.channel_acts())
        ||| within(i, self.ln1_rstd as int, c.tokens())
        ||| within(i, self.qkv as int, c.qkv_acts())
        ||| within(i, self.atty as int, c.channel_acts())
        ||| within(i, self.preatt as int, c.att_acts())
        ||| within(i, self.att as int, c.att_acts())
        ||| within(i, self.attproj as int, c.channel_acts())
        ||| within(i, self.residual2 as int, c.channel_acts())
        ||| within(i, self.ln2 as int, c.channel_acts())
        ||| within(i, self.ln2_rstd as int, c.tokens())
        ||| within(i, self.gate as int, c.hidden_acts())
        ||| within(i, self.up as int, c.hidden_acts())
        ||| within(i, self.glu as int, c.hidden_acts())
        ||| within(i, self.fcproj as int, c.channel_acts())
    }

    /// The places for layer `l`.
    pub fn new(c: &Config, al: &ActLayout, l: usize) -> (res: Self)
        requires
            c.acts_fit(),
            *al == act_layout(*c),
            l < c.n_layer,
        ensures
            res.is_for(*c, l as int),
            res.in_order(*c),
    {
        proof {
            lemma_act_layout(*c);
            lemma_act_sizes(*c);
            let n = c.n_layer as int;
            lemma_row_bounds(l as int, n, c.channel_acts());
            lemma_row_bounds(l as int, n, c.tokens());
            lemma_row_bounds(l as int, n, c.qkv_acts());
            lemma_row_bounds(l as int, n, c.att_acts());
            lemma_row_bounds(l as int, n, c.hidden_acts());
            if l > 0 {
                lemma_row_bounds(l - 1, n, c.channel_acts());
                lemma_rows_apart(l - 1, l as int, c.channel_acts());
            }
        }
        let bt = c.batch_size * c.block_size;
        let ca = bt * c.n_embd;
        let qa = bt * (3 * c.n_embd);
        let aa = c.batch_size * ((c.n_head * c.block_size) * c.block_size);
        let ha = bt * swiglu_hidden(c.n_embd);
        let inp = if l == 0 {
            al.encoded.off
        } else {
            al.residual3.off + (l - 1) * ca
        };
        ActSlots {
            inp,
            ln1: al.ln1.off + l * ca,
            ln1_rstd: al.ln1_rstd.off + l * bt,
            qkv: al.qkv.off + l * qa,
            atty: al.atty.off + l * ca,
            preatt: al.preatt.off + l * aa,
            att: al.att.off + l * aa,
            attproj: al.attproj.off + l * ca,
            residual2: al.residual2.off + l * ca,
            ln2: al.ln2.off + l * ca,
            ln2_rstd: al.ln2_rstd.off + l * bt,
            gate: al.gate.off + l * ha,
            up: al.up.off + l * ha,
            glu: al.glu.off + l * ha,
            fcproj: al.fcproj.off + l * ca,
            out: al.residual3.off + l * ca,
        }
    }
}

/// The tensors at these places.
pub open spec fn acts_at<F>(c: Config, p: ActSlots, s: Seq<F>) -> LayerActs<F> {
    LayerActs {
        ln1: tensor(s, p.ln1 as int, c.channel_acts()),
        ln1_rstd: tensor(s, p.ln1_rstd as int, c.tokens()),
        qkv: tensor(s, p.qkv as int, c.qkv_acts()),
        atty: tensor(s, p.atty as int, c.channel_acts()),
        preatt: tensor(s, p.preatt as int, c.att_acts()),
        att: tensor(s, p.att as int, c.att_acts()),
        attproj: tensor(s, p.attproj as int, c.channel_acts()),
        residual2: tensor(s, p.residual2 as int, c.channel_acts()),
        ln2: tensor(s, p.ln2 as int, c.channel_acts()),
        ln2_rstd: tensor(s, p.ln2_rstd as int, c.tokens()),
        gate: tensor(s, p.gate as int, c.hidden_acts()),
        up: tensor(s, p.up as int, c.hidden_acts()),
        glu: tensor(s, p.glu as int, c.hidden_acts()),
        fcproj: tensor(s, p.fcproj as int, c.channel_acts()),
    }
}

/// The sizes of a `(B, T, 3C)`, a `(B, T, C)` and a `(B, NH, T, T)` tensor, by
/// batch rows and heads.
pub proof fn lemma_shapes(c: Config)
    requires
        c.runs(),
    ensures
        c.n_embd == c.n_head * c.head_size(),
        packed(c.n_head as int, c.head_size() as int) == 3 * c.n_embd,
        3 * c.n_head <= usize::MAX,
        c.batch_size * (c.block_size * packed(c.n_head as int, c.head_size() as int))
            == c.qkv_acts(),
        c.batch_size * (c.block_size * (c.n_head * c.head_size())) == c.channel_acts(),
        c.n_embd * c.hidden() == c.hidden_weights(),
        0 < c.hidden(),
        c.tokens() <= usize::MAX,
        c.tokens() == 0 ==> c.channel_acts() == 0 && c.qkv_acts() == 0 && c.hidden_acts() == 0
            && c.vocab_acts() == 0,
        c.tokens() > 0 ==> c.channel_acts() > 0 && c.qkv_acts() > 0 && c.hidden_acts() > 0
            && c.vocab_acts() > 0,
{
    let ch = c.n_embd as int;
    let nh = c.n_head as int;
    let hs = c.head_size() as int;
    let b = c.batch_size as int;
    let t = c.block_size as int;
    vstd::arithmetic::div_mod::lemma_fundamental_div_mod(ch, nh);
    assert(ch == nh * hs);
    assert(0 < hs) by (nonlinear_arith)
        requires
            ch == nh * hs,
            0 < ch,
            0 < nh,
    ;
    assert(3 * nh <= 3 * ch) by (nonlinear_arith)
        requires
            ch == nh * hs,
            0 < hs,
            0 < nh,
    ;
    assert((3 * nh) * hs == 3 * (nh * hs)) by (nonlinear_arith);
    assert(b * (t * (3 * ch)) == (b * t) * (3 * ch)) by (nonlinear_arith);
    assert(b * (t * ch) == (b * t) * ch) by (nonlinear_arith);
    assert(ch * c.hidden() == c.hidden() * ch) by (nonlinear_arith);
    lemma_act_sizes(c);
    assert(c.tokens() <= c.tokens() * ch) by (nonlinear_arith)
        requires
            0 <= c.tokens(),
            1 <= ch,
    ;
    lemma_product_zero(c.tokens(), ch);
    lemma_product_zero(c.tokens(), 3 * ch);
    lemma_product_zero(c.tokens(), c.hidden());
    lemma_product_zero(c.tokens(), c.vocab_size as int);
}

/// A product with a positive factor is zero just where the other factor is.
proof fn lemma_product_zero(x: int, y: int)
    requires
        0 <= x,
        0 < y,
    ensures
        x == 0 ==> x * y == 0,
        x > 0 ==> x * y > 0,
{
    assert(x > 0 ==> x * y > 0) by (nonlinear_arith)
        requires
            0 <= x,
            0 < y,
    ;
}

/// `new` is `old` but for the activations of the layer at `p` and the values
/// of the residual stream at `off`.
#[verifier::opaque]
pub open spec fn layer_changed<F>(
    c: Config,
    p: ActSlots,
    off: usize,
    old_s: Seq<F>,
    new_s: Seq<F>,
) -> bool {
    &&& new_s.len() == old_s.len()
    &&& forall|i: int|
        0 <= i < old_s.len() && !p.holds(c, i) && !within(i, off as int, c.channel_acts())
            ==> new_s[i] == old_s[i]
}

/// A span that shares no place with the layer at `p` nor with the residual
/// stream at `off` is what it was.
proof fn lemma_span_kept<F>(
    c: Config,
    p: ActSlots,
    off: usize,
    o: int,
    n: int,
    old_s: Seq<F>,
    new_s: Seq<F>,
)
    requires
        layer_changed(c, p, off, old_s, new_s),
        0 <= o,
        0 <= n,
        o + n <= old_s.len(),
        apart(o, n, off as int, c.channel_acts()),
        apart(o, n, p.ln1 as int, c.channel_acts()),
        apart(o, n, p.ln1_rstd as int, c.tokens()),
        apart(o, n, p.qkv as int, c.qkv_acts()),
        apart(o, n, p.atty as int, c.channel_acts()),
        apart(o, n, p.preatt as int, c.att_acts()),
        apart(o, n, p.att as int, c.att_acts()),
        apart(o, n, p.attproj as int, c.channel_acts()),
        apart(o, n, p.residual2 as int, c.channel_acts()),
        apart(o, n, p.ln2 as int, c.channel_acts()),
        apart(o, n, p.ln2_rstd as int, c.tokens()),
        apart(o, n, p.gate as int, c.hidden_acts()),
        apart(o, n, p.up as int, c.hidden_acts()),
        apart(o, n, p.glu as int, c.hidden_acts()),
        apart(o, n, p.fcproj as int, c.channel_acts()),
    ensures
        tensor(new_s, o, n) == tensor(old_s, o, n),
{
    reveal(layer_changed);
    assert(tensor(new_s, o, n) =~= tensor(old_s, o, n));
}

/// Each tensor at `p` lies in front of its counterpart at `r`.
spec fn in_front(c: Config, p: ActSlots, r: ActSlots) -> bool {
    &&& p.ln1 + c.channel_acts() <= r.ln1
    &&& p.ln1_rstd + c.tokens() <= r.ln1_rstd
    &&& p.qkv + c.qkv_acts() <= r.qkv
    &&& p.atty + c.channel_acts() <= r.atty
    &&& p.preatt + c.att_acts() <= r.preatt
    &&& p.att + c.att_acts() <= r.att
    &&& p.attproj + c.channel_acts() <= r.attproj
    &&& p.residual2 + c.channel_acts() <= r.residual2
    &&& p.ln2 + c.channel_acts() <= r.ln2
    &&& p.ln2_rstd + c.tokens() <= r.ln2_rstd
    &&& p.gate + c.hidden_acts() <= r.gate
    &&& p.up + c.hidden_acts() <= r.up
    &&& p.glu + c.hidden_acts() <= r.glu
    &&& p.fcproj + c.channel_acts() <= r.fcproj
}

/// Each tensor at `p` lies in front of the next one at `r`.
spec fn staggered(c: Config, p: ActSlots, r: ActSlots) -> bool {
    &&& p.ln1 + c.channel_acts() <= r.ln1_rstd
    &&& p.ln1_rstd + c.tokens() <= r.qkv
    &&& p.qkv + c.qkv_acts() <= r.atty
    &&& p.atty + c.channel_acts() <= r.preatt
    &&& p.preatt + c.att_acts() <= r.att
    &&& p.att + c.att_acts() <= r.attproj
    &&& p.attproj + c.channel_acts() <= r.residual2
    &&& p.residual2 + c.channel_acts() <= r.ln2
    &&& p.ln2 + c.channel_acts() <= r.ln2_rstd
    &&& p.ln2_rstd + c.tokens() <= r.gate
    &&& p.gate + c.hidden_acts() <= r.up
    &&& p.up + c.hidden_acts() <= r.glu
    &&& p.glu + c.hidden_acts() <= r.fcproj
}

/// The tensors at `r` are what they were.
#[verifier::rlimit(40)]
proof fn lemma_slots_kept<F>(
    c: Config,
    p: ActSlots,
    off: usize,
    r: ActSlots,
    old_s: Seq<F>,
    new_s: Seq<F>,
)
    requires
        c.acts_fit(),
        p.in_order(c),
        r.in_order(c),
        staggered(c, p, r),
        staggered(c, r, p),
        in_front(c, p, r) || in_front(c, r, p),
        off + c.channel_acts() <= r.ln1 || r.fcproj + c.channel_acts() <= off,
        old_s.len() == c.act_total(),
        layer_changed(c, p, off, old_s, new_s),
    ensures
        acts_at(c, r, new_s) == acts_at(c, r, old_s),
{
    lemma_act_sizes(c);
    lemma_span_kept(c, p, off, r.ln1 as int, c.channel_acts(), old_s, new_s);
    lemma_span_kept(c, p, off, r.ln1_rstd as int, c.tokens(), old_s, new_s);
    lemma_span_kept(c, p, off, r.qkv as int, c.qkv_acts(), old_s, new_s);
    lemma_span_kept(c, p, off, r.atty as int, c.channel_acts(), old_s, new_s);
    lemma_span_kept(c, p, off, r.preatt as int, c.att_acts(), old_s, new_s);
    lemma_span_kept(c, p, off, r.att as int, c.att_acts(), old_s, new_s);
    lemma_span_kept(c, p, off, r.attproj as int, c.channel_acts(), old_s, new_s);
    lemma_span_kept(c, p, off, r.residual2 as int, c.channel_acts(), old_s, new_s);
    lemma_span_kept(c, p, off, r.ln2 as int, c.channel_acts(), old_s, new_s);
    lemma_span_kept(c, p, off, r.ln2_rstd as int, c.tokens(), old_s, new_s);
    lemma_span_kept(c, p, off, r.gate as int, c.hidden_acts(), old_s, new_s);
    lemma_span_kept(c, p, off, r.up as int, c.hidden_acts(), old_s, new_s);
    lemma_span_kept(c, p, off, r.glu as int, c.hidden_acts(), old_s, new_s);
    lemma_span_kept(c, p, off, r.fcproj as int, c.channel_acts(), old_s, new_s);
}

/// The places for layer `l`.
spec fn act_slots(c: Config, l: int) -> ActSlots {
    let al = act_layout(c);
    ActSlots {
        inp: stream_off(c, l) as usize,
        ln1: (al.ln1.off + l * c.channel_acts()) as usize,
        ln1_rstd: (al.ln1_rstd.off + l * c.tokens()) as usize,
        qkv: (al.qkv.off + l * c.qkv_acts()) as usize,
        atty: (al.atty.off + l * c.channel_acts()) as usize,
        preatt: (al.preatt.off + l * c.att_acts()) as usize,
        att: (al.att.off + l * c.att_acts()) as usize,
        attproj: (al.attproj.off + l * c.channel_acts()) as usize,
        residual2: (al.residual2.off + l * c.channel_acts()) as usize,
        ln2: (al.ln2.off + l * c.channel_acts()) as usize,
        ln2_rstd: (al.ln2_rstd.off + l * c.tokens()) as usize,
        gate: (al.gate.off + l * c.hidden_acts()) as usize,
        up: (al.up.off + l * c.hidden_acts()) as usize,
        glu: (al.glu.off + l * c.hidden_acts()) as usize,
        fcproj: (al.fcproj.off + l * c.channel_acts()) as usize,
        out: stream_off(c, l + 1) as usize,
    }
}

/// The places are not cut off.
proof fn lemma_act_slots(c: Config, l: int)
    requires
        c.acts_fit(),
        0 <= l < c.n_layer,
    ensures
        act_slots(c, l).is_for(c, l),
{
    lemma_act_layout(c);
    lemma_act_sizes(c);
    let n = c.n_layer as int;
    lemma_row_bounds(l, n, c.channel_acts());
    lemma_row_bounds(l, n, c.tokens());
    lemma_row_bounds(l, n, c.qkv_acts());
    lemma_row_bounds(l, n, c.att_acts());
    lemma_row_bounds(l, n, c.hidden_acts());
    if l > 0 {
        lemma_row_bounds(l - 1, n, c.channel_acts());
    }
}

/// The activations of another layer are what they were.
pub proof fn lemma_other_layer_kept<F>(
    c: Config,
    p: ActSlots,
    l: int,
    k: int,
    off: usize,
    q: int,
    old_s: Seq<F>,
    new_s: Seq<F>,
)
    requires
        c.acts_fit(),
        p.is_for(c, l),
        0 <= l < c.n_layer,
        0 <= q < c.n_layer,
        q != l,
        0 <= k <= c.n_layer,
        off == stream_off(c, k),
        old_s.len() == c.act_total(),
        layer_changed(c, p, off, old_s, new_s),
    ensures
        layer_acts(c, new_s, q) == layer_acts(c, old_s, q),
{
    let r = act_slots(c, q);
    lemma_act_slots(c, q);
    lemma_slots_ordered(c, p, l);
    lemma_slots_ordered(c, r, q);
    if l < q {
        lemma_slots_staggered(c, p, l, r, q);
    } else {
        lemma_slots_staggered(c, r, q, p, l);
    }
    lemma_stream_place(c, r, q, k);
    lemma_slots_kept(c, p, off, r, old_s, new_s);
}

/// The slots of a layer do not overlap.
pub proof fn lemma_slots_ordered(c: Config, p: ActSlots, l: int)
    requires
        c.acts_fit(),
        p.is_for(c, l),
        0 <= l < c.n_layer,
    ensures
        p.in_order(c),
{
    lemma_act_layout(c);
    lemma_act_sizes(c);
    let n = c.n_layer as int;
    lemma_row_bounds(l, n, c.channel_acts());
    lemma_row_bounds(l, n, c.tokens());
    lemma_row_bounds(l, n, c.qkv_acts());
    lemma_row_bounds(l, n, c.att_acts());
    lemma_row_bounds(l, n, c.hidden_acts());
    if l > 0 {
        lemma_row_bounds(l - 1, n, c.channel_acts());
        lemma_rows_apart(l - 1, l, c.channel_acts());
    }
}

/// The slots of two layers do not overlap.
proof fn lemma_slots_staggered(c: Config, p: ActSlots, l: int, r: ActSlots, q: int)
    requires
        c.acts_fit(),
        p.is_for(c, l),
        r.is_for(c, q),
        0 <= l < q < c.n_layer,
    ensures
        staggered(c, p, r),
        staggered(c, r, p),
        in_front(c, p, r),
{
    lemma_act_layout(c);
    lemma_act_sizes(c);
    let n = c.n_layer as int;
    lemma_row_bounds(l, n, c.channel_acts());
    lemma_row_bounds(l, n, c.tokens());
    lemma_row_bounds(l, n, c.qkv_acts());
    lemma_row_bounds(l, n, c.att_acts());
    lemma_row_bounds(l, n, c.hidden_acts());
    lemma_row_bounds(q, n, c.channel_acts());
    lemma_row_bounds(q, n, c.tokens());
    lemma_row_bounds(q, n, c.qkv_acts());
    lemma_row_bounds(q, n, c.att_acts());
    lemma_row_bounds(q, n, c.hidden_acts());
    lemma_rows_apart(l, q, c.channel_acts());
    lemma_rows_apart(l, q, c.tokens());
    lemma_rows_apart(l, q, c.qkv_acts());
    lemma_rows_apart(l, q, c.att_acts());
    lemma_rows_apart(l, q, c.hidden_acts());
}

/// The residual stream lies in front of the activations of every layer, or
/// behind them.
pub proof fn lemma_stream_place(c: Config, r: ActSlots, q: int, k: int)
    requires
        c.acts_fit(),
        r.is_for(c, q),
        0 <= q < c.n_layer,
        0 <= k <= c.n_layer,
    ensures
        0 <= stream_off(c, k),
        stream_off(c, k) + c.channel_acts() <= c.act_total(),
        stream_off(c, k) + c.channel_acts() <= r.ln1 || r.fcproj + c.channel_acts() <= stream_off(
            c,
            k,
        ),
{
    lemma_act_layout(c);
    lemma_act_sizes(c);
    lemma_row_bounds(q, c.n_layer as int, c.channel_acts());
    if k > 0 {
        lemma_row_bounds(k - 1, c.n_layer as int, c.channel_acts());
    }
}

/// The residual stream elsewhere is what it was.
pub proof fn lemma_other_stream_kept<F>(
    c: Config,
    p: ActSlots,
    l: int,
    k: int,
    off: usize,
    q: int,
    old_s: Seq<F>,
    new_s: Seq<F>,
)
    requires
        c.acts_fit(),
        p.is_for(c, l),
        0 <= l < c.n_layer,
        0 <= k <= c.n_layer,
        off == stream_off(c, k),
        0 <= q <= c.n_layer,
        q != k,
        old_s.len() == c.act_total(),
        layer_changed(c, p, off, old_s, new_s),
    ensures
        stream(c, new_s, q) == stream(c, old_s, q),
{
    lemma_slots_ordered(c, p, l);
    lemma_stream_place(c, p, l, q);
    lemma_streams_apart(c, k, q);
    lemma_act_sizes(c);
    lemma_span_kept(c, p, off, stream_off(c, q), c.channel_acts(), old_s, new_s);
}

/// The residual stream before one layer and before another do not overlap.
proof fn lemma_streams_apart(c: Config, k: int, q: int)
    requires
        c.acts_fit(),
        0 <= k <= c.n_layer,
        0 <= q <= c.n_layer,
        q != k,
    ensures
        apart(stream_off(c, q), c.channel_acts(), stream_off(c, k), c.channel_acts()),
{
    let n = c.channel_acts();
    lemma_act_layout(c);
    lemma_act_sizes(c);
    if k > 0 {
        lemma_row_bounds(k - 1, c.n_layer as int, n);
    }
    if q > 0 {
        lemma_row_bounds(q - 1, c.n_layer as int, n);
    }
    if 0 < k < q {
        lemma_rows_apart(k - 1, q - 1, n);
    }
    if 0 < q < k {
        lemma_rows_apart(q - 1, k - 1, n);
    }
}

/// Where the parameters of one layer lie.
#[derive(Debug, Clone, Copy)]
pub struct ParamSlots {
    pub ln1w: usize,
    pub qkvw: usize,
    pub attprojw: usize,
    pub ln2w: usize,
    pub w1: usize,
    pub w3: usize,
    pub w2: usize,
}

impl ParamSlots {
    /// These are the places for layer `l`.
    pub open spec fn is_for(self, c: Config, l: int) -> bool {
        let pl = param_layout(c);
        &&& self.ln1w == pl.ln1w.off + l * c.n_embd
        &&& self.qkvw == pl.qkvw.off + l * c.qkv_weights()
        &&& self.attprojw == pl.attprojw.off + l * c.square_weights()
        &&& self.ln2w == pl.ln2w.off + l * c.n_embd
        &&& self.w1 == pl.w1.off + l * c.hidden_weights()
        &&& self.w3 == pl.w3.off + l * c.hidden_weights()
        &&& self.w2 == pl.w2.off + l * c.hidden_weights()
    }

    /// The tensors do not overlap: they ascend in the order of the fields.
    pub open spec fn in_order(self, c: Config) -> bool {
        &&& self.ln1w + c.n_embd <= self.qkvw
        &&& self.qkvw + c.qkv_weights() <= self.attprojw
        &&& self.attprojw + c.square_weights() <= self.ln2w
        &&& self.ln2w + c.n_embd <= self.w1
        &&& self.w1 + c.hidden_weights() <= self.w3
        &&& self.w3 + c.hidden_weights() <= self.w2
        &&& self.w2 + c.hidden_weights() <= c.param_total()
    }

    /// Place `i` belongs to a parameter of the layer.
    pub open spec fn holds(self, c: Config, i: int) -> bool {
        ||| within(i, self.ln1w as int, c.n_embd as int)
        ||| within(i, self.qkvw as int, c.qkv_weights())
        ||| within(i, self.attprojw as int, c.square_weights())
        ||| within(i, self.ln2w as int, c.n_embd as int)
        ||| within(i, self.w1 as int, c.hidden_weights())
        ||| within(i, self.w3 as int, c.hidden_weights())
        ||| within(i, self.w2 as int, c.hidden_weights())
    }

    /// The places for layer `l`.
    pub fn new(c: &Config, pl: &ParamLayout, l: usize) -> (res: Self)
        requires
            c.params_fit(),
            *pl == param_layout(*c),
            l < c.n_layer,
        ensures
            res.is_for(*c, l as int),
            res.in_order(*c),
    {
        proof {
            lemma_param_layout(*c);
            lemma_param_sizes(*c);
            let n = c.n_layer as int;
            lemma_row_bounds(l as int, n, c.n_embd as int);
            lemma_row_bounds(l as int, n, c.qkv_weights());
            lemma_row_bounds(l as int, n, c.square_weights());
            lemma_row_bounds(l as int, n, c.hidden_weights());
        }
        let ch = c.n_embd;
        let hidden = swiglu_hidden(ch);
        ParamSlots {
            ln1w: pl.ln1w.off + l * ch,
            qkvw: pl.qkvw.off + l * ((3 * ch) * ch),
            attprojw: pl.attprojw.off + l * (ch * ch),
            ln2w: pl.ln2w.off + l * ch,
            w1: pl.w1.off + l * (hidden * ch),
            w3: pl.w3.off + l * (hidden * ch),
            w2: pl.w2.off + l * (hidden * ch),
        }
    }
}

/// The tensors at these places.
pub open spec fn params_at<F>(c: Config, p: ParamSlots, s: Seq<F>) -> LayerParams<F> {
    LayerParams {
        ln1w: tensor(s, p.ln1w as int, c.n_embd as int),
        qkvw: tensor(s, p.qkvw as int, c.qkv_weights()),
        attprojw: tensor(s, p.attprojw as int, c.square_weights()),
        ln2w: tensor(s, p.ln2w as int, c.n_embd as int),
        w1: tensor(s, p.w1 as int, c.hidden_weights()),
        w3: tensor(s, p.w3 as int, c.hidden_weights()),
        w2: tensor(s, p.w2 as int, c.hidden_weights()),
    }
}

/// `new` is `old` but for the parameters of the layer at `p`.
#[verifier::opaque]
pub open spec fn params_changed<F>(
    c: Config,
    p: ParamSlots,
    old_s: Seq<F>,
    new_s: Seq<F>,
) -> bool {
    &&& new_s.len() == old_s.len()
    &&& forall|i: int| 0 <= i < old_s.len() && !p.holds(c, i) ==> new_s[i] == old_s[i]
}

/// The parameters of a layer do not overlap.
pub proof fn lemma_param_slots_ordered(c: Config, p: ParamSlots, l: int)
    requires
        c.params_fit(),
        p.is_for(c, l),
        0 <= l < c.n_layer,
    ensures
        p.in_order(c),
{
    lemma_param_layout(c);
    lemma_param_sizes(c);
    let n = c.n_layer as int;
    lemma_row_bounds(l, n, c.n_embd as int);
    lemma_row_bounds(l, n, c.qkv_weights());
    lemma_row_bounds(l, n, c.square_weights());
    lemma_row_bounds(l, n, c.hidden_weights());
}

/// The masks of a layer lie in the mask buffer.
pub proof fn lemma_mask_slots(c: Config, l: int)
    requires
        c.masks_fit(),
        0 <= l < c.n_layer,
    ensures
        0 <= l * c.att_acts(),
        0 <= l * c.channel_acts(),
        mask_layout(c).att.off + l * c.att_acts() + c.att_acts() <= c.mask_total(),
        mask_layout(c).attproj.off + l * c.channel_acts() + c.channel_acts() <= c.mask_total(),
        mask_layout(c).fcproj.off + l * c.channel_acts() + c.channel_acts() <= c.mask_total(),
{
    lemma_mask_layout(c);
    lemma_act_sizes(c);
    lemma_row_bounds(l, c.n_layer as int, c.att_acts());
    lemma_row_bounds(l, c.n_layer as int, c.channel_acts());
}

/// What lies behind the layers is what it was.
pub proof fn lemma_behind_kept<F>(
    c: Config,
    p: ActSlots,
    l: int,
    k: int,
    off: usize,
    o: int,
    n: int,
    old_s: Seq<F>,
    new_s: Seq<F>,
)
    requires
        c.acts_fit(),
        p.is_for(c, l),
        0 <= l < c.n_layer,
        0 <= k <= c.n_layer,
        off == stream_off(c, k),
        act_layout(c).lnf.off <= o,
        0 <= n,
        o + n <= c.act_total(),
        old_s.len() == c.act_total(),
        layer_changed(c, p, off, old_s, new_s),
    ensures
        tensor(new_s, o, n) == tensor(old_s, o, n),
{
    lemma_slots_ordered(c, p, l);
    lemma_act_layout(c);
    lemma_act_sizes(c);
    lemma_row_bounds(l, c.n_layer as int, c.channel_acts());
    if k > 0 {
        lemma_row_bounds(k - 1, c.n_layer as int, c.channel_acts());
    }
    lemma_span_kept(c, p, off, o, n, old_s, new_s);
}

/// A write behind the layers leaves the activations of a layer.
#[verifier::rlimit(60)]
pub proof fn lemma_layer_in_front<F>(c: Config, l: int, old_s: Seq<F>, new_s: Seq<F>)
    requires
        c.acts_fit(),
        0 <= l < c.n_layer,
        old_s.len() == c.act_total(),
        new_s.len() == c.act_total(),
        forall|i: int| 0 <= i < act_layout(c).residual3.off ==> new_s[i] == old_s[i],
    ensures
        layer_acts(c, new_s, l) == layer_acts(c, old_s, l),
{
    let p = act_slots(c, l);
    lemma_act_slots(c, l);
    lemma_slots_ordered(c, p, l);
    lemma_act_layout(c);
    lemma_act_sizes(c);
    lemma_row_bounds(l, c.n_layer as int, c.channel_acts());
    assert(tensor(new_s, p.ln1 as int, c.channel_acts()) =~= tensor(old_s, p.ln1 as int, c.channel_acts()));
    assert(tensor(new_s, p.ln1_rstd as int, c.tokens()) =~= tensor(old_s, p.ln1_rstd as int, c.tokens()));
    assert(tensor(new_s, p.qkv as int, c.qkv_acts()) =~= tensor(old_s, p.qkv as int, c.qkv_acts()));
    assert(tensor(new_s, p.atty as int, c.channel_acts()) =~= tensor(old_s, p.atty as int, c.channel_acts()));
    assert(tensor(new_s, p.preatt as int, c.att_acts()) =~= tensor(old_s, p.preatt as int, c.att_acts()));
    assert(tensor(new_s, p.att as int, c.att_acts()) =~= tensor(old_s, p.att as int, c.att_acts()));
    assert(tensor(new_s, p.attproj as int, c.channel_acts()) =~= tensor(old_s, p.attproj as int, c.channel_acts()));
    assert(tensor(new_s, p.residual2 as int, c.channel_acts()) =~= tensor(old_s, p.residual2 as int, c.channel_acts()));
    assert(tensor(new_s, p.ln2 as int, c.channel_acts()) =~= tensor(old_s, p.ln2 as int, c.channel_acts()));
    assert(tensor(new_s, p.ln2_rstd as int, c.tokens()) =~= tensor(old_s, p.ln2_rstd as int, c.tokens()));
    assert(tensor(new_s, p.gate as int, c.hidden_acts()) =~= tensor(old_s, p.gate as int, c.hidden_acts()));
    assert(tensor(new_s, p.up as int, c.hidden_acts()) =~= tensor(old_s, p.up as int, c.hidden_acts()));
    assert(tensor(new_s, p.glu as int, c.hidden_acts()) =~= tensor(old_s, p.glu as int, c.hidden_acts()));
    assert(tensor(new_s, p.fcproj as int, c.channel_acts()) =~= tensor(old_s, p.fcproj as int, c.channel_acts()));
}

/// A write behind the layers leaves the residual stream.
pub proof fn lemma_stream_in_front<F>(c: Config, k: int, old_s: Seq<F>, new_s: Seq<F>)
    requires
        c.acts_fit(),
        0 <= k <= c.n_layer,
        old_s.len() == c.act_total(),
        new_s.len() == c.act_total(),
        forall|i: int| 0 <= i < act_layout(c).lnf.off ==> new_s[i] == old_s[i],
    ensures
        stream(c, new_s, k) == stream(c, old_s, k),
{
    lemma_act_layout(c);
    lemma_act_sizes(c);
    if k > 0 {
        lemma_row_bounds(k - 1, c.n_layer as int, c.channel_acts());
    }
    assert(stream(c, new_s, k) =~= stream(c, old_s, k));
}

/// The residual stream behind the last layer lies in front of the final norm.
pub proof fn lemma_last_stream(c: Config)
    requires
        c.acts_fit(),
        0 < c.n_layer,
    ensures
        0 <= (c.n_layer - 1) * c.channel_acts(),
        stream_off(c, c.n_layer as int) == act_layout(c).residual3.off + (c.n_layer - 1)
            * c.channel_acts(),
        stream_off(c, c.n_layer as int) + c.channel_acts() == act_layout(c).lnf.off,
{
    lemma_act_layout(c);
    lemma_act_sizes(c);
    lemma_row_bounds(c.n_layer - 1, c.n_layer as int, c.channel_acts());
}

/// A write to the embedded tokens leaves the activations of a layer.
#[verifier::rlimit(60)]
pub proof fn lemma_layer_behind_encoded<F>(c: Config, l: int, old_s: Seq<F>, new_s: Seq<F>)
    requires
        c.acts_fit(),
        0 <= l < c.n_layer,
        old_s.len() == c.act_total(),
        new_s.len() == c.act_total(),
        forall|i: int| act_layout(c).ln1.off <= i < c.act_total() ==> new_s[i] == old_s[i],
    ensures
        layer_acts(c, new_s, l) == layer_acts(c, old_s, l),
        stream(c, new_s, l + 1) == stream(c, old_s, l + 1),
{
    let p = act_slots(c, l);
    lemma_act_slots(c, l);
    lemma_slots_ordered(c, p, l);
    lemma_act_layout(c);
    lemma_act_sizes(c);
    lemma_row_bounds(l, c.n_layer as int, c.channel_acts());
    assert(tensor(new_s, p.ln1 as int, c.channel_acts()) =~= tensor(old_s, p.ln1 as int, c.channel_acts()));
    assert(tensor(new_s, p.ln1_rstd as int, c.tokens()) =~= tensor(old_s, p.ln1_rstd as int, c.tokens()));
    assert(tensor(new_s, p.qkv as int, c.qkv_acts()) =~= tensor(old_s, p.qkv as int, c.qkv_acts()));
    assert(tensor(new_s, p.atty as int, c.channel_acts()) =~= tensor(old_s, p.atty as int, c.channel_acts()));
    assert(tensor(new_s, p.preatt as int, c.att_acts()) =~= tensor(old_s, p.preatt as int, c.att_acts()));
    assert(tensor(new_s, p.att as int, c.att_acts()) =~= tensor(old_s, p.att as int, c.att_acts()));
    assert(tensor(new_s, p.attproj as int, c.channel_acts()) =~= tensor(old_s, p.attproj as int, c.channel_acts()));
    assert(tensor(new_s, p.residual2 as int, c.channel_acts()) =~= tensor(old_s, p.residual2 as int, c.channel_acts()));
    assert(tensor(new_s, p.ln2 as int, c.channel_acts()) =~= tensor(old_s, p.ln2 as int, c.channel_acts()));
    assert(tensor(new_s, p.ln2_rstd as int, c.tokens()) =~= tensor(old_s, p.ln2_rstd as int, c.tokens()));
    assert(tensor(new_s, p.gate as int, c.hidden_acts()) =~= tensor(old_s, p.gate as int, c.hidden_acts()));
    assert(tensor(new_s, p.up as int, c.hidden_acts()) =~= tensor(old_s, p.up as int, c.hidden_acts()));
    assert(tensor(new_s, p.glu as int, c.hidden_acts()) =~= tensor(old_s, p.glu as int, c.hidden_acts()));
    assert(tensor(new_s, p.fcproj as int, c.channel_acts()) =~= tensor(old_s, p.fcproj as int, c.channel_acts()));
    assert(tensor(new_s, p.out as int, c.channel_acts()) =~= tensor(
        old_s,
        p.out as int,
        c.channel_acts(),
    ));
}

/// A span of parameters that shares no place with the layer at `p` is what it
/// was.
proof fn lemma_param_span_kept<F>(
    c: Config,
    p: ParamSlots,
    o: int,
    n: int,
    old_s: Seq<F>,
    new_s: Seq<F>,
)
    requires
        params_changed(c, p, old_s, new_s),
        0 <= o,
        0 <= n,
        o + n <= old_s.len(),
        apart(o, n, p.ln1w as int, c.n_embd as int),
        apart(o, n, p.qkvw as int, c.qkv_weights()),
        apart(o, n, p.attprojw as int, c.square_weights()),
        apart(o, n, p.ln2w as int, c.n_embd as int),
        apart(o, n, p.w1 as int, c.hidden_weights()),
        apart(o, n, p.w3 as int, c.hidden_weights()),
        apart(o, n, p.w2 as int, c.hidden_weights()),
    ensures
        tensor(new_s, o, n) == tensor(old_s, o, n),
{
    reveal(params_changed);
    assert(tensor(new_s, o, n) =~= tensor(old_s, o, n));
}

/// The parameters of another layer are what they were.
#[verifier::rlimit(40)]
pub proof fn lemma_other_params_kept<F>(
    c: Config,
    p: ParamSlots,
    l: int,
    q: int,
    old_s: Seq<F>,
    new_s: Seq<F>,
)
    requires
        c.params_fit(),
        p.is_for(c, l),
        0 <= l < c.n_layer,
        0 <= q < c.n_layer,
        q != l,
        old_s.len() == c.param_total(),
        params_changed(c, p, old_s, new_s),
    ensures
        layer_params(c, new_s, q) == layer_params(c, old_s, q),
{
    let pl = param_layout(c);
    lemma_param_layout(c);
    lemma_param_sizes(c);
    lemma_two_slots(l, q, c.n_layer as int, c.n_embd as int);
    lemma_two_slots(l, q, c.n_layer as int, c.qkv_weights());
    lemma_two_slots(l, q, c.n_layer as int, c.square_weights());
    lemma_two_slots(l, q, c.n_layer as int, c.hidden_weights());
    lemma_param_span_kept(c, p, pl.ln1w.off + q * c.n_embd, c.n_embd as int, old_s, new_s);
    lemma_param_span_kept(c, p, pl.qkvw.off + q * c.qkv_weights(), c.qkv_weights(), old_s, new_s);
    lemma_param_span_kept(c, p, pl.attprojw.off + q * c.square_weights(), c.square_weights(), old_s, new_s);
    lemma_param_span_kept(c, p, pl.ln2w.off + q * c.n_embd, c.n_embd as int, old_s, new_s);
    lemma_param_span_kept(c, p, pl.w1.off + q * c.hidden_weights(), c.hidden_weights(), old_s, new_s);
    lemma_param_span_kept(c, p, pl.w3.off + q * c.hidden_weights(), c.hidden_weights(), old_s, new_s);
    lemma_param_span_kept(c, p, pl.w2.off + q * c.hidden_weights(), c.hidden_weights(), old_s, new_s);
}

/// Two entries of a tensor do not overlap.
proof fn lemma_two_slots(l: int, q: int, layers: int, n: int)
    requires
        0 <= l < layers,
        0 <= q < layers,
        l != q,
        0 <= n,
    ensures
        0 <= l * n,
        0 <= q * n,
        l * n + n <= layers * n,
        q * n + n <= layers * n,
        l * n + n <= q * n || q * n + n <= l * n,
{
    lemma_row_bounds(l, layers, n);
    lemma_row_bounds(q, layers, n);
    if l < q {
        lemma_rows_apart(l, q, n);
    } else {
        lemma_rows_apart(q, l, n);
    }
}

/// The parameters outside the layers are what they were.
pub proof fn lemma_shared_params_kept<F>(
    c: Config,
    p: ParamSlots,
    l: int,
    old_s: Seq<F>,
    new_s: Seq<F>,
)
    requires
        c.params_fit(),
        p.is_for(c, l),
        0 <= l < c.n_layer,
        old_s.len() == c.param_total(),
        params_changed(c, p, old_s, new_s),
    ensures
        param_layout(c).wte.of(new_s) == param_layout(c).wte.of(old_s),
        param_layout(c).lnfw.of(new_s) == param_layout(c).lnfw.of(old_s),
        param_layout(c).lm_head.of(new_s) == param_layout(c).lm_head.of(old_s),
{
    let pl = param_layout(c);
    lemma_param_layout(c);
    lemma_param_sizes(c);
    lemma_row_bounds(l, c.n_layer as int, c.n_embd as int);
    lemma_row_bounds(l, c.n_layer as int, c.qkv_weights());
    lemma_row_bounds(l, c.n_layer as int, c.square_weights());
    lemma_row_bounds(l, c.n_layer as int, c.hidden_weights());
    lemma_param_span_kept(c, p, pl.wte.off as int, pl.wte.len as int, old_s, new_s);
    lemma_param_span_kept(c, p, pl.lnfw.off as int, pl.lnfw.len as int, old_s, new_s);
    lemma_param_span_kept(c, p, pl.lm_head.off as int, pl.lm_head.len as int, old_s, new_s);
}

/// A write to the stream behind the last layer, or further behind, leaves the
/// activations of a layer.
pub proof fn lemma_layer_in_front_of_last<F>(c: Config, l: int, old_s: Seq<F>, new_s: Seq<F>)
    requires
        c.acts_fit(),
        0 <= l < c.n_layer,
        old_s.len() == c.act_total(),
        new_s.len() == c.act_total(),
        forall|i: int| 0 <= i < stream_off(c, c.n_layer as int) ==> new_s[i] == old_s[i],
    ensures
        layer_acts(c, new_s, l) == layer_acts(c, old_s, l),
{
    lemma_last_stream(c);
    lemma_layer_in_front(c, l, old_s, new_s);
}

/// A write to the stream behind the last layer, or further behind, leaves the
/// residual stream in front of it.
pub proof fn lemma_stream_in_front_of_last<F>(c: Config, k: int, old_s: Seq<F>, new_s: Seq<F>)
    requires
        c.acts_fit(),
        0 <= k < c.n_layer,
        old_s.len() == c.act_total(),
        new_s.len() == c.act_total(),
        forall|i: int| 0 <= i < stream_off(c, c.n_layer as int) ==> new_s[i] == old_s[i],
    ensures
        stream(c, new_s, k) == stream(c, old_s, k),
{
    lemma_act_layout(c);
    lemma_act_sizes(c);
    lemma_last_stream(c);
    if k > 0 {
        lemma_row_bounds(k - 1, c.n_layer as int, c.channel_acts());
        lemma_rows_apart(k - 1, c.n_layer - 1, c.channel_acts());
    }
    assert(stream(c, new_s, k) =~= stream(c, old_s, k));
}

/// A write behind the layers leaves the parameters of a layer.
pub proof fn lemma_params_in_front<F>(c: Config, l: int, old_s: Seq<F>, new_s: Seq<F>)
    requires
        c.params_fit(),
        0 <= l < c.n_layer,
        old_s.len() == c.param_total(),
        new_s.len() == c.param_total(),
        forall|i: int| 0 <= i < param_layout(c).lnfw.off ==> new_s[i] == old_s[i],
    ensures
        layer_params(c, new_s, l) == layer_params(c, old_s, l),
{
    lemma_param_layout(c);
    lemma_param_sizes(c);
    let pl = param_layout(c);
    let n = c.n_layer as int;
    lemma_row_bounds(l, n, c.n_embd as int);
    lemma_row_bounds(l, n, c.qkv_weights());
    lemma_row_bounds(l, n, c.square_weights());
    lemma_row_bounds(l, n, c.hidden_weights());
    assert(slot(new_s, pl.ln1w.off, l, c.n_embd as int) =~= slot(old_s, pl.ln1w.off, l, c.n_embd as int));
    assert(slot(new_s, pl.qkvw.off, l, c.qkv_weights()) =~= slot(old_s, pl.qkvw.off, l, c.qkv_weights()));
    assert(slot(new_s, pl.attprojw.off, l, c.square_weights()) =~= slot(old_s, pl.attprojw.off, l, c.square_weights()));
    assert(slot(new_s, pl.ln2w.off, l, c.n_embd as int) =~= slot(old_s, pl.ln2w.off, l, c.n_embd as int));
    assert(slot(new_s, pl.w1.off, l, c.hidden_weights()) =~= slot(old_s, pl.w1.off, l, c.hidden_weights()));
    assert(slot(new_s, pl.w3.off, l, c.hidden_weights()) =~= slot(old_s, pl.w3.off, l, c.hidden_weights()));
    assert(slot(new_s, pl.w2.off, l, c.hidden_weights()) =~= slot(old_s, pl.w2.off, l, c.hidden_weights()));
}

/// A write to the embedding leaves the parameters of a layer.
pub proof fn lemma_params_behind_wte<F>(c: Config, l: int, old_s: Seq<F>, new_s: Seq<F>)
    requires
        c.params_fit(),
        0 <= l < c.n_layer,
        old_s.len() == c.param_total(),
        new_s.len() == c.param_total(),
        forall|i: int| param_layout(c).ln1w.off <= i < c.param_total() ==> new_s[i] == old_s[i],
    ensures
        layer_params(c, new_s, l) == layer_params(c, old_s, l),
{
    lemma_param_layout(c);
    lemma_param_sizes(c);
    let pl = param_layout(c);
    let n = c.n_layer as int;
    lemma_row_bounds(l, n, c.n_embd as int);
    lemma_row_bounds(l, n, c.qkv_weights());
    lemma_row_bounds(l, n, c.square_weights());
    lemma_row_bounds(l, n, c.hidden_weights());
    assert(slot(new_s, pl.ln1w.off, l, c.n_embd as int) =~= slot(old_s, pl.ln1w.off, l, c.n_embd as int));
    assert(slot(new_s, pl.qkvw.off, l, c.qkv_weights()) =~= slot(old_s, pl.qkvw.off, l, c.qkv_weights()));
    assert(slot(new_s, pl.attprojw.off, l, c.square_weights()) =~= slot(old_s, pl.attprojw.off, l, c.square_weights()));
    assert(slot(new_s, pl.ln2w.off, l, c.n_embd as int) =~= slot(old_s, pl.ln2w.off, l, c.n_embd as int));
    assert(slot(new_s, pl.w1.off, l, c.hidden_weights()) =~= slot(old_s, pl.w1.off, l, c.hidden_weights()));
    assert(slot(new_s, pl.w3.off, l, c.hidden_weights()) =~= slot(old_s, pl.w3.off, l, c.hidden_weights()));
    assert(slot(new_s, pl.w2.off, l, c.hidden_weights()) =~= slot(old_s, pl.w2.off, l, c.hidden_weights()));
}

} // verus!
