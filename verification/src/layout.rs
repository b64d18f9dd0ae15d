//! Hyperparameters, and where every tensor lies in the flat buffers.
//!
//! Dimensions: `B` batch, `T` time, `C` channels (`n_embd`), `NH` heads, `V`
//! vocabulary, `L` layers, `H` the hidden width of the feed-forward part.

use vstd::prelude::*;

use crate::arena::tensor;

verus! {

/// Model hyperparameters.
#[derive(Debug, Clone, Copy)]
pub struct Config {
    pub n_layer: usize,
    pub n_head: usize,
    pub n_embd: usize,
    pub block_size: usize,
    pub vocab_size: usize,
    pub batch_size: usize,
}

/// The hidden width that goes with `ch` channels: `8/3 * ch`, rounded down.
pub open spec fn hidden_width(ch: int) -> int {
    8 * ch / 3
}

impl Config {
    /// Tokens in one batch.
    pub open spec fn tokens(self) -> int {
        self.batch_size * self.block_size
    }

    /// Hidden width of the feed-forward part.
    pub open spec fn hidden(self) -> int {
        hidden_width(self.n_embd as int)
    }

    /// Channels of one head.
    pub open spec fn head_size(self) -> usize {
        self.n_embd / self.n_head
    }

    /// Values of a `(V, C)` tensor.
    pub open spec fn vocab_values(self) -> int {
        self.vocab_size * self.n_embd
    }

    /// Values of a `(3C, C)` tensor.
    pub open spec fn qkv_weights(self) -> int {
        (3 * self.n_embd) * self.n_embd
    }

    /// Values of a `(C, C)` tensor.
    pub open spec fn square_weights(self) -> int {
        self.n_embd * self.n_embd
    }

    /// Values of an `(H, C)` or `(C, H)` tensor.
    pub open spec fn hidden_weights(self) -> int {
        self.hidden() * self.n_embd
    }

    /// Values of a `(B, T, C)` tensor.
    pub open spec fn channel_acts(self) -> int {
        self.tokens() * self.n_embd
    }

    /// Values of a `(B, T, 3C)` tensor.
    pub open spec fn qkv_acts(self) -> int {
        self.tokens() * (3 * self.n_embd)
    }

    /// Values of an `(NH, T, T)` tensor.
    pub open spec fn head_acts(self) -> int {
        (self.n_head * self.block_size) * self.block_size
    }

    /// Values of a `(B, NH, T, T)` tensor.
    pub open spec fn att_acts(self) -> int {
        self.batch_size * self.head_acts()
    }

    /// Values of a `(B, T, H)` tensor.
    pub open spec fn hidden_acts(self) -> int {
        self.tokens() * self.hidden()
    }

    /// Values of a `(B, T, V)` tensor.
    pub open spec fn vocab_acts(self) -> int {
        self.tokens() * self.vocab_size
    }

    /// Parameters in all.
    pub open spec fn param_total(self) -> int {
        let l = self.n_layer as int;
        self.vocab_values() + l * self.n_embd + l * self.qkv_weights() + l * self.square_weights()
            + l * self.n_embd + l * self.hidden_weights() + l * self.hidden_weights() + l
            * self.hidden_weights() + self.n_embd + self.vocab_values()
    }

    /// Activations in all.
    pub open spec fn act_total(self) -> int {
        let l = self.n_layer as int;
        self.channel_acts() + l * self.channel_acts() + l * self.tokens() + l * self.qkv_acts() + l
            * self.channel_acts() + l * self.att_acts() + l * self.att_acts() + l
            * self.channel_acts() + l * self.channel_acts() + l * self.channel_acts() + l
            * self.tokens() + l * self.hidden_acts() + l * self.hidden_acts() + l
            * self.hidden_acts() + l * self.channel_acts() + l * self.channel_acts()
            + self.channel_acts() + self.tokens() + self.vocab_acts() + self.vocab_acts()
            + self.tokens()
    }

    /// Dropout keep factors in all.
    pub open spec fn mask_total(self) -> int {
        let l = self.n_layer as int;
        self.channel_acts() + l * self.att_acts() + l * self.channel_acts() + l
            * self.channel_acts()
    }

    /// The parameter buffer, and each tensor of one layer in it, can be indexed.
    pub open spec fn params_fit(self) -> bool {
        &&& self.hidden() <= usize::MAX
        &&& 3 * self.n_embd <= usize::MAX
        &&& self.qkv_weights() <= usize::MAX
        &&& self.hidden_weights() <= usize::MAX
        &&& self.square_weights() <= usize::MAX
        &&& self.param_total() <= usize::MAX
    }

    /// The activation arena, and each tensor of one layer in it, can be indexed.
    pub open spec fn acts_fit(self) -> bool {
        &&& self.hidden() <= usize::MAX
        &&& 3 * self.n_embd <= usize::MAX
        &&& self.qkv_acts() <= usize::MAX
        &&& self.block_size * (3 * self.n_embd) <= usize::MAX
        &&& self.n_head * self.block_size <= usize::MAX
        &&& self.head_acts() <= usize::MAX
        &&& self.att_acts() <= usize::MAX
        &&& self.hidden_acts() <= usize::MAX
        &&& self.act_total() <= usize::MAX
    }

    /// The mask buffer, and each tensor of one layer in it, can be indexed.
    pub open spec fn masks_fit(self) -> bool {
        &&& self.n_head * self.block_size <= usize::MAX
        &&& self.head_acts() <= usize::MAX
        &&& self.att_acts() <= usize::MAX
        &&& self.mask_total() <= usize::MAX
    }

    /// All three buffers can be indexed.
    pub open spec fn fits(self) -> bool {
        self.params_fit() && self.acts_fit() && self.masks_fit()
    }

    /// The forward and backward passes are defined for this shape.
    pub open spec fn runs(self) -> bool {
        &&& self.fits()
        &&& 0 < self.n_layer
        &&& 0 < self.n_head
        &&& 0 < self.n_embd
        &&& 0 < self.block_size
        &&& 0 < self.vocab_size
        &&& self.n_embd % self.n_head == 0
        &&& self.head_size() % 2 == 0
    }
}

/// A span `(offset, len)` of a flat buffer.
#[derive(Debug, Clone, Copy)]
pub struct Off {
    pub off: usize,
    pub len: usize,
}

impl Off {
    /// The place behind the span.
    pub open spec fn end(self) -> int {
        self.off + self.len
    }

    /// The span as a range of places.
    pub fn range(&self) -> (r: core::ops::Range<usize>)
        requires
            self.end() <= usize::MAX,
        ensures
            r.start == self.off,
            r.end == self.end(),
    {
        self.off..self.off + self.len
    }

    /// The values in the span.
    pub open spec fn of<T>(self, s: Seq<T>) -> Seq<T> {
        tensor(s, self.off as int, self.len as int)
    }

    /// The span of `len` places from `off` on.
    pub open spec fn at(off: int, len: int) -> Off {
        Off { off: off as usize, len: len as usize }
    }

    /// The span has `len` places and starts at `off`.
    pub open spec fn is(self, off: int, len: int) -> bool {
        self.off == off && self.len == len
    }
}

/// The SwiGLU hidden width: `int(8/3 * ch)`, chosen so that the gated
/// feed-forward part has about as many parameters as one of width `4 * ch`
/// without a gate.
pub fn swiglu_hidden(ch: usize) -> (h: usize)
    ensures
        h == if hidden_width(ch as int) <= usize::MAX {
            hidden_width(ch as int)
        } else {
            usize::MAX as int
        },
{
    let wide: u128 = 8 * (ch as u128) / 3;
    if wide <= usize::MAX as u128 {
        wide as usize
    } else {
        usize::MAX
    }
}

/// Hands out the spans of a buffer from its front on.
struct Cursor {
    at: usize,
}

impl Cursor {
    fn take(&mut self, n: usize) -> (o: Off)
        requires
            old(self).at + n <= usize::MAX,
        ensures
            o.is(old(self).at as int, n as int),
            final(self).at == old(self).at + n,
    {
        let off = self.at;
        self.at = off + n;
        Off { off, len: n }
    }
}

/// Where each parameter tensor lies.
#[derive(Debug, Clone, Copy)]
pub struct ParamLayout {
    /// `(V, C)` token embedding.
    pub wte: Off,
    /// `(L, C)` norm weight before attention.
    pub ln1w: Off,
    /// `(L, 3C, C)` query, key and value projection.
    pub qkvw: Off,
    /// `(L, C, C)` attention output projection.
    pub attprojw: Off,
    /// `(L, C)` norm weight before the feed-forward part.
    pub ln2w: Off,
    /// `(L, H, C)` gate projection.
    pub w1: Off,
    /// `(L, H, C)` up projection.
    pub w3: Off,
    /// `(L, C, H)` down projection.
    pub w2: Off,
    /// `(C)` final norm weight.
    pub lnfw: Off,
    /// `(V, C)` output projection.
    pub lm_head: Off,
    pub total: usize,
}

impl ParamLayout {
    /// The tensors lie one behind the other, in the order of the fields and
    /// with the sizes that `c` gives them.
    pub open spec fn is_for(self, c: Config) -> bool {
        let l = c.n_layer as int;
        &&& self.wte.is(0, c.vocab_values())
        &&& self.ln1w.is(self.wte.end(), l * c.n_embd)
        &&& self.qkvw.is(self.ln1w.end(), l * c.qkv_weights())
        &&& self.attprojw.is(self.qkvw.end(), l * c.square_weights())
        &&& self.ln2w.is(self.attprojw.end(), l * c.n_embd)
        &&& self.w1.is(self.ln2w.end(), l * c.hidden_weights())
        &&& self.w3.is(self.w1.end(), l * c.hidden_weights())
        &&& self.w2.is(self.w3.end(), l * c.hidden_weights())
        &&& self.lnfw.is(self.w2.end(), c.n_embd as int)
        &&& self.lm_head.is(self.lnfw.end(), c.vocab_values())
        &&& self.total == self.lm_head.end()
        &&& self.total == c.param_total()
    }

    /// The layout for `c`.
    pub fn new(c: &Config) -> (res: Self)
        requires
            c.params_fit(),
        ensures
            res == param_layout(*c),
            res.is_for(*c),
    {
        proof {
            lemma_param_sizes(*c);
        }
        let l = c.n_layer;
        let v = c.vocab_size;
        let ch = c.n_embd;
        let h = swiglu_hidden(ch);
        let mut at = Cursor { at: 0 };
        let wte = at.take(v * ch);
        let ln1w = at.take(l * ch);
        let qkvw = at.take(l * ((3 * ch) * ch));
        let attprojw = at.take(l * (ch * ch));
        let ln2w = at.take(l * ch);
        let w1 = at.take(l * (h * ch));
        let w3 = at.take(l * (h * ch));
        let w2 = at.take(l * (h * ch));
        let lnfw = at.take(ch);
        let lm_head = at.take(v * ch);
        let res = ParamLayout {
            wte,
            ln1w,
            qkvw,
            attprojw,
            ln2w,
            w1,
            w3,
            w2,
            lnfw,
            lm_head,
            total: at.at,
        };
        proof {
            lemma_param_layout(*c);
            lemma_param_layout_unique(*c, res, param_layout(*c));
        }
        res
    }
}

/// The layout for `c`.
#[verifier::opaque]
pub open spec fn param_layout(c: Config) -> ParamLayout {
    let l = c.n_layer as int;
    let wte = Off::at(0, c.vocab_values());
    let ln1w = Off::at(wte.end(), l * c.n_embd);
    let qkvw = Off::at(ln1w.end(), l * c.qkv_weights());
    let attprojw = Off::at(qkvw.end(), l * c.square_weights());
    let ln2w = Off::at(attprojw.end(), l * c.n_embd);
    let w1 = Off::at(ln2w.end(), l * c.hidden_weights());
    let w3 = Off::at(w1.end(), l * c.hidden_weights());
    let w2 = Off::at(w3.end(), l * c.hidden_weights());
    let lnfw = Off::at(w2.end(), c.n_embd as int);
    let lm_head = Off::at(lnfw.end(), c.vocab_values());
    ParamLayout { wte, ln1w, qkvw, attprojw, ln2w, w1, w3, w2, lnfw, lm_head, total: lm_head.end() as usize }
}

/// There is one layout for `c`.
proof fn lemma_param_layout_unique(c: Config, a: ParamLayout, b: ParamLayout)
    requires
        a.is_for(c),
        b.is_for(c),
    ensures
        a == b,
{
}

/// The spans of the layout are not cut off.
pub proof fn lemma_param_layout(c: Config)
    requires
        c.params_fit(),
    ensures
        param_layout(c).is_for(c),
{
    reveal(param_layout);
    lemma_param_sizes(c);
}

/// A product of two naturals is a natural.
pub proof fn lemma_nonneg(x: int, y: int)
    requires
        0 <= x,
        0 <= y,
    ensures
        0 <= x * y,
{
    assert(0 <= x * y) by (nonlinear_arith)
        requires
            0 <= x,
            0 <= y,
    ;
}

/// No parameter tensor has a negative size.
pub proof fn lemma_param_sizes(c: Config)
    ensures
        0 <= c.hidden(),
        0 <= c.vocab_values(),
        0 <= c.qkv_weights(),
        0 <= c.square_weights(),
        0 <= c.hidden_weights(),
        0 <= c.n_layer * c.n_embd,
        0 <= c.n_layer * c.qkv_weights(),
        0 <= c.n_layer * c.square_weights(),
        0 <= c.n_layer * c.hidden_weights(),
{
    let l = c.n_layer as int;
    let ch = c.n_embd as int;
    lemma_nonneg(c.vocab_size as int, ch);
    lemma_nonneg(3 * ch, ch);
    lemma_nonneg(ch, ch);
    lemma_nonneg(c.hidden(), ch);
    lemma_nonneg(l, ch);
    lemma_nonneg(l, c.qkv_weights());
    lemma_nonneg(l, c.square_weights());
    lemma_nonneg(l, c.hidden_weights());
}

/// No activation tensor has a negative size.
pub proof fn lemma_act_sizes(c: Config)
    ensures
        0 <= c.hidden(),
        0 <= c.tokens(),
        0 <= c.channel_acts(),
        0 <= c.qkv_acts(),
        0 <= c.head_acts(),
        0 <= c.att_acts(),
        0 <= c.hidden_acts(),
        0 <= c.vocab_acts(),
        0 <= c.n_layer * c.tokens(),
        0 <= c.n_layer * c.channel_acts(),
        0 <= c.n_layer * c.qkv_acts(),
        0 <= c.n_layer * c.att_acts(),
        0 <= c.n_layer * c.hidden_acts(),
{
    let l = c.n_layer as int;
    let bt = c.tokens();
    lemma_nonneg(c.batch_size as int, c.block_size as int);
    lemma_nonneg(bt, c.n_embd as int);
    lemma_nonneg(bt, 3 * c.n_embd);
    lemma_nonneg(c.n_head as int, c.block_size as int);
    lemma_nonneg(c.n_head * c.block_size, c.block_size as int);
    lemma_nonneg(c.batch_size as int, c.head_acts());
    lemma_nonneg(bt, c.hidden());
    lemma_nonneg(bt, c.vocab_size as int);
    lemma_nonneg(l, bt);
    lemma_nonneg(l, c.channel_acts());
    lemma_nonneg(l, c.qkv_acts());
    lemma_nonneg(l, c.att_acts());
    lemma_nonneg(l, c.hidden_acts());
}

/// Where each activation tensor lies.
#[derive(Debug, Clone, Copy)]
pub struct ActLayout {
    /// `(B, T, C)` embedded tokens.
    pub encoded: Off,
    /// `(L, B, T, C)` norm before attention.
    pub ln1: Off,
    /// `(L, B, T)` its reciprocal root mean squares.
    pub ln1_rstd: Off,
    /// `(L, B, T, 3C)` queries, keys and values.
    pub qkv: Off,
    /// `(L, B, T, C)` attention output.
    pub atty: Off,
    /// `(L, B, NH, T, T)` attention scores.
    pub preatt: Off,
    /// `(L, B, NH, T, T)` attention weights.
    pub att: Off,
    /// `(L, B, T, C)` projected attention output.
    pub attproj: Off,
    /// `(L, B, T, C)` residual stream behind attention.
    pub residual2: Off,
    /// `(L, B, T, C)` norm before the feed-forward part.
    pub ln2: Off,
    /// `(L, B, T)` its reciprocal root mean squares.
    pub ln2_rstd: Off,
    /// `(L, B, T, H)` gate.
    pub gate: Off,
    /// `(L, B, T, H)` up projection.
    pub up: Off,
    /// `(L, B, T, H)` gated product.
    pub glu: Off,
    /// `(L, B, T, C)` down projection.
    pub fcproj: Off,
    /// `(L, B, T, C)` residual stream behind the layer.
    pub residual3: Off,
    /// `(B, T, C)` final norm.
    pub lnf: Off,
    /// `(B, T)` its reciprocal root mean squares.
    pub lnf_rstd: Off,
    /// `(B, T, V)` logits.
    pub logits: Off,
    /// `(B, T, V)` probabilities.
    pub probs: Off,
    /// `(B, T)` losses.
    pub losses: Off,
    pub total: usize,
}

impl ActLayout {
    /// The tensors lie one behind the other, in the order of the fields and
    /// with the sizes that `c` gives them.
    pub open spec fn is_for(self, c: Config) -> bool {
        let l = c.n_layer as int;
        &&& self.encoded.is(0, c.channel_acts())
        &&& self.ln1.is(self.encoded.end(), l * c.channel_acts())
        &&& self.ln1_rstd.is(self.ln1.end(), l * c.tokens())
        &&& self.qkv.is(self.ln1_rstd.end(), l * c.qkv_acts())
        &&& self.atty.is(self.qkv.end(), l * c.channel_acts())
        &&& self.preatt.is(self.atty.end(), l * c.att_acts())
        &&& self.att.is(self.preatt.end(), l * c.att_acts())
        &&& self.attproj.is(self.att.end(), l * c.channel_acts())
        &&& self.residual2.is(self.attproj.end(), l * c.channel_acts())
        &&& self.ln2.is(self.residual2.end(), l * c.channel_acts())
        &&& self.ln2_rstd.is(self.ln2.end(), l * c.tokens())
        &&& self.gate.is(self.ln2_rstd.end(), l * c.hidden_acts())
        &&& self.up.is(self.gate.end(), l * c.hidden_acts())
        &&& self.glu.is(self.up.end(), l * c.hidden_acts())
        &&& self.fcproj.is(self.glu.end(), l * c.channel_acts())
        &&& self.residual3.is(self.fcproj.end(), l * c.channel_acts())
        &&& self.lnf.is(self.residual3.end(), c.channel_acts())
        &&& self.lnf_rstd.is(self.lnf.end(), c.tokens())
        &&& self.logits.is(self.lnf_rstd.end(), c.vocab_acts())
        &&& self.probs.is(self.logits.end(), c.vocab_acts())
        &&& self.losses.is(self.probs.end(), c.tokens())
        &&& self.total == self.losses.end()
        &&& self.total == c.act_total()
    }

    /// The layout for `c`.
    pub fn new(c: &Config) -> (res: Self)
        requires
            c.acts_fit(),
        ensures
            res == act_layout(*c),
            res.is_for(*c),
    {
        proof {
            lemma_act_sizes(*c);
        }
        let l = c.n_layer;
        let ch = c.n_embd;
        let v = c.vocab_size;
        let b = c.batch_size;
        let t = c.block_size;
        let bt = b * t;
        let h = swiglu_hidden(ch);
        let att_size = b * ((c.n_head * t) * t);
        let mut at = Cursor { at: 0 };
        let encoded = at.take(bt * ch);
        let ln1 = at.take(l * (bt * ch));
        let ln1_rstd = at.take(l * bt);
        let qkv = at.take(l * (bt * (3 * ch)));
        let atty = at.take(l * (bt * ch));
        let preatt = at.take(l * att_size);
        let att = at.take(l * att_size);
        let attproj = at.take(l * (bt * ch));
        let residual2 = at.take(l * (bt * ch));
        let ln2 = at.take(l * (bt * ch));
        let ln2_rstd = at.take(l * bt);
        let gate = at.take(l * (bt * h));
        let up = at.take(l * (bt * h));
        let glu = at.take(l * (bt * h));
        let fcproj = at.take(l * (bt * ch));
        let residual3 = at.take(l * (bt * ch));
        let lnf = at.take(bt * ch);
        let lnf_rstd = at.take(bt);
        let logits = at.take(bt * v);
        let probs = at.take(bt * v);
        let losses = at.take(bt);
        let res = ActLayout {
            encoded,
            ln1,
            ln1_rstd,
            qkv,
            atty,
            preatt,
            att,
            attproj,
            residual2,
            ln2,
            ln2_rstd,
            gate,
            up,
            glu,
            fcproj,
            residual3,
            lnf,
            lnf_rstd,
            logits,
            probs,
            losses,
            total: at.at,
        };
        proof {
            lemma_act_layout(*c);
            lemma_act_layout_unique(*c, res, act_layout(*c));
        }
        res
    }
}

/// The layout for `c`.
#[verifier::opaque]
pub open spec fn act_layout(c: Config) -> ActLayout {
    let l = c.n_layer as int;
    let encoded = Off::at(0, c.channel_acts());
    let ln1 = Off::at(encoded.end(), l * c.channel_acts());
    let ln1_rstd = Off::at(ln1.end(), l * c.tokens());
    let qkv = Off::at(ln1_rstd.end(), l * c.qkv_acts());
    let atty = Off::at(qkv.end(), l * c.channel_acts());
    let preatt = Off::at(atty.end(), l * c.att_acts());
    let att = Off::at(preatt.end(), l * c.att_acts());
    let attproj = Off::at(att.end(), l * c.channel_acts());
    let residual2 = Off::at(attproj.end(), l * c.channel_acts());
    let ln2 = Off::at(residual2.end(), l * c.channel_acts());
    let ln2_rstd = Off::at(ln2.end(), l * c.tokens());
    let gate = Off::at(ln2_rstd.end(), l * c.hidden_acts());
    let up = Off::at(gate.end(), l * c.hidden_acts());
    let glu = Off::at(up.end(), l * c.hidden_acts());
    let fcproj = Off::at(glu.end(), l * c.channel_acts());
    let residual3 = Off::at(fcproj.end(), l * c.channel_acts());
    let lnf = Off::at(residual3.end(), c.channel_acts());
    let lnf_rstd = Off::at(lnf.end(), c.tokens());
    let logits = Off::at(lnf_rstd.end(), c.vocab_acts());
    let probs = Off::at(logits.end(), c.vocab_acts());
    let losses = Off::at(probs.end(), c.tokens());
    ActLayout { encoded, ln1, ln1_rstd, qkv, atty, preatt, att, attproj, residual2, ln2, ln2_rstd, gate, up, glu, fcproj, residual3, lnf, lnf_rstd, logits, probs, losses, total: losses.end() as usize }
}

/// There is one layout for `c`.
proof fn lemma_act_layout_unique(c: Config, a: ActLayout, b: ActLayout)
    requires
        a.is_for(c),
        b.is_for(c),
    ensures
        a == b,
{
}

/// The spans of the layout are not cut off.
pub proof fn lemma_act_layout(c: Config)
    requires
        c.acts_fit(),
    ensures
        act_layout(c).is_for(c),
{
    reveal(act_layout);
    lemma_act_sizes(c);
}

/// Where each dropout mask lies. The masks have a buffer of their own; each
/// entry is the factor by which one value is kept.
#[derive(Debug, Clone, Copy)]
pub struct MaskLayout {
    /// `(B, T, C)` on the embedded tokens.
    pub encoded: Off,
    /// `(L, B, NH, T, T)` on the attention weights.
    pub att: Off,
    /// `(L, B, T, C)` on the projected attention output.
    pub attproj: Off,
    /// `(L, B, T, C)` on the output of the feed-forward part.
    pub fcproj: Off,
    pub total: usize,
}

impl MaskLayout {
    /// The masks lie one behind the other, in the order of the fields and with
    /// the sizes that `c` gives them.
    pub open spec fn is_for(self, c: Config) -> bool {
        let l = c.n_layer as int;
        &&& self.encoded.is(0, c.channel_acts())
        &&& self.att.is(self.encoded.end(), l * c.att_acts())
        &&& self.attproj.is(self.att.end(), l * c.channel_acts())
        &&& self.fcproj.is(self.attproj.end(), l * c.channel_acts())
        &&& self.total == self.fcproj.end()
        &&& self.total == c.mask_total()
    }

    /// The layout for `c`.
    pub fn new(c: &Config) -> (res: Self)
        requires
            c.masks_fit(),
        ensures
            res == mask_layout(*c),
            res.is_for(*c),
    {
        proof {
            lemma_act_sizes(*c);
        }
        let l = c.n_layer;
        let ch = c.n_embd;
        let b = c.batch_size;
        let t = c.block_size;
        let att_size = b * ((c.n_head * t) * t);
        let mut at = Cursor { at: 0 };
        proof {
            lemma_tokens_fit(*c);
        }
        let size = if ch == 0 { 0 } else { (b * t) * ch };
        let encoded = at.take(size);
        let att = at.take(l * att_size);
        let attproj = at.take(l * size);
        let fcproj = at.take(l * size);
        let res = MaskLayout { encoded, att, attproj, fcproj, total: at.at };
        proof {
            lemma_mask_layout(*c);
            lemma_mask_layout_unique(*c, res, mask_layout(*c));
        }
        res
    }
}

/// The layout for `c`.
#[verifier::opaque]
pub open spec fn mask_layout(c: Config) -> MaskLayout {
    let l = c.n_layer as int;
    let encoded = Off::at(0, c.channel_acts());
    let att = Off::at(encoded.end(), l * c.att_acts());
    let attproj = Off::at(att.end(), l * c.channel_acts());
    let fcproj = Off::at(attproj.end(), l * c.channel_acts());
    MaskLayout { encoded, att, attproj, fcproj, total: fcproj.end() as usize }
}

/// There is one layout for `c`.
proof fn lemma_mask_layout_unique(c: Config, a: MaskLayout, b: MaskLayout)
    requires
        a.is_for(c),
        b.is_for(c),
    ensures
        a == b,
{
}

/// The spans of the layout are not cut off.
pub proof fn lemma_mask_layout(c: Config)
    requires
        c.masks_fit(),
    ensures
        mask_layout(c).is_for(c),
{
    reveal(mask_layout);
    lemma_act_sizes(c);
}

/// With at least one channel there are no more tokens than channel values.
proof fn lemma_tokens_fit(c: Config)
    ensures
        c.n_embd > 0 ==> c.tokens() <= c.channel_acts(),
        c.n_embd == 0 ==> c.channel_acts() == 0,
{
    lemma_nonneg(c.batch_size as int, c.block_size as int);
    let bt = c.tokens();
    let ch = c.n_embd as int;
    if ch > 0 {
        assert(bt <= bt * ch) by (nonlinear_arith)
            requires
                0 <= bt,
                1 <= ch,
        ;
    } else {
        assert(bt * 0 == 0);
    }
}

/// The parameters do not depend on the batch size nor on the block size: models
/// that differ in these alone share their parameters.
pub proof fn lemma_params_shape_free(c: Config, d: Config)
    requires
        c.params_fit(),
        c.n_layer == d.n_layer,
        c.n_embd == d.n_embd,
        c.vocab_size == d.vocab_size,
    ensures
        d.params_fit(),
        d.param_total() == c.param_total(),
        param_layout(d) == param_layout(c),
{
    lemma_param_layout(c);
    lemma_param_layout(d);
    lemma_param_layout_unique(c, param_layout(c), param_layout(d));
}

/// The hidden width is eight thirds of the channels, rounded down.
pub proof fn lemma_hidden_width(ch: int)
    requires
        0 <= ch,
    ensures
        3 * hidden_width(ch) <= 8 * ch < 3 * hidden_width(ch) + 3,
{
}

/// Where each parameter tensor starts, and how many values it has: the token
/// embedding, the norms in front of the attention, the projections to queries,
/// keys and values, the output projections, the norms in front of the
/// feed-forward part, its three matrices, the last norm and the output
/// projection to the vocabulary.
pub proof fn lemma_param_places(c: Config)
    requires
        c.params_fit(),
    ensures
        ({
            let pl = param_layout(c);
            let (l, v, ch) = (c.n_layer as int, c.vocab_size as int, c.n_embd as int);
            let h = 8 * ch / 3;
            &&& pl.wte.off == 0 && pl.wte.len == v * ch
            &&& pl.ln1w.off == v * ch && pl.ln1w.len == l * ch
            &&& pl.qkvw.off == pl.ln1w.off + l * ch && pl.qkvw.len == l * ((3 * ch) * ch)
            &&& pl.attprojw.off == pl.qkvw.off + l * ((3 * ch) * ch) && pl.attprojw.len == l * (ch
                * ch)
            &&& pl.ln2w.off == pl.attprojw.off + l * (ch * ch) && pl.ln2w.len == l * ch
            &&& pl.w1.off == pl.ln2w.off + l * ch && pl.w1.len == l * (h * ch)
            &&& pl.w3.off == pl.w1.off + l * (h * ch) && pl.w3.len == l * (h * ch)
            &&& pl.w2.off == pl.w3.off + l * (h * ch) && pl.w2.len == l * (h * ch)
            &&& pl.lnfw.off == pl.w2.off + l * (h * ch) && pl.lnfw.len == ch
            &&& pl.lm_head.off == pl.lnfw.off + ch && pl.lm_head.len == v * ch
            &&& pl.total == pl.lm_head.off + v * ch
        }),
{
    lemma_param_layout(c);
}

} // verus!
