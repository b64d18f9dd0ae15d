//! The forward pass as a function: where the arithmetic gives one result for
//! each operation, the logits of a token follow from the tokens up to it in its
//! row of the batch, and from nothing else.

use vstd::prelude::*;

use crate::arena::{lemma_row_bounds, lemma_slot, lemma_unslot, row};
use crate::layout::{
    act_layout, lemma_act_sizes, lemma_nonneg, lemma_params_shape_free, param_layout, Config,
};
use crate::model::forward::{
    batch_ids, dropped_is, encoded_mask, forward_is, layer_is, projected_is, scored_is,
};
use crate::model::layer::{
    layer_acts, layer_masks, layer_params, lemma_shapes, stream, LayerActs, LayerMasks, LayerParams,
};
use crate::model::unique::{
    lemma_attends_unique, lemma_linear_row_unique, lemma_losses_unique, lemma_mean_loss_unique,
    lemma_mixes_unique, lemma_nested_row, lemma_rmsnorm_row_unique, lemma_rope_row_unique,
    lemma_rows_join, lemma_softmax_unique, single_valued,
};
use crate::ops::attention::{
    attends_is, attention_batch_is, attention_is, attention_scaled_is, head_row,
    lemma_attention_causal, mask_batch, mask_row, mixes_is, out_head, packed, scale_is,
};
use crate::ops::embed::embedding_is;
use crate::ops::linear::{linear_is, linear_row_is};
use crate::ops::norm::{rmsnorm_is, rmsnorm_row_is};
use crate::ops::pointwise::{sums_are, swiglu_at, swiglu_is};
use crate::ops::rope::{rope_is, rope_row_is};
use crate::scalar::{product_is, sum_is, Scalar};

verus! {

/// Tokens of one batch, each with a token of another batch. `first` and `second`
/// are the sizes of the batches.
pub struct Pairing {
    pub at: spec_fn(int) -> Option<int>,
    pub first: int,
    pub second: int,
}

impl Pairing {
    /// Token `k` of the first batch has a partner.
    pub open spec fn has(self, k: int) -> bool {
        0 <= k < self.first && (self.at)(k) is Some
    }

    /// The partner of token `k`.
    pub open spec fn to(self, k: int) -> int {
        (self.at)(k)->0
    }

    /// Partners stand at the same position of their rows of `t`, and with a
    /// token all tokens in front of it in its row have their partners in front
    /// of its partner.
    pub open spec fn follows_rows(self, t: int) -> bool {
        &&& forall|k: int| #[trigger]
            self.has(k) ==> 0 <= self.to(k) < self.second && self.to(k) % t == k % t
        &&& forall|i: int, k: int|
            0 <= i <= k && i / t == k / t && #[trigger] self.has(k) ==> #[trigger] self.has(i)
                && self.to(i) == self.to(k) - (k - i)
    }

    /// Without masks nothing is asked; with masks, that they are the same and
    /// every partner is the token itself.
    pub open spec fn fits_masks<F>(self, m1: Option<Seq<F>>, m2: Option<Seq<F>>) -> bool {
        &&& m1 == m2
        &&& m1 is Some ==> forall|k: int| #[trigger] self.has(k) ==> self.to(k) == k
    }
}

/// The rows of partners agree.
pub open spec fn same_on<T>(q: Pairing, c: int, x: Seq<T>, y: Seq<T>) -> bool {
    &&& x.len() == q.first * c
    &&& y.len() == q.second * c
    &&& forall|k: int| #[trigger] q.has(k) ==> row(x, k, c) == row(y, q.to(k), c)
}

proof fn lemma_linear_same<F: Scalar>(
    q: Pairing,
    t: int,
    c: int,
    oc: int,
    w: Seq<F>,
    x1: Seq<F>,
    x2: Seq<F>,
    y1: Seq<F>,
    y2: Seq<F>,
)
    requires
        single_valued::<F>(),
        q.follows_rows(t),
        same_on(q, c, x1, x2),
        linear_is(x1, w, None, q.first, c, oc, y1),
        linear_is(x2, w, None, q.second, c, oc, y2),
    ensures
        same_on(q, oc, y1, y2),
{
    reveal(linear_is);
    assert forall|k: int| #[trigger] q.has(k) implies row(y1, k, oc) == row(
        y2,
        q.to(k),
        oc,
    ) by {
        let j = q.to(k);
        assert(row(x1, k, c) == row(x2, j, c));
        assert(linear_row_is(row(x1, k, c), w, None, oc, row(y1, k, oc)));
        assert(linear_row_is(row(x2, j, c), w, None, oc, row(y2, j, oc)));
        lemma_linear_row_unique(row(x1, k, c), w, oc, row(y1, k, oc), row(y2, j, oc));
    }
}

proof fn lemma_rmsnorm_same<F: Scalar>(
    q: Pairing,
    t: int,
    c: int,
    w: Seq<F>,
    x1: Seq<F>,
    x2: Seq<F>,
    y1: Seq<F>,
    y2: Seq<F>,
    r1: Seq<F>,
    r2: Seq<F>,
)
    requires
        single_valued::<F>(),
        q.follows_rows(t),
        same_on(q, c, x1, x2),
        rmsnorm_is(x1, w, q.first, c, y1, r1),
        rmsnorm_is(x2, w, q.second, c, y2, r2),
    ensures
        same_on(q, c, y1, y2),
{
    reveal(rmsnorm_is);
    assert forall|k: int| #[trigger] q.has(k) implies row(y1, k, c) == row(y2, q.to(k), c) by {
        let j = q.to(k);
        assert(row(x1, k, c) == row(x2, j, c));
        assert(rmsnorm_row_is(row(x1, k, c), w, row(y1, k, c), r1[k]));
        assert(rmsnorm_row_is(row(x2, j, c), w, row(y2, j, c), r2[j]));
        lemma_rmsnorm_row_unique(row(x1, k, c), w, row(y1, k, c), row(y2, j, c), r1[k], r2[j]);
    }
}

proof fn lemma_rope_same<F: Scalar>(
    q: Pairing,
    t: int,
    nh: int,
    hs: usize,
    x1: Seq<F>,
    x2: Seq<F>,
    y1: Seq<F>,
    y2: Seq<F>,
)
    requires
        single_valued::<F>(),
        q.follows_rows(t),
        0 <= nh,
        hs % 2 == 0,
        same_on(q, (3 * nh) * hs, x1, x2),
        rope_is(false, q.first, t, nh, hs, x1, y1),
        rope_is(false, q.second, t, nh, hs, x2, y2),
    ensures
        same_on(q, (3 * nh) * hs, y1, y2),
{
    reveal(rope_is);
    let c3 = (3 * nh) * hs;
    lemma_nonneg(3 * nh, hs as int);
    assert forall|k: int| #[trigger] q.has(k) implies row(y1, k, c3) == row(
        y2,
        q.to(k),
        c3,
    ) by {
        let j = q.to(k);
        assert(row(x1, k, c3) == row(x2, j, c3));
        lemma_row_bounds(k, q.first, c3);
        let pos = (k % t) as usize;
        assert(rope_row_is(false, pos, nh, hs, row(x1, k, c3), row(y1, k, c3)));
        assert(rope_row_is(false, pos, nh, hs, row(x2, j, c3), row(y2, j, c3)));
        lemma_rope_row_unique(false, pos, nh, hs, row(x1, k, c3), row(y1, k, c3), row(y2, j, c3));
    }
}

proof fn lemma_sums_same<F: Scalar>(
    q: Pairing,
    t: int,
    c: int,
    a1: Seq<F>,
    a2: Seq<F>,
    b1: Seq<F>,
    b2: Seq<F>,
    y1: Seq<F>,
    y2: Seq<F>,
)
    requires
        single_valued::<F>(),
        q.follows_rows(t),
        0 <= c,
        same_on(q, c, a1, a2),
        same_on(q, c, b1, b2),
        sums_are(a1, b1, y1),
        sums_are(a2, b2, y2),
    ensures
        same_on(q, c, y1, y2),
{
    reveal(sums_are);
    assert forall|k: int| #[trigger] q.has(k) implies row(y1, k, c) == row(y2, q.to(k), c) by {
        let j = q.to(k);
        lemma_row_bounds(k, q.first, c);
        lemma_row_bounds(j, q.second, c);
        assert(row(a1, k, c) == row(a2, j, c));
        assert(row(b1, k, c) == row(b2, j, c));
        assert forall|i: int| 0 <= i < c implies row(y1, k, c)[i] == row(y2, j, c)[i] by {
            let p = k * c + i;
            let r = j * c + i;
            assert(a1[p] == row(a1, k, c)[i] && a2[r] == row(a2, j, c)[i]);
            assert(b1[p] == row(b1, k, c)[i] && b2[r] == row(b2, j, c)[i]);
            assert(sum_is(a1[p], b1[p], y1[p]));
            assert(sum_is(a2[r], b2[r], y2[r]));
        }
        assert(row(y1, k, c) =~= row(y2, j, c));
    }
}

proof fn lemma_swiglu_same<F: Scalar>(
    q: Pairing,
    t: int,
    c: int,
    a1: Seq<F>,
    a2: Seq<F>,
    b1: Seq<F>,
    b2: Seq<F>,
    y1: Seq<F>,
    y2: Seq<F>,
)
    requires
        single_valued::<F>(),
        q.follows_rows(t),
        0 <= c,
        same_on(q, c, a1, a2),
        same_on(q, c, b1, b2),
        swiglu_is(a1, b1, y1),
        swiglu_is(a2, b2, y2),
    ensures
        same_on(q, c, y1, y2),
{
    reveal(swiglu_is);
    assert forall|k: int| #[trigger] q.has(k) implies row(y1, k, c) == row(y2, q.to(k), c) by {
        let j = q.to(k);
        lemma_row_bounds(k, q.first, c);
        lemma_row_bounds(j, q.second, c);
        assert(row(a1, k, c) == row(a2, j, c));
        assert(row(b1, k, c) == row(b2, j, c));
        assert forall|i: int| 0 <= i < c implies row(y1, k, c)[i] == row(y2, j, c)[i] by {
            let p = k * c + i;
            let r = j * c + i;
            assert(a1[p] == row(a1, k, c)[i] && a2[r] == row(a2, j, c)[i]);
            assert(b1[p] == row(b1, k, c)[i] && b2[r] == row(b2, j, c)[i]);
            assert(swiglu_at(a1[p], b1[p], y1[p]));
            assert(swiglu_at(a2[r], b2[r], y2[r]));
        }
        assert(row(y1, k, c) =~= row(y2, j, c));
    }
}

proof fn lemma_dropped_same<F: Scalar>(
    q: Pairing,
    t: int,
    c: int,
    m1: Option<Seq<F>>,
    m2: Option<Seq<F>>,
    x1: Seq<F>,
    x2: Seq<F>,
    y1: Seq<F>,
    y2: Seq<F>,
)
    requires
        single_valued::<F>(),
        q.follows_rows(t),
        q.fits_masks(m1, m2),
        0 <= c,
        same_on(q, c, x1, x2),
        dropped_is(x1, m1, y1),
        dropped_is(x2, m2, y2),
    ensures
        same_on(q, c, y1, y2),
{
    if let Some(m) = m1 {
        assert forall|k: int| #[trigger] q.has(k) implies row(y1, k, c) == row(
            y2,
            q.to(k),
            c,
        ) by {
            assert(q.to(k) == k);
            lemma_row_bounds(k, q.first, c);
            lemma_row_bounds(k, q.second, c);
            assert(row(x1, k, c) == row(x2, k, c));
            assert forall|i: int| 0 <= i < c implies row(y1, k, c)[i] == row(y2, k, c)[i] by {
                let p = k * c + i;
                assert(x1[p] == row(x1, k, c)[i] && x2[p] == row(x2, k, c)[i]);
                assert(product_is(x1[p], m[p], y1[p]));
                assert(product_is(x2[p], m[p], y2[p]));
            }
            assert(row(y1, k, c) =~= row(y2, k, c));
        }
    }
}

proof fn lemma_projected_same<F: Scalar>(
    q: Pairing,
    t: int,
    c: int,
    oc: int,
    w: Seq<F>,
    m1: Option<Seq<F>>,
    m2: Option<Seq<F>>,
    x1: Seq<F>,
    x2: Seq<F>,
    y1: Seq<F>,
    y2: Seq<F>,
)
    requires
        single_valued::<F>(),
        q.follows_rows(t),
        q.fits_masks(m1, m2),
        0 <= oc,
        same_on(q, c, x1, x2),
        projected_is(x1, w, q.first, c, oc, m1, y1),
        projected_is(x2, w, q.second, c, oc, m2, y2),
    ensures
        same_on(q, oc, y1, y2),
{
    let r1 = choose|raw: Seq<F>| #[trigger]
        linear_is(x1, w, None, q.first, c, oc, raw) && dropped_is(raw, m1, y1);
    let r2 = choose|raw: Seq<F>| #[trigger]
        linear_is(x2, w, None, q.second, c, oc, raw) && dropped_is(raw, m2, y2);
    lemma_linear_same(q, t, c, oc, w, x1, x2, r1, r2);
    lemma_dropped_same(q, t, oc, m1, m2, r1, r2, y1, y2);
}

/// Attention at a token with a partner sees tokens with partners alone.
proof fn lemma_attention_same<F: Scalar>(
    q: Pairing,
    b1: int,
    b2: int,
    t: int,
    nh: int,
    hs: int,
    m1: Option<Seq<F>>,
    m2: Option<Seq<F>>,
    x1: Seq<F>,
    x2: Seq<F>,
    y1: (Seq<F>, Seq<F>, Seq<F>),
    y2: (Seq<F>, Seq<F>, Seq<F>),
)
    requires
        single_valued::<F>(),
        q.follows_rows(t),
        q.fits_masks(m1, m2),
        q.first == b1 * t,
        q.second == b2 * t,
        0 < t,
        0 <= nh,
        0 <= hs,
        same_on(q, packed(nh, hs), x1, x2),
        attention_is(x1, m1, b1, t, nh, hs, y1.0, y1.1, y1.2),
        attention_is(x2, m2, b2, t, nh, hs, y2.0, y2.1, y2.2),
    ensures
        same_on(q, nh * hs, y1.0, y2.0),
{
    reveal(attention_is);
    let s1 = choose|scale: F| #[trigger]
        scale_is(hs, scale) && attention_scaled_is(
            x1,
            m1,
            scale,
            b1,
            t,
            nh,
            hs,
            y1.0,
            y1.1,
            y1.2,
        );
    let s2 = choose|scale: F| #[trigger]
        scale_is(hs, scale) && attention_scaled_is(
            x2,
            m2,
            scale,
            b2,
            t,
            nh,
            hs,
            y2.0,
            y2.1,
            y2.2,
        );
    assert(s1 == s2);
    let p = packed(nh, hs);
    let co = nh * hs;
    lemma_nonneg(3 * nh, hs);
    lemma_nonneg(nh, hs);
    assert(b1 * (t * p) == (b1 * t) * p) by (nonlinear_arith);
    assert(b1 * (t * co) == (b1 * t) * co) by (nonlinear_arith);
    assert(b2 * (t * p) == (b2 * t) * p) by (nonlinear_arith);
    assert(b2 * (t * co) == (b2 * t) * co) by (nonlinear_arith);
    assert forall|k: int| #[trigger] q.has(k) implies row(y1.0, k, co) == row(
        y2.0,
        q.to(k),
        co,
    ) by {
        let j = q.to(k);
        lemma_unslot(k, b1, t);
        lemma_unslot(j, b2, t);
        lemma_token_same(q, b1, b2, t, nh, hs, m1, m2, s1, x1, x2, y1, y2, k / t, j / t, k % t);
        lemma_nested_row(y1.0, b1, t, co, k / t, k % t);
        lemma_nested_row(y2.0, b2, t, co, j / t, j % t);
    }
}

/// The same for the token at position `ti` of batch row `bi`, whose partner
/// stands in batch row `bj`.
proof fn lemma_token_same<F: Scalar>(
    q: Pairing,
    b1: int,
    b2: int,
    t: int,
    nh: int,
    hs: int,
    m1: Option<Seq<F>>,
    m2: Option<Seq<F>>,
    scale: F,
    x1: Seq<F>,
    x2: Seq<F>,
    y1: (Seq<F>, Seq<F>, Seq<F>),
    y2: (Seq<F>, Seq<F>, Seq<F>),
    bi: int,
    bj: int,
    ti: int,
)
    requires
        single_valued::<F>(),
        q.follows_rows(t),
        q.fits_masks(m1, m2),
        q.first == b1 * t,
        q.second == b2 * t,
        0 <= bi < b1,
        0 <= bj < b2,
        0 <= ti < t,
        0 <= nh,
        0 <= hs,
        q.has(bi * t + ti),
        q.to(bi * t + ti) == bj * t + ti,
        x1.len() == b1 * (t * packed(nh, hs)),
        x2.len() == b2 * (t * packed(nh, hs)),
        same_on(q, packed(nh, hs), x1, x2),
        attention_scaled_is(x1, m1, scale, b1, t, nh, hs, y1.0, y1.1, y1.2),
        attention_scaled_is(x2, m2, scale, b2, t, nh, hs, y2.0, y2.1, y2.2),
    ensures
        row(row(y1.0, bi, t * (nh * hs)), ti, nh * hs) == row(
            row(y2.0, bj, t * (nh * hs)),
            ti,
            nh * hs,
        ),
{
    let p = packed(nh, hs);
    let co = nh * hs;
    let ca = (nh * t) * t;
    let in1 = row(x1, bi, t * p);
    let in2 = row(x2, bj, t * p);
    let o1 = row(y1.0, bi, t * co);
    let o2 = row(y2.0, bj, t * co);
    let pre1 = row(y1.1, bi, ca);
    let pre2 = row(y2.1, bj, ca);
    let att1 = row(y1.2, bi, ca);
    let att2 = row(y2.2, bj, ca);
    let m = mask_batch(m1, bi, ca);
    lemma_nonneg(3 * nh, hs);
    lemma_nonneg(nh, hs);
    lemma_nonneg(t, co);
    lemma_slot(bi, ti, b1, t);
    lemma_slot(bj, ti, b2, t);
    assert(m == mask_batch(m2, bj, ca)) by {
        if m1 is Some {
            assert(bi * t + ti == bj * t + ti);
            assert(bi == bj);
        }
    }
    assert(attention_batch_is(in1, m, scale, t, nh, hs, o1, pre1, att1));
    assert(attention_batch_is(in2, m, scale, t, nh, hs, o2, pre2, att2));
    assert forall|u: int| 0 <= u <= ti implies #[trigger] row(in1, u, p) == row(in2, u, p) by {
        lemma_nested_row(x1, b1, t, p, bi, u);
        lemma_nested_row(x2, b2, t, p, bj, u);
        lemma_slot(bi, u, b1, t);
        assert(q.has(bi * t + u));
        assert(q.to(bi * t + u) == bj * t + u);
        assert(row(x1, bi * t + u, p) == row(x2, bj * t + u, p));
    }
    let r1 = row(o1, ti, co);
    let r2 = row(o2, ti, co);
    assert forall|h: int| 0 <= h < nh implies #[trigger] row(r1, h, hs) == row(r2, h, hs) by {
        let p1 = head_row(pre1, h, ti, t);
        let a1 = head_row(att1, h, ti, t);
        let p2 = head_row(pre2, h, ti, t);
        let a2 = head_row(att2, h, ti, t);
        let mr = mask_row(m, h, ti, t);
        let h1 = out_head(o1, ti, h, nh, hs);
        let h2 = out_head(o2, ti, h, nh, hs);
        assert(attends_is(in1, scale, t, nh, hs, h, ti, p1, a1));
        assert(mixes_is(in1, a1, mr, nh, hs, h, ti, h1));
        assert(attends_is(in2, scale, t, nh, hs, h, ti, p2, a2));
        assert(mixes_is(in2, a2, mr, nh, hs, h, ti, h2));
        lemma_attention_causal(in1, in2, mr, scale, t, nh, hs, h, ti, p1, a1, h1);
        lemma_attends_unique(in2, scale, t, nh, hs, h, ti, p1, a1, p2, a2);
        lemma_mixes_unique(in2, a2, mr, nh, hs, h, ti, h1, h2);
    }
    lemma_row_bounds(ti, t, co);
    lemma_rows_join(r1, r2, nh, hs);
}

/// The configurations are the same but for the batch size.
pub open spec fn batch_twins(c: Config, d: Config) -> bool {
    d == (Config { batch_size: d.batch_size, ..c })
}

/// `q` pairs the tokens of batches of these shapes, which have the same shape
/// where there are masks.
pub open spec fn pairs_batches<F>(
    q: Pairing,
    c: Config,
    d: Config,
    masks1: Option<Seq<F>>,
    masks2: Option<Seq<F>>,
) -> bool {
    &&& batch_twins(c, d)
    &&& q.first == c.tokens()
    &&& q.second == d.tokens()
    &&& q.follows_rows(c.block_size as int)
    &&& q.fits_masks(masks1, masks2)
    &&& masks1 is Some ==> c == d
}

/// A layer takes agreeing residual streams to agreeing ones.
proof fn lemma_layer_same<F: Scalar>(
    q: Pairing,
    c: Config,
    d: Config,
    p: LayerParams<F>,
    m: LayerMasks<F>,
    n: LayerMasks<F>,
    x1: Seq<F>,
    x2: Seq<F>,
    a1: LayerActs<F>,
    a2: LayerActs<F>,
    y1: Seq<F>,
    y2: Seq<F>,
)
    requires
        single_valued::<F>(),
        c.runs(),
        d.runs(),
        batch_twins(c, d),
        q.first == c.tokens(),
        q.second == d.tokens(),
        q.follows_rows(c.block_size as int),
        q.fits_masks(m.att, n.att),
        q.fits_masks(m.attproj, n.attproj),
        q.fits_masks(m.fcproj, n.fcproj),
        same_on(q, c.n_embd as int, x1, x2),
        layer_is(c, p, m, x1, a1, y1),
        layer_is(d, p, n, x2, a2, y2),
    ensures
        same_on(q, c.n_embd as int, y1, y2),
{
    lemma_shapes(c);
    lemma_act_sizes(c);
    let t = c.block_size as int;
    let ch = c.n_embd as int;
    let h = c.hidden();
    let nh = c.n_head as int;
    let hs = c.head_size();
    lemma_rmsnorm_same(q, t, ch, p.ln1w, x1, x2, a1.ln1, a2.ln1, a1.ln1_rstd, a2.ln1_rstd);
    let r1 = choose|raw: Seq<F>| #[trigger]
        linear_is(a1.ln1, p.qkvw, None, q.first, ch, 3 * ch, raw) && rope_is(
            false,
            q.first,
            t,
            nh,
            hs,
            raw,
            a1.qkv,
        );
    let r2 = choose|raw: Seq<F>| #[trigger]
        linear_is(a2.ln1, p.qkvw, None, q.second, ch, 3 * ch, raw) && rope_is(
            false,
            q.second,
            t,
            nh,
            hs,
            raw,
            a2.qkv,
        );
    lemma_linear_same(q, t, ch, 3 * ch, p.qkvw, a1.ln1, a2.ln1, r1, r2);
    lemma_rope_same(q, t, nh, hs, r1, r2, a1.qkv, a2.qkv);
    lemma_attention_same(
        q,
        c.batch_size as int,
        d.batch_size as int,
        t,
        nh,
        hs as int,
        m.att,
        n.att,
        a1.qkv,
        a2.qkv,
        (a1.atty, a1.preatt, a1.att),
        (a2.atty, a2.preatt, a2.att),
    );
    lemma_projected_same(
        q,
        t,
        ch,
        ch,
        p.attprojw,
        m.attproj,
        n.attproj,
        a1.atty,
        a2.atty,
        a1.attproj,
        a2.attproj,
    );
    lemma_sums_same(q, t, ch, x1, x2, a1.attproj, a2.attproj, a1.residual2, a2.residual2);
    lemma_rmsnorm_same(
        q,
        t,
        ch,
        p.ln2w,
        a1.residual2,
        a2.residual2,
        a1.ln2,
        a2.ln2,
        a1.ln2_rstd,
        a2.ln2_rstd,
    );
    lemma_linear_same(q, t, ch, h, p.w1, a1.ln2, a2.ln2, a1.gate, a2.gate);
    lemma_linear_same(q, t, ch, h, p.w3, a1.ln2, a2.ln2, a1.up, a2.up);
    lemma_swiglu_same(q, t, h, a1.gate, a2.gate, a1.up, a2.up, a1.glu, a2.glu);
    lemma_projected_same(
        q,
        t,
        h,
        ch,
        p.w2,
        m.fcproj,
        n.fcproj,
        a1.glu,
        a2.glu,
        a1.fcproj,
        a2.fcproj,
    );
    lemma_sums_same(q, t, ch, a1.residual2, a2.residual2, a1.fcproj, a2.fcproj, y1, y2);
}

/// Partners have the same id.
pub open spec fn same_ids(q: Pairing, ids1: Seq<u16>, ids2: Seq<u16>) -> bool {
    &&& ids1.len() == q.first
    &&& ids2.len() == q.second
    &&& forall|k: int| #[trigger] q.has(k) ==> ids1[k] == ids2[q.to(k)]
}

/// The residual streams before layer `l` agree.
proof fn lemma_stream_same<F: Scalar>(
    q: Pairing,
    c: Config,
    d: Config,
    params: Seq<F>,
    masks1: Option<Seq<F>>,
    masks2: Option<Seq<F>>,
    ids1: Seq<u16>,
    ids2: Seq<u16>,
    acts1: Seq<F>,
    acts2: Seq<F>,
    l: int,
)
    requires
        single_valued::<F>(),
        c.runs(),
        d.runs(),
        pairs_batches(q, c, d, masks1, masks2),
        same_ids(q, ids1, ids2),
        forward_is(c, params, ids1, masks1, acts1),
        forward_is(d, params, ids2, masks2, acts2),
        0 <= l <= c.n_layer,
    ensures
        same_on(q, c.n_embd as int, stream(c, acts1, l), stream(d, acts2, l)),
    decreases l,
{
    reveal(forward_is);
    let t = c.block_size as int;
    let ch = c.n_embd as int;
    lemma_params_shape_free(c, d);
    if l == 0 {
        let wte = param_layout(c).wte.of(params);
        let m1 = encoded_mask(c, masks1);
        let m2 = encoded_mask(d, masks2);
        let r1 = choose|raw: Seq<F>| #[trigger]
            embedding_is(wte, ids1, ch, raw) && dropped_is(raw, m1, stream(c, acts1, 0));
        let r2 = choose|raw: Seq<F>| #[trigger]
            embedding_is(wte, ids2, ch, raw) && dropped_is(raw, m2, stream(d, acts2, 0));
        assert(same_on(q, ch, r1, r2)) by {
            reveal(embedding_is);
            assert forall|k: int| #[trigger] q.has(k) implies row(r1, k, ch) == row(
                r2,
                q.to(k),
                ch,
            ) by {
                assert(ids1[k] == ids2[q.to(k)]);
                assert(row(r1, k, ch) == row(wte, ids1[k] as int, ch));
                assert(row(r2, q.to(k), ch) == row(wte, ids2[q.to(k)] as int, ch));
            }
        }
        lemma_dropped_same(q, t, ch, m1, m2, r1, r2, stream(c, acts1, 0), stream(d, acts2, 0));
    } else {
        lemma_stream_same(
            q,
            c,
            d,
            params,
            masks1,
            masks2,
            ids1,
            ids2,
            acts1,
            acts2,
            l - 1,
        );
        let k = l - 1;
        assert(layer_params(c, params, k) == layer_params(d, params, k));
        let a1 = layer_acts(c, acts1, k);
        let a2 = layer_acts(d, acts2, k);
        lemma_layer_same(
            q,
            c,
            d,
            layer_params(c, params, k),
            layer_masks(c, masks1, k),
            layer_masks(d, masks2, k),
            stream(c, acts1, k),
            stream(d, acts2, k),
            a1,
            a2,
            stream(c, acts1, l),
            stream(d, acts2, l),
        );
    }
}

/// The logits of partners agree.
proof fn lemma_logits_same<F: Scalar>(
    q: Pairing,
    c: Config,
    d: Config,
    params: Seq<F>,
    masks1: Option<Seq<F>>,
    masks2: Option<Seq<F>>,
    ids1: Seq<u16>,
    ids2: Seq<u16>,
    acts1: Seq<F>,
    acts2: Seq<F>,
)
    requires
        single_valued::<F>(),
        c.runs(),
        d.runs(),
        pairs_batches(q, c, d, masks1, masks2),
        same_ids(q, ids1, ids2),
        forward_is(c, params, ids1, masks1, acts1),
        forward_is(d, params, ids2, masks2, acts2),
    ensures
        same_on(
            q,
            c.vocab_size as int,
            act_layout(c).logits.of(acts1),
            act_layout(d).logits.of(acts2),
        ),
{
    reveal(forward_is);
    let al = act_layout(c);
    let bl = act_layout(d);
    let t = c.block_size as int;
    let ch = c.n_embd as int;
    let last = c.n_layer as int;
    lemma_params_shape_free(c, d);
    lemma_stream_same(q, c, d, params, masks1, masks2, ids1, ids2, acts1, acts2, last);
    lemma_rmsnorm_same(
        q,
        t,
        ch,
        param_layout(c).lnfw.of(params),
        stream(c, acts1, last),
        stream(d, acts2, last),
        al.lnf.of(acts1),
        bl.lnf.of(acts2),
        al.lnf_rstd.of(acts1),
        bl.lnf_rstd.of(acts2),
    );
    lemma_linear_same(
        q,
        t,
        ch,
        c.vocab_size as int,
        param_layout(c).lm_head.of(params),
        al.lnf.of(acts1),
        bl.lnf.of(acts2),
        al.logits.of(acts1),
        bl.logits.of(acts2),
    );
}

/// The forward pass is causal: where two batches agree in row `r` up to
/// position `ti`, passes with the same parameters and keep factors agree in the
/// logits of this token, whatever stands behind it in the row and in the other
/// rows.
pub proof fn lemma_forward_causal<F: Scalar>(
    c: Config,
    params: Seq<F>,
    masks: Option<Seq<F>>,
    ids1: Seq<u16>,
    ids2: Seq<u16>,
    acts1: Seq<F>,
    acts2: Seq<F>,
    r: int,
    ti: int,
)
    requires
        single_valued::<F>(),
        c.runs(),
        0 <= r < c.batch_size,
        0 <= ti < c.block_size,
        ids1.len() == c.tokens(),
        ids2.len() == c.tokens(),
        forall|u: int|
            0 <= u <= ti ==> #[trigger] row(ids1, r, c.block_size as int)[u] == row(
                ids2,
                r,
                c.block_size as int,
            )[u],
        forward_is(c, params, ids1, masks, acts1),
        forward_is(c, params, ids2, masks, acts2),
    ensures
        row(act_layout(c).logits.of(acts1), r * c.block_size + ti, c.vocab_size as int) == row(
            act_layout(c).logits.of(acts2),
            r * c.block_size + ti,
            c.vocab_size as int,
        ),
{
    let t = c.block_size as int;
    let n = c.tokens();
    let at = |k: int|
        if k / t == r && k % t <= ti {
            Some(k)
        } else {
            None::<int>
        };
    let q = Pairing { at, first: n, second: n };
    assert forall|i: int, k: int|
        0 <= i <= k && i / t == k / t && #[trigger] q.has(k) implies #[trigger] q.has(i) && q.to(i)
        == q.to(k) - (k - i) by {
        lemma_unslot(k, c.batch_size as int, t);
        lemma_unslot(i, c.batch_size as int, t);
    }
    assert forall|k: int| #[trigger] q.has(k) implies ids1[k] == ids2[q.to(k)] by {
        lemma_unslot(k, c.batch_size as int, t);
        lemma_row_bounds(r, c.batch_size as int, t);
        assert(row(ids1, r, t)[k % t] == row(ids2, r, t)[k % t]);
    }
    assert(q.follows_rows(t));
    assert(q.fits_masks(masks, masks));
    lemma_logits_same(q, c, c, params, masks, masks, ids1, ids2, acts1, acts2);
    lemma_slot(r, ti, c.batch_size as int, t);
    assert(q.has(r * t + ti));
}

/// The forward pass takes the rows of a batch one by one: where a row of one
/// batch and a row of another hold the same ids, passes with the same parameters
/// and without dropout give them the same logits, also where the batches have
/// different numbers of rows.
pub proof fn lemma_forward_by_rows<F: Scalar>(
    c: Config,
    d: Config,
    params: Seq<F>,
    ids1: Seq<u16>,
    ids2: Seq<u16>,
    acts1: Seq<F>,
    acts2: Seq<F>,
    r: int,
    s: int,
)
    requires
        single_valued::<F>(),
        c.runs(),
        d.runs(),
        batch_twins(c, d),
        0 <= r < c.batch_size,
        0 <= s < d.batch_size,
        ids1.len() == c.tokens(),
        ids2.len() == d.tokens(),
        row(ids1, r, c.block_size as int) == row(ids2, s, c.block_size as int),
        forward_is(c, params, ids1, None, acts1),
        forward_is(d, params, ids2, None, acts2),
    ensures
        row(act_layout(c).logits.of(acts1), r, c.block_size * c.vocab_size) == row(
            act_layout(d).logits.of(acts2),
            s,
            c.block_size * c.vocab_size,
        ),
{
    let t = c.block_size as int;
    let v = c.vocab_size as int;
    let b1 = c.batch_size as int;
    let b2 = d.batch_size as int;
    let at = |k: int|
        if k / t == r {
            Some(s * t + k % t)
        } else {
            None::<int>
        };
    let q = Pairing { at, first: c.tokens(), second: d.tokens() };
    assert forall|k: int| #[trigger] q.has(k) implies 0 <= q.to(k) < q.second && q.to(k) % t == k
        % t by {
        lemma_unslot(k, b1, t);
        lemma_slot(s, k % t, b2, t);
    }
    assert forall|i: int, k: int|
        0 <= i <= k && i / t == k / t && #[trigger] q.has(k) implies #[trigger] q.has(i) && q.to(i)
        == q.to(k) - (k - i) by {
        lemma_unslot(k, b1, t);
        lemma_unslot(i, b1, t);
    }
    lemma_row_bounds(r, b1, t);
    lemma_row_bounds(s, b2, t);
    assert forall|k: int| #[trigger] q.has(k) implies ids1[k] == ids2[q.to(k)] by {
        lemma_unslot(k, b1, t);
        assert(ids1[k] == row(ids1, r, t)[k % t]);
        assert(ids2[s * t + k % t] == row(ids2, s, t)[k % t]);
    }
    assert(q.follows_rows(t));
    lemma_logits_same(q, c, d, params, None, None, ids1, ids2, acts1, acts2);
    let x = act_layout(c).logits.of(acts1);
    let y = act_layout(d).logits.of(acts2);
    assert(b1 * (t * v) == (b1 * t) * v) by (nonlinear_arith);
    assert(b2 * (t * v) == (b2 * t) * v) by (nonlinear_arith);
    lemma_nonneg(t, v);
    lemma_row_bounds(r, b1, t * v);
    lemma_row_bounds(s, b2, t * v);
    assert forall|u: int| 0 <= u < t implies #[trigger] row(row(x, r, t * v), u, v) == row(
        row(y, s, t * v),
        u,
        v,
    ) by {
        lemma_nested_row(x, b1, t, v, r, u);
        lemma_nested_row(y, b2, t, v, s, u);
        lemma_slot(r, u, b1, t);
        assert(q.has(r * t + u));
    }
    lemma_rows_join(row(x, r, t * v), row(y, s, t * v), t, v);
}

/// The logits follow from the parameters, the keep factors and the ids.
pub(crate) proof fn lemma_logits_unique<F: Scalar>(
    c: Config,
    params: Seq<F>,
    masks: Option<Seq<F>>,
    ids: Seq<u16>,
    acts1: Seq<F>,
    acts2: Seq<F>,
)
    requires
        single_valued::<F>(),
        c.runs(),
        ids.len() == c.tokens(),
        forward_is(c, params, ids, masks, acts1),
        forward_is(c, params, ids, masks, acts2),
    ensures
        act_layout(c).logits.of(acts1) == act_layout(c).logits.of(acts2),
{
    let al = act_layout(c);
    let n = c.tokens();
    let v = c.vocab_size as int;
    lemma_act_sizes(c);
    let q = Pairing { at: |k: int| Some(k), first: n, second: n };
    assert(forall|k: int| q.has(k) ==> #[trigger] q.to(k) == k);
    assert forall|i: int, k: int|
        0 <= i <= k && i / c.block_size as int == k / c.block_size as int && #[trigger] q.has(
            k,
        ) implies #[trigger] q.has(i) && q.to(i) == q.to(k) - (k - i) by {}
    assert(q.follows_rows(c.block_size as int));
    lemma_logits_same(q, c, c, params, masks, masks, ids, ids, acts1, acts2);
    assert forall|k: int| 0 <= k < n implies #[trigger] row(al.logits.of(acts1), k, v) == row(
        al.logits.of(acts2),
        k,
        v,
    ) by {
        assert(q.has(k));
    }
    lemma_rows_join(al.logits.of(acts1), al.logits.of(acts2), n, v);
}

/// The forward pass is deterministic: the same parameters, keep factors, ids and
/// targets give the same logits and the same mean loss.
pub proof fn lemma_forward_deterministic<F: Scalar>(
    c: Config,
    params: Seq<F>,
    masks: Option<Seq<F>>,
    ids: Seq<u16>,
    targets: Seq<u16>,
    acts1: Seq<F>,
    acts2: Seq<F>,
    loss1: F,
    loss2: F,
)
    requires
        single_valued::<F>(),
        c.runs(),
        ids.len() == c.tokens(),
        batch_ids(c, targets),
        forward_is(c, params, ids, masks, acts1),
        forward_is(c, params, ids, masks, acts2),
        scored_is(c, acts1, targets, loss1),
        scored_is(c, acts2, targets, loss2),
    ensures
        act_layout(c).logits.of(acts1) == act_layout(c).logits.of(acts2),
        loss1 == loss2,
{
    let al = act_layout(c);
    let n = c.tokens();
    let v = c.vocab_size as int;
    lemma_act_sizes(c);
    lemma_logits_unique(c, params, masks, ids, acts1, acts2);
    lemma_softmax_unique(al.logits.of(acts1), n, v, al.probs.of(acts1), al.probs.of(acts2));
    lemma_losses_unique(
        al.probs.of(acts1),
        targets,
        n,
        v,
        al.losses.of(acts1),
        al.losses.of(acts2),
    );
    lemma_mean_loss_unique(al.losses.of(acts1), loss1, loss2);
}

} // verus!
