//! The backward pass as a function: where the arithmetic gives one result for
//! each operation, the gradients follow from the parameters, the batch, the keep
//! factors and the activations, whatever the gradient buffers held before.

use vstd::prelude::*;

use crate::arena::{lemma_row_bounds, lemma_slot, lemma_unslot, row};
use crate::layout::{
    act_layout, lemma_act_layout, lemma_act_sizes, lemma_nonneg, lemma_param_layout,
    lemma_param_sizes, param_layout, Config, Off,
};
use crate::model::backward::{
    attended_gradient_is, attended_gradient_with, backward_is, backward_with,
    fed_forward_gradient_is, fed_forward_gradient_with, grad_stream, head_gradient_is,
    layer_gradient_is,
};
use crate::model::forward::{dropped_is, encoded_mask};
use crate::model::layer::{
    layer_acts, layer_masks, layer_params, lemma_shapes, slot, stream, LayerActs, LayerMasks,
    LayerParams,
};
use crate::model::unique::{
    lemma_dot_unique, lemma_each_times_unique, lemma_fold_unique, lemma_reciprocal_unique,
    lemma_rope_row_unique, lemma_rows_join, single_valued,
};
use crate::ops::attention::{head, head_row, mask_batch, mask_row, out_head, packed, scale_is};
use crate::ops::attention_backward::{
    attends_gradient_is, attends_gradient_with, attention_gradient_batch_is, attention_gradient_is,
    attention_gradient_scaled_is, attention_gradient_with, channel, keep_factors_are, later,
    out_channel, part_gradient_is, score_steps, softmax_slope_is, weight_gradient_at,
};
use crate::ops::embed::{scatter_is, scatter_steps};
use crate::ops::linear::{
    column, input_gradient_is, input_gradient_row_is, weight_gradient_is, weight_gradient_row_is,
};
use crate::ops::loss::{
    logit_gradient_at, logit_gradient_is, logit_gradient_row_is, reciprocal_is,
};
use crate::ops::norm::{
    mean_product_is, norm_gradient_at, norm_gradient_is, norm_gradient_row_is,
    norm_weight_gradient_is, norm_weight_steps,
};
use crate::ops::pointwise::{
    each_times_is, scaled_is, sigmoid_is, silu_slope_is, sums_are, swiglu_gradient_at,
    swiglu_gradient_is,
};
use crate::ops::rope::{rope_is, rope_row_is};
use crate::scalar::{
    dot_from_is, fold_is, is_zero, product_is, quotient_is, ratio_is, sum_is, Scalar,
};

verus! {

proof fn lemma_sums_unique<F: Scalar>(a: Seq<F>, b: Seq<F>, y: Seq<F>, z: Seq<F>)
    requires
        single_valued::<F>(),
        sums_are(a, b, y),
        sums_are(a, b, z),
    ensures
        y == z,
{
    reveal(sums_are);
    assert forall|i: int| 0 <= i < a.len() implies y[i] == z[i] by {
        assert(sum_is(a[i], b[i], y[i]) && sum_is(a[i], b[i], z[i]));
    }
    assert(y =~= z);
}

proof fn lemma_scaled_unique<F: Scalar>(x: Seq<F>, m: Seq<F>, y: Seq<F>, z: Seq<F>)
    requires
        single_valued::<F>(),
        scaled_is(x, m, y),
        scaled_is(x, m, z),
    ensures
        y == z,
{
    assert forall|i: int| 0 <= i < x.len() implies y[i] == z[i] by {
        assert(product_is(x[i], m[i], y[i]) && product_is(x[i], m[i], z[i]));
    }
    assert(y =~= z);
}

proof fn lemma_dropped_unique<F: Scalar>(
    x: Seq<F>,
    mask: Option<Seq<F>>,
    y: Seq<F>,
    z: Seq<F>,
)
    requires
        single_valued::<F>(),
        dropped_is(x, mask, y),
        dropped_is(x, mask, z),
    ensures
        y == z,
{
    if let Some(m) = mask {
        lemma_scaled_unique(x, m, y, z);
    }
}

proof fn lemma_input_gradient_unique<F: Scalar>(
    dout: Seq<F>,
    w: Seq<F>,
    n: int,
    c: int,
    oc: int,
    x: Seq<F>,
    y: Seq<F>,
    z: Seq<F>,
)
    requires
        single_valued::<F>(),
        0 <= n,
        0 <= c,
        input_gradient_is(dout, w, n, c, oc, x, y),
        input_gradient_is(dout, w, n, c, oc, x, z),
    ensures
        y == z,
{
    reveal(input_gradient_is);
    assert forall|r: int| 0 <= r < n implies #[trigger] row(y, r, c) == row(z, r, c) by {
        let d = row(dout, r, oc);
        let x0 = row(x, r, c);
        let a = row(y, r, c);
        let b = row(z, r, c);
        assert(input_gradient_row_is(d, w, c, x0, a));
        assert(input_gradient_row_is(d, w, c, x0, b));
        assert forall|i: int| 0 <= i < c implies a[i] == b[i] by {
            let k = column(w, d.len() as int, c, i);
            assert(dot_from_is(x0[i], k, d, a[i]) && dot_from_is(x0[i], k, d, b[i]));
            lemma_dot_unique(x0[i], k, d, a[i], b[i]);
        }
        assert(a =~= b);
    }
    lemma_rows_join(y, z, n, c);
}

proof fn lemma_weight_gradient_unique<F: Scalar>(
    dout: Seq<F>,
    inp: Seq<F>,
    n: int,
    c: int,
    oc: int,
    x: Seq<F>,
    y: Seq<F>,
    z: Seq<F>,
)
    requires
        single_valued::<F>(),
        0 <= oc,
        0 <= c,
        weight_gradient_is(dout, inp, n, c, oc, x, y),
        weight_gradient_is(dout, inp, n, c, oc, x, z),
    ensures
        y == z,
{
    reveal(weight_gradient_is);
    assert forall|o: int| 0 <= o < oc implies #[trigger] row(y, o, c) == row(z, o, c) by {
        let x0 = row(x, o, c);
        let a = row(y, o, c);
        let b = row(z, o, c);
        assert(weight_gradient_row_is(dout, inp, n, c, oc, o, x0, a));
        assert(weight_gradient_row_is(dout, inp, n, c, oc, o, x0, b));
        assert forall|i: int| 0 <= i < c implies a[i] == b[i] by {
            let p = column(inp, n, c, i);
            let q = column(dout, n, oc, o);
            assert(dot_from_is(x0[i], p, q, a[i]) && dot_from_is(x0[i], p, q, b[i]));
            lemma_dot_unique(x0[i], p, q, a[i], b[i]);
        }
        assert(a =~= b);
    }
    lemma_rows_join(y, z, oc, c);
}

proof fn lemma_swiglu_gradient_unique<F: Scalar>(
    gate: Seq<F>,
    up: Seq<F>,
    d: Seq<F>,
    g1: Seq<F>,
    u1: Seq<F>,
    g2: Seq<F>,
    u2: Seq<F>,
)
    requires
        single_valued::<F>(),
        swiglu_gradient_is(gate, up, d, g1, u1),
        swiglu_gradient_is(gate, up, d, g2, u2),
    ensures
        g1 == g2,
        u1 == u2,
{
    reveal(swiglu_gradient_is);
    assert forall|i: int| 0 <= i < gate.len() implies g1[i] == g2[i] && u1[i] == u2[i] by {
        assert(swiglu_gradient_at(gate[i], up[i], d[i], g1[i], u1[i]));
        assert(swiglu_gradient_at(gate[i], up[i], d[i], g2[i], u2[i]));
        assert forall|r: F, s: F| #[trigger]
            sigmoid_is(gate[i], r) && #[trigger] sigmoid_is(gate[i], s) implies r == s by {}
        assert forall|sig: F, r: F, s: F| #[trigger]
            silu_slope_is(gate[i], sig, r) && #[trigger] silu_slope_is(
            gate[i],
            sig,
            s,
        ) implies r == s by {}
    }
    assert(g1 =~= g2);
    assert(u1 =~= u2);
}

proof fn lemma_norm_gradient_row_unique<F: Scalar>(
    x: Seq<F>,
    rstd: F,
    weight: Seq<F>,
    g: Seq<F>,
    d: Seq<F>,
    y: Seq<F>,
    z: Seq<F>,
)
    requires
        single_valued::<F>(),
        norm_gradient_row_is(x, rstd, weight, g, d, y),
        norm_gradient_row_is(x, rstd, weight, g, d, z),
    ensures
        y == z,
{
    let (n1, d1, m1) = choose|norm: Seq<F>, dnorm: Seq<F>, mean: F|
        #[trigger] each_times_is(x, rstd, norm) && #[trigger] scaled_is(
            weight,
            g,
            dnorm,
        ) && #[trigger] mean_product_is(dnorm, norm, mean) && y.len() == x.len() && forall|i: int|
            0 <= i < x.len() ==> norm_gradient_at(
                norm[i],
                dnorm[i],
                mean,
                rstd,
                d[i],
                #[trigger] y[i],
            );
    let (n2, d2, m2) = choose|norm: Seq<F>, dnorm: Seq<F>, mean: F|
        #[trigger] each_times_is(x, rstd, norm) && #[trigger] scaled_is(
            weight,
            g,
            dnorm,
        ) && #[trigger] mean_product_is(dnorm, norm, mean) && z.len() == x.len() && forall|i: int|
            0 <= i < x.len() ==> norm_gradient_at(
                norm[i],
                dnorm[i],
                mean,
                rstd,
                d[i],
                #[trigger] z[i],
            );
    lemma_each_times_unique(x, rstd, n1, n2);
    lemma_scaled_unique(weight, g, d1, d2);
    lemma_mean_product_unique(d1, n1, m1, m2);
    assert forall|i: int| 0 <= i < x.len() implies y[i] == z[i] by {
        assert(norm_gradient_at(n1[i], d1[i], m1, rstd, d[i], y[i]));
        assert(norm_gradient_at(n1[i], d1[i], m1, rstd, d[i], z[i]));
    }
    assert(y =~= z);
}

proof fn lemma_mean_product_unique<F: Scalar>(dnorm: Seq<F>, norm: Seq<F>, r: F, s: F)
    requires
        single_valued::<F>(),
        mean_product_is(dnorm, norm, r),
        mean_product_is(dnorm, norm, s),
    ensures
        r == s,
{
    let (z1, s1, c1) = choose|zero: F, sum: F, count: F|
        #[trigger] is_zero(zero) && #[trigger] dot_from_is(zero, dnorm, norm, sum)
            && #[trigger] ratio_is(norm.len() as usize, 1, count) && quotient_is(sum, count, r);
    let (z2, s2, c2) = choose|zero: F, sum: F, count: F|
        #[trigger] is_zero(zero) && #[trigger] dot_from_is(zero, dnorm, norm, sum)
            && #[trigger] ratio_is(norm.len() as usize, 1, count) && quotient_is(sum, count, s);
    assert(z1 == z2 && c1 == c2);
    lemma_dot_unique(z1, dnorm, norm, s1, s2);
}

proof fn lemma_norm_gradient_unique<F: Scalar>(
    inp: Seq<F>,
    rstd: Seq<F>,
    weight: Seq<F>,
    dout: Seq<F>,
    n: int,
    c: int,
    d: Seq<F>,
    y: Seq<F>,
    z: Seq<F>,
)
    requires
        single_valued::<F>(),
        0 <= n,
        0 <= c,
        norm_gradient_is(inp, rstd, weight, dout, n, c, d, y),
        norm_gradient_is(inp, rstd, weight, dout, n, c, d, z),
    ensures
        y == z,
{
    reveal(norm_gradient_is);
    assert forall|r: int| 0 <= r < n implies #[trigger] row(y, r, c) == row(z, r, c) by {
        let x = row(inp, r, c);
        let g = row(dout, r, c);
        let d0 = row(d, r, c);
        assert(norm_gradient_row_is(x, rstd[r], weight, g, d0, row(y, r, c)));
        assert(norm_gradient_row_is(x, rstd[r], weight, g, d0, row(z, r, c)));
        lemma_norm_gradient_row_unique(x, rstd[r], weight, g, d0, row(y, r, c), row(z, r, c));
    }
    lemma_rows_join(y, z, n, c);
}

proof fn lemma_norm_weight_gradient_unique<F: Scalar>(
    inp: Seq<F>,
    rstd: Seq<F>,
    dout: Seq<F>,
    n: int,
    c: int,
    w: Seq<F>,
    y: Seq<F>,
    z: Seq<F>,
)
    requires
        single_valued::<F>(),
        norm_weight_gradient_is(inp, rstd, dout, n, c, w, y),
        norm_weight_gradient_is(inp, rstd, dout, n, c, w, z),
    ensures
        y == z,
{
    reveal(norm_weight_gradient_is);
    assert forall|i: int| 0 <= i < c implies y[i] == z[i] by {
        let step = norm_weight_steps(inp, rstd, dout, c, i);
        assert(fold_is(n as nat, w[i], step, y[i]) && fold_is(n as nat, w[i], step, z[i]));
        assert forall|r: nat, a: F, p: F, q: F| #[trigger]
            step(r, a, p) && #[trigger] step(r, a, q) implies p == q by {}
        lemma_fold_unique(n as nat, w[i], step, y[i], z[i]);
    }
    assert(y =~= z);
}

proof fn lemma_rope_unique<F: Scalar>(
    back: bool,
    n: int,
    t: int,
    nh: int,
    hs: usize,
    x: Seq<F>,
    y: Seq<F>,
    z: Seq<F>,
)
    requires
        single_valued::<F>(),
        0 <= n,
        0 <= nh,
        hs % 2 == 0,
        x.len() == n * ((3 * nh) * hs),
        rope_is(back, n, t, nh, hs, x, y),
        rope_is(back, n, t, nh, hs, x, z),
    ensures
        y == z,
{
    reveal(rope_is);
    let c3 = (3 * nh) * hs;
    lemma_nonneg(3 * nh, hs as int);
    assert forall|k: int| 0 <= k < n implies #[trigger] row(y, k, c3) == row(z, k, c3) by {
        lemma_row_bounds(k, n, c3);
        let pos = (k % t) as usize;
        assert(rope_row_is(back, pos, nh, hs, row(x, k, c3), row(y, k, c3)));
        assert(rope_row_is(back, pos, nh, hs, row(x, k, c3), row(z, k, c3)));
        lemma_rope_row_unique(back, pos, nh, hs, row(x, k, c3), row(y, k, c3), row(z, k, c3));
    }
    lemma_rows_join(y, z, n, c3);
}

proof fn lemma_logit_gradient_unique<F: Scalar>(
    probs: Seq<F>,
    targets: Seq<u16>,
    n: int,
    v: int,
    dmean: F,
    d: Seq<F>,
    y: Seq<F>,
    z: Seq<F>,
)
    requires
        single_valued::<F>(),
        0 <= n,
        0 <= v,
        probs.len() == n * v,
        logit_gradient_is(probs, targets, n, v, dmean, d, y),
        logit_gradient_is(probs, targets, n, v, dmean, d, z),
    ensures
        y == z,
{
    reveal(logit_gradient_is);
    assert forall|r: int| 0 <= r < n implies #[trigger] row(y, r, v) == row(z, r, v) by {
        let p = row(probs, r, v);
        let t = targets[r] as int;
        let d0 = row(d, r, v);
        let a = row(y, r, v);
        let b = row(z, r, v);
        assert(logit_gradient_row_is(p, t, dmean, d0, a));
        assert(logit_gradient_row_is(p, t, dmean, d0, b));
        assert forall|j: int| 0 <= j < p.len() implies a[j] == b[j] by {
            assert(logit_gradient_at(p[j], j == t, dmean, d0[j], a[j]));
            assert(logit_gradient_at(p[j], j == t, dmean, d0[j], b[j]));
        }
        assert(a =~= b);
    }
    lemma_rows_join(y, z, n, v);
}

proof fn lemma_scatter_unique<F: Scalar>(
    ids: Seq<u16>,
    dout: Seq<F>,
    v: int,
    c: int,
    w: Seq<F>,
    y: Seq<F>,
    z: Seq<F>,
)
    requires
        single_valued::<F>(),
        0 <= v,
        0 < c,
        scatter_is(ids, dout, v, c, w, y),
        scatter_is(ids, dout, v, c, w, z),
    ensures
        y == z,
{
    reveal(scatter_is);
    assert forall|p: int| 0 <= p < y.len() implies y[p] == z[p] by {
        lemma_unslot(p, v, c);
        let x = p / c;
        let i = p % c;
        assert(p == x * c + i);
        let step = scatter_steps(ids, dout, c, x, i);
        let a = y[x * c + i];
        let b = z[x * c + i];
        assert(fold_is(ids.len(), w[x * c + i], step, a));
        assert(fold_is(ids.len(), w[x * c + i], step, b));
        assert forall|k: nat, acc: F, p: F, q: F| #[trigger]
            step(k, acc, p) && #[trigger] step(k, acc, q) implies p == q by {}
        lemma_fold_unique(ids.len(), w[x * c + i], step, a, b);
    }
    assert(y =~= z);
}

proof fn lemma_keep_factors_unique<F: Scalar>(
    mask: Option<Seq<F>>,
    ti: int,
    f: Seq<F>,
    g: Seq<F>,
)
    requires
        single_valued::<F>(),
        keep_factors_are(mask, ti, f),
        keep_factors_are(mask, ti, g),
    ensures
        f == g,
{
    assert forall|u: int| 0 <= u <= ti implies f[u] == g[u] by {
    }
    assert(f =~= g);
}

/// The gradients of the weights and the scores of one head at one position, with
/// its kept weights and scaled score gradients.
struct Attended<F> {
    datt: Seq<F>,
    dpreatt: Seq<F>,
    kept: Seq<F>,
    dpre: Seq<F>,
}

proof fn lemma_attends_gradient_unique<F: Scalar>(
    inp: Seq<F>,
    att: Seq<F>,
    mask: Option<Seq<F>>,
    dout: Seq<F>,
    scale: F,
    t: int,
    nh: int,
    hs: int,
    h: int,
    ti: int,
    datt: Seq<F>,
    dpreatt: Seq<F>,
    a: Attended<F>,
    b: Attended<F>,
)
    requires
        single_valued::<F>(),
        0 <= ti < t,
        attends_gradient_is(
            inp,
            att,
            mask,
            dout,
            scale,
            t,
            nh,
            hs,
            h,
            ti,
            datt,
            a.datt,
            dpreatt,
            a.dpreatt,
            a.kept,
            a.dpre,
        ),
        attends_gradient_is(
            inp,
            att,
            mask,
            dout,
            scale,
            t,
            nh,
            hs,
            h,
            ti,
            datt,
            b.datt,
            dpreatt,
            b.dpreatt,
            b.kept,
            b.dpre,
        ),
    ensures
        a == b,
{
    let f = choose|f: Seq<F>| #[trigger]
        keep_factors_are(mask, ti, f) && attends_gradient_with(
            inp,
            att,
            f,
            dout,
            scale,
            t,
            nh,
            hs,
            h,
            ti,
            datt,
            a.datt,
            dpreatt,
            a.dpreatt,
            a.kept,
            a.dpre,
        );
    let g = choose|f: Seq<F>| #[trigger]
        keep_factors_are(mask, ti, f) && attends_gradient_with(
            inp,
            att,
            f,
            dout,
            scale,
            t,
            nh,
            hs,
            h,
            ti,
            datt,
            b.datt,
            dpreatt,
            b.dpreatt,
            b.kept,
            b.dpre,
        );
    lemma_keep_factors_unique(mask, ti, f, g);
    lemma_scaled_unique(att.subrange(0, ti + 1), f, a.kept, b.kept);
    assert forall|u: int| 0 <= u < t implies a.datt[u] == b.datt[u] by {
        if u <= ti {
            let v = head(inp, u, 2, h, nh, hs);
            let d = out_head(dout, ti, h, nh, hs);
            assert(weight_gradient_at(v, d, f[u], datt[u], a.datt[u]));
            assert(weight_gradient_at(v, d, f[u], datt[u], b.datt[u]));
            let x = choose|x: F| #[trigger]
                dot_from_is(datt[u], v, d, x) && product_is(x, f[u], a.datt[u]);
            let y = choose|y: F| #[trigger]
                dot_from_is(datt[u], v, d, y) && product_is(y, f[u], b.datt[u]);
            lemma_dot_unique(datt[u], v, d, x, y);
        } else {
            assert(a.datt[u] == datt[u] && b.datt[u] == datt[u]);
        }
    }
    assert(a.datt =~= b.datt);
    assert forall|u: int| 0 <= u < t implies a.dpreatt[u] == b.dpreatt[u] by {
        if u <= ti {
            let step = score_steps(att, a.datt, u);
            assert(fold_is((ti + 1) as nat, dpreatt[u], step, a.dpreatt[u]));
            assert(fold_is((ti + 1) as nat, dpreatt[u], step, b.dpreatt[u]));
            assert forall|k: nat, acc: F, x: F, y: F| #[trigger]
                step(k, acc, x) && #[trigger] step(k, acc, y) implies x == y by {
                assert forall|r: F, s: F| #[trigger]
                    softmax_slope_is(att, k as int, u, r) && #[trigger] softmax_slope_is(
                    att,
                    k as int,
                    u,
                    s,
                ) implies r == s by {}
            }
            lemma_fold_unique((ti + 1) as nat, dpreatt[u], step, a.dpreatt[u], b.dpreatt[u]);
        } else {
            assert(a.dpreatt[u] == dpreatt[u] && b.dpreatt[u] == dpreatt[u]);
        }
    }
    assert(a.dpreatt =~= b.dpreatt);
    lemma_each_times_unique(a.dpreatt.subrange(0, ti + 1), scale, a.dpre, b.dpre);
}

/// The gradients of one head of one part at one position.
proof fn lemma_part_gradient_unique<F: Scalar>(
    inp: Seq<F>,
    dout: Seq<F>,
    kept1: Seq<Seq<F>>,
    kept2: Seq<Seq<F>>,
    dpres1: Seq<Seq<F>>,
    dpres2: Seq<Seq<F>>,
    t: int,
    nh: int,
    hs: int,
    part: int,
    h: int,
    u: int,
    x: Seq<F>,
    y: Seq<F>,
    z: Seq<F>,
)
    requires
        single_valued::<F>(),
        0 <= u < t,
        0 <= h < nh,
        0 <= part < 3,
        forall|p: int| 0 <= p < nh * t ==> #[trigger] kept1[p] == kept2[p],
        forall|p: int| 0 <= p < nh * t ==> #[trigger] dpres1[p] == dpres2[p],
        part_gradient_is(inp, dout, kept1, dpres1, t, nh, hs, part, h, u, x, y),
        part_gradient_is(inp, dout, kept2, dpres2, t, nh, hs, part, h, u, x, z),
    ensures
        y == z,
{
    assert forall|k: int| 0 <= k < t implies 0 <= #[trigger] (h * t + k) < nh * t by {
        lemma_slot(h, k, nh, t);
    }
    if part == 0 {
        assert(0 <= h * t + u < nh * t);
        let dpre = dpres1[h * t + u];
        assert forall|i: int| 0 <= i < hs implies y[i] == z[i] by {
            let k = channel(inp, 0, u + 1, 1, h, nh, hs, i);
            assert(dot_from_is(x[i], k, dpre, y[i]) && dot_from_is(x[i], k, dpre, z[i]));
            lemma_dot_unique(x[i], k, dpre, y[i], z[i]);
        }
    } else if part == 1 {
        let d = later(dpres1, h, u, t);
        assert(d =~= later(dpres2, h, u, t)) by {
            assert forall|k: int| 0 <= k < t - u implies d[k] == later(dpres2, h, u, t)[k] by {
                assert(0 <= h * t + (u + k) < nh * t);
            }
        }
        assert forall|i: int| 0 <= i < hs implies y[i] == z[i] by {
            let k = channel(inp, u, t - u, 0, h, nh, hs, i);
            assert(dot_from_is(x[i], k, d, y[i]) && dot_from_is(x[i], k, d, z[i]));
            lemma_dot_unique(x[i], k, d, y[i], z[i]);
        }
    } else {
        let w = later(kept1, h, u, t);
        assert(w =~= later(kept2, h, u, t)) by {
            assert forall|k: int| 0 <= k < t - u implies w[k] == later(kept2, h, u, t)[k] by {
                assert(0 <= h * t + (u + k) < nh * t);
            }
        }
        assert forall|i: int| 0 <= i < hs implies y[i] == z[i] by {
            let d = out_channel(dout, u, t - u, h, nh, hs, i);
            assert(dot_from_is(x[i], w, d, y[i]) && dot_from_is(x[i], w, d, z[i]));
            lemma_dot_unique(x[i], w, d, y[i], z[i]);
        }
    }
    assert(y =~= z);
}

proof fn lemma_attention_batch_gradient_unique<F: Scalar>(
    inp: Seq<F>,
    att: Seq<F>,
    mask: Option<Seq<F>>,
    dout: Seq<F>,
    scale: F,
    t: int,
    nh: int,
    hs: int,
    d: (Seq<F>, Seq<F>, Seq<F>),
    y: (Seq<F>, Seq<F>, Seq<F>),
    z: (Seq<F>, Seq<F>, Seq<F>),
)
    requires
        single_valued::<F>(),
        0 < t,
        0 <= nh,
        0 <= hs,
        attention_gradient_batch_is(inp, att, mask, dout, scale, t, nh, hs, d, y),
        attention_gradient_batch_is(inp, att, mask, dout, scale, t, nh, hs, d, z),
    ensures
        y.0 == z.0,
        y.1 == z.1,
        y.2 == z.2,
{
    let (k1, p1) = choose|kept: Seq<Seq<F>>, dpres: Seq<Seq<F>>| #[trigger]
        attention_gradient_with(inp, att, mask, dout, scale, t, nh, hs, d, y, kept, dpres);
    let (k2, p2) = choose|kept: Seq<Seq<F>>, dpres: Seq<Seq<F>>| #[trigger]
        attention_gradient_with(inp, att, mask, dout, scale, t, nh, hs, d, z, kept, dpres);
    lemma_nonneg(nh, t);
    assert forall|p: int| 0 <= p < nh * t implies #[trigger] k1[p] == k2[p] && p1[p] == p2[p]
        && row(y.1, p, t) == row(z.1, p, t) && row(y.2, p, t) == row(z.2, p, t) by {
        lemma_unslot(p, nh, t);
        let h = p / t;
        let ti = p % t;
        assert(h * t + ti == p);
        let a = Attended {
            datt: head_row(y.2, h, ti, t),
            dpreatt: head_row(y.1, h, ti, t),
            kept: k1[h * t + ti],
            dpre: p1[h * t + ti],
        };
        let b = Attended {
            datt: head_row(z.2, h, ti, t),
            dpreatt: head_row(z.1, h, ti, t),
            kept: k2[h * t + ti],
            dpre: p2[h * t + ti],
        };
        lemma_attends_gradient_unique(
            inp,
            head_row(att, h, ti, t),
            mask_row(mask, h, ti, t),
            dout,
            scale,
            t,
            nh,
            hs,
            h,
            ti,
            head_row(d.2, h, ti, t),
            head_row(d.1, h, ti, t),
            a,
            b,
        );
    }
    assert forall|p: int| 0 <= p < nh * t implies #[trigger] row(y.1, p, t) == row(
        z.1,
        p,
        t,
    ) by {
        assert(k1[p] == k2[p]);
    }
    assert forall|p: int| 0 <= p < nh * t implies #[trigger] row(y.2, p, t) == row(
        z.2,
        p,
        t,
    ) by {
        assert(k1[p] == k2[p]);
    }
    lemma_rows_join(y.1, z.1, nh * t, t);
    lemma_rows_join(y.2, z.2, nh * t, t);
    assert forall|p: int| 0 <= p < nh * t implies #[trigger] p1[p] == p2[p] by {
        assert(k1[p] == k2[p]);
    }
    let c3 = packed(nh, hs);
    lemma_nonneg(3 * nh, hs);
    assert forall|u: int| 0 <= u < t implies #[trigger] row(y.0, u, c3) == row(z.0, u, c3) by {
        lemma_row_bounds(u, t, c3);
        let a = row(y.0, u, c3);
        let b = row(z.0, u, c3);
        assert forall|m: int| 0 <= m < 3 * nh implies #[trigger] row(a, m, hs) == row(
            b,
            m,
            hs,
        ) by {
            let part: int = if m < nh {
                0
            } else if m < 2 * nh {
                1
            } else {
                2
            };
            let h = m - part * nh;
            assert(part * nh + h == m);
            assert(0 <= h < nh);
            lemma_part_gradient_unique(
                inp,
                dout,
                k1,
                k2,
                p1,
                p2,
                t,
                nh,
                hs,
                part,
                h,
                u,
                head(d.0, u, part, h, nh, hs),
                head(y.0, u, part, h, nh, hs),
                head(z.0, u, part, h, nh, hs),
            );
        }
        lemma_rows_join(a, b, 3 * nh, hs);
    }
    lemma_rows_join(y.0, z.0, t, c3);
}

proof fn lemma_attention_gradient_unique<F: Scalar>(
    inp: Seq<F>,
    att: Seq<F>,
    mask: Option<Seq<F>>,
    dout: Seq<F>,
    b: int,
    t: int,
    nh: int,
    hs: int,
    d: (Seq<F>, Seq<F>, Seq<F>),
    y: (Seq<F>, Seq<F>, Seq<F>),
    z: (Seq<F>, Seq<F>, Seq<F>),
)
    requires
        single_valued::<F>(),
        0 <= b,
        0 < t,
        0 <= nh,
        0 <= hs,
        attention_gradient_is(inp, att, mask, dout, b, t, nh, hs, d, y),
        attention_gradient_is(inp, att, mask, dout, b, t, nh, hs, d, z),
    ensures
        y.0.len() == b * (t * packed(nh, hs)),
        y.0 == z.0,
        y.1 == z.1,
        y.2 == z.2,
{
    reveal(attention_gradient_is);
    let s1 = choose|scale: F| #[trigger]
        scale_is(hs, scale) && attention_gradient_scaled_is(
            inp,
            att,
            mask,
            dout,
            scale,
            b,
            t,
            nh,
            hs,
            d,
            y,
        );
    let s2 = choose|scale: F| #[trigger]
        scale_is(hs, scale) && attention_gradient_scaled_is(
            inp,
            att,
            mask,
            dout,
            scale,
            b,
            t,
            nh,
            hs,
            d,
            z,
        );
    assert(s1 == s2);
    let ci = t * packed(nh, hs);
    let ca = (nh * t) * t;
    lemma_nonneg(3 * nh, hs);
    lemma_nonneg(t, packed(nh, hs));
    lemma_nonneg(nh, t);
    lemma_nonneg(nh * t, t);
    assert forall|bi: int| 0 <= bi < b implies #[trigger] row(y.0, bi, ci) == row(z.0, bi, ci)
        && row(y.1, bi, ca) == row(z.1, bi, ca) && row(y.2, bi, ca) == row(z.2, bi, ca) by {
        lemma_attention_batch_gradient_unique(
            row(inp, bi, ci),
            row(att, bi, ca),
            mask_batch(mask, bi, ca),
            row(dout, bi, t * (nh * hs)),
            s1,
            t,
            nh,
            hs,
            (row(d.0, bi, ci), row(d.1, bi, ca), row(d.2, bi, ca)),
            (row(y.0, bi, ci), row(y.1, bi, ca), row(y.2, bi, ca)),
            (row(z.0, bi, ci), row(z.1, bi, ca), row(z.2, bi, ca)),
        );
    }
    assert forall|bi: int| 0 <= bi < b implies #[trigger] row(y.1, bi, ca) == row(
        z.1,
        bi,
        ca,
    ) by {
        assert(row(y.0, bi, ci) == row(z.0, bi, ci));
    }
    assert forall|bi: int| 0 <= bi < b implies #[trigger] row(y.2, bi, ca) == row(
        z.2,
        bi,
        ca,
    ) by {
        assert(row(y.0, bi, ci) == row(z.0, bi, ci));
    }
    lemma_rows_join(y.0, z.0, b, ci);
    lemma_rows_join(y.1, z.1, b, ca);
    lemma_rows_join(y.2, z.2, b, ca);
}

/// Backward over the feed-forward half of a layer has one outcome.
proof fn lemma_fed_forward_gradient_unique<F: Scalar>(
    c: Config,
    p: LayerParams<F>,
    m: LayerMasks<F>,
    a: LayerActs<F>,
    g0: LayerActs<F>,
    d_out: Seq<F>,
    w0: LayerParams<F>,
    g: LayerActs<F>,
    w: LayerParams<F>,
    h: LayerActs<F>,
    v: LayerParams<F>,
)
    requires
        single_valued::<F>(),
        c.runs(),
        fed_forward_gradient_is(c, p, m, a, g0, d_out, g, w0, w),
        fed_forward_gradient_is(c, p, m, a, g0, d_out, h, w0, v),
    ensures
        g.residual2 == h.residual2,
        w.w2 == v.w2,
        w.w1 == v.w1,
        w.w3 == v.w3,
        w.ln2w == v.ln2w,
{
    let n = c.tokens();
    let ch = c.n_embd as int;
    let hw = c.hidden();
    lemma_act_sizes(c);
    let (r1, f1, l1) = choose|r2: Seq<F>, fc: Seq<F>, ln2: Seq<F>| #[trigger]
        fed_forward_gradient_with(c, p, m, a, g0, d_out, g, w0, w, r2, fc, ln2);
    let (r2, f2, l2) = choose|r2: Seq<F>, fc: Seq<F>, ln2: Seq<F>| #[trigger]
        fed_forward_gradient_with(c, p, m, a, g0, d_out, h, w0, v, r2, fc, ln2);
    lemma_sums_unique(g0.residual2, d_out, r1, r2);
    lemma_sums_unique(g0.fcproj, d_out, f1, f2);
    lemma_dropped_unique(f1, m.fcproj, g.fcproj, h.fcproj);
    lemma_input_gradient_unique(g.fcproj, p.w2, n, hw, ch, g0.glu, g.glu, h.glu);
    lemma_weight_gradient_unique(g.fcproj, a.glu, n, hw, ch, w0.w2, w.w2, v.w2);
    lemma_swiglu_gradient_unique(a.gate, a.up, g.glu, g.gate, g.up, h.gate, h.up);
    lemma_input_gradient_unique(g.gate, p.w1, n, ch, hw, g0.ln2, l1, l2);
    lemma_weight_gradient_unique(g.gate, a.ln2, n, ch, hw, w0.w1, w.w1, v.w1);
    lemma_input_gradient_unique(g.up, p.w3, n, ch, hw, l1, g.ln2, h.ln2);
    lemma_weight_gradient_unique(g.up, a.ln2, n, ch, hw, w0.w3, w.w3, v.w3);
    lemma_norm_gradient_unique(
        a.residual2,
        a.ln2_rstd,
        p.ln2w,
        g.ln2,
        n,
        ch,
        r1,
        g.residual2,
        h.residual2,
    );
    lemma_norm_weight_gradient_unique(
        a.residual2,
        a.ln2_rstd,
        g.ln2,
        n,
        ch,
        w0.ln2w,
        w.ln2w,
        v.ln2w,
    );
}

/// Backward over the attention half of a layer has one outcome.
proof fn lemma_attended_gradient_unique<F: Scalar>(
    c: Config,
    p: LayerParams<F>,
    m: LayerMasks<F>,
    inp: Seq<F>,
    a: LayerActs<F>,
    g0: LayerActs<F>,
    d_inp0: Seq<F>,
    w0: LayerParams<F>,
    g: LayerActs<F>,
    x: Seq<F>,
    w: LayerParams<F>,
    h: LayerActs<F>,
    y: Seq<F>,
    v: LayerParams<F>,
)
    requires
        single_valued::<F>(),
        c.runs(),
        g.residual2 == h.residual2,
        attended_gradient_is(c, p, m, inp, a, g0, d_inp0, g, x, w0, w),
        attended_gradient_is(c, p, m, inp, a, g0, d_inp0, h, y, w0, v),
    ensures
        x == y,
        w.attprojw == v.attprojw,
        w.qkvw == v.qkvw,
        w.ln1w == v.ln1w,
{
    let n = c.tokens();
    let ch = c.n_embd as int;
    let nh = c.n_head as int;
    let hs = c.head_size();
    lemma_act_sizes(c);
    lemma_shapes(c);
    let (d1, p1, q1) = choose|d: Seq<F>, proj: Seq<F>, qkv: Seq<F>| #[trigger]
        attended_gradient_with(c, p, m, inp, a, g0, d_inp0, g, x, w0, w, d, proj, qkv);
    let (d2, p2, q2) = choose|d: Seq<F>, proj: Seq<F>, qkv: Seq<F>| #[trigger]
        attended_gradient_with(c, p, m, inp, a, g0, d_inp0, h, y, w0, v, d, proj, qkv);
    lemma_sums_unique(d_inp0, g.residual2, d1, d2);
    lemma_sums_unique(g0.attproj, g.residual2, p1, p2);
    lemma_dropped_unique(p1, m.attproj, g.attproj, h.attproj);
    lemma_input_gradient_unique(g.attproj, p.attprojw, n, ch, ch, g0.atty, g.atty, h.atty);
    lemma_weight_gradient_unique(
        g.attproj,
        a.atty,
        n,
        ch,
        ch,
        w0.attprojw,
        w.attprojw,
        v.attprojw,
    );
    lemma_attention_gradient_unique(
        a.qkv,
        a.att,
        m.att,
        g.atty,
        c.batch_size as int,
        c.block_size as int,
        nh,
        hs as int,
        (g0.qkv, g0.preatt, g0.att),
        (q1, g.preatt, g.att),
        (q2, h.preatt, h.att),
    );
    lemma_rope_unique(true, n, c.block_size as int, nh, hs, q1, g.qkv, h.qkv);
    lemma_input_gradient_unique(g.qkv, p.qkvw, n, ch, 3 * ch, g0.ln1, g.ln1, h.ln1);
    lemma_weight_gradient_unique(g.qkv, a.ln1, n, ch, 3 * ch, w0.qkvw, w.qkvw, v.qkvw);
    lemma_norm_gradient_unique(inp, a.ln1_rstd, p.ln1w, g.ln1, n, ch, d1, x, y);
    lemma_norm_weight_gradient_unique(
        inp,
        a.ln1_rstd,
        g.ln1,
        n,
        ch,
        w0.ln1w,
        w.ln1w,
        v.ln1w,
    );
}

/// Backward from the losses to the residual stream behind the last layer has
/// one outcome.
proof fn lemma_head_gradient_unique<F: Scalar>(
    c: Config,
    params: Seq<F>,
    targets: Seq<u16>,
    acts: Seq<F>,
    z: Seq<F>,
    zw: Seq<F>,
    gacts1: Seq<F>,
    grads1: Seq<F>,
    gacts2: Seq<F>,
    grads2: Seq<F>,
)
    requires
        single_valued::<F>(),
        c.runs(),
        acts.len() == c.act_total(),
        head_gradient_is(c, params, targets, acts, z, zw, gacts1, grads1),
        head_gradient_is(c, params, targets, acts, z, zw, gacts2, grads2),
    ensures
        stream(c, gacts1, c.n_layer as int) == stream(c, gacts2, c.n_layer as int),
        param_layout(c).lm_head.of(grads1) == param_layout(c).lm_head.of(grads2),
        param_layout(c).lnfw.of(grads1) == param_layout(c).lnfw.of(grads2),
{
    let al = act_layout(c);
    let pl = param_layout(c);
    let n = c.tokens();
    let ch = c.n_embd as int;
    let v = c.vocab_size as int;
    let last = c.n_layer as int;
    lemma_act_sizes(c);
    lemma_act_layout(c);
    let probs = al.probs.of(acts);
    let d = al.logits.of(z);
    let (c1, m1) = choose|count: F, dmean: F| #[trigger]
        ratio_is(n as usize, 1, count) && reciprocal_is(count, dmean) && #[trigger]
        logit_gradient_is(probs, targets, n, v, dmean, d, al.logits.of(gacts1));
    let (c2, m2) = choose|count: F, dmean: F| #[trigger]
        ratio_is(n as usize, 1, count) && reciprocal_is(count, dmean) && #[trigger]
        logit_gradient_is(probs, targets, n, v, dmean, d, al.logits.of(gacts2));
    assert(c1 == c2);
    lemma_reciprocal_unique(c1, m1, m2);
    lemma_logit_gradient_unique(
        probs,
        targets,
        n,
        v,
        m1,
        d,
        al.logits.of(gacts1),
        al.logits.of(gacts2),
    );
    lemma_input_gradient_unique(
        al.logits.of(gacts1),
        pl.lm_head.of(params),
        n,
        ch,
        v,
        al.lnf.of(z),
        al.lnf.of(gacts1),
        al.lnf.of(gacts2),
    );
    lemma_weight_gradient_unique(
        al.logits.of(gacts1),
        al.lnf.of(acts),
        n,
        ch,
        v,
        pl.lm_head.of(zw),
        pl.lm_head.of(grads1),
        pl.lm_head.of(grads2),
    );
    lemma_norm_gradient_unique(
        stream(c, acts, last),
        al.lnf_rstd.of(acts),
        pl.lnfw.of(params),
        al.lnf.of(gacts1),
        n,
        ch,
        stream(c, z, last),
        stream(c, gacts1, last),
        stream(c, gacts2, last),
    );
    lemma_norm_weight_gradient_unique(
        stream(c, acts, last),
        al.lnf_rstd.of(acts),
        al.lnf.of(gacts1),
        n,
        ch,
        pl.lnfw.of(zw),
        pl.lnfw.of(grads1),
        pl.lnfw.of(grads2),
    );
}

/// The gradients of the residual stream before layer `l`, and those of the
/// parameters of the layers from `l` on, have one outcome.
proof fn lemma_layers_gradient_unique<F: Scalar>(
    c: Config,
    params: Seq<F>,
    ids: Seq<u16>,
    targets: Seq<u16>,
    masks: Option<Seq<F>>,
    acts: Seq<F>,
    z: Seq<F>,
    zw: Seq<F>,
    d1: Seq<F>,
    grads1: Seq<F>,
    gacts1: Seq<F>,
    d2: Seq<F>,
    grads2: Seq<F>,
    gacts2: Seq<F>,
    l: int,
)
    requires
        single_valued::<F>(),
        c.runs(),
        acts.len() == c.act_total(),
        backward_with(c, params, ids, targets, masks, acts, z, zw, d1, grads1, gacts1),
        backward_with(c, params, ids, targets, masks, acts, z, zw, d2, grads2, gacts2),
        0 <= l <= c.n_layer,
    ensures
        grad_stream(c, gacts1, d1, l) == grad_stream(c, gacts2, d2, l),
        forall|q: int|
            l <= q < c.n_layer ==> #[trigger] layer_params(c, grads1, q) == layer_params(
                c,
                grads2,
                q,
            ),
    decreases c.n_layer - l,
{
    if l == c.n_layer {
        lemma_head_gradient_unique(
            c,
            params,
            targets,
            acts,
            z,
            zw,
            gacts1,
            grads1,
            gacts2,
            grads2,
        );
    } else {
        lemma_layers_gradient_unique(
            c,
            params,
            ids,
            targets,
            masks,
            acts,
            z,
            zw,
            d1,
            grads1,
            gacts1,
            d2,
            grads2,
            gacts2,
            l + 1,
        );
        let p = layer_params(c, params, l);
        let m = layer_masks(c, masks, l);
        let inp = stream(c, acts, l);
        let a = layer_acts(c, acts, l);
        let g0 = layer_acts(c, z, l);
        let w0 = layer_params(c, zw, l);
        let d_inp0 = stream(c, z, l);
        let d_out = grad_stream(c, gacts1, d1, l + 1);
        let g = layer_acts(c, gacts1, l);
        let h = layer_acts(c, gacts2, l);
        let w = layer_params(c, grads1, l);
        let v = layer_params(c, grads2, l);
        let x = grad_stream(c, gacts1, d1, l);
        let y = grad_stream(c, gacts2, d2, l);
        assert(layer_gradient_is(c, p, m, inp, a, g0, d_out, d_inp0, g, x, w0, w));
        assert(layer_gradient_is(c, p, m, inp, a, g0, d_out, d_inp0, h, y, w0, v));
        lemma_fed_forward_gradient_unique(c, p, m, a, g0, d_out, w0, g, w, h, v);
        lemma_attended_gradient_unique(c, p, m, inp, a, g0, d_inp0, w0, g, x, w, h, y, v);
        assert(w =~= v);
    }
}

/// A span of slots is known by the slots.
proof fn lemma_slots_join<T>(a: Seq<T>, b: Seq<T>, base: usize, count: int, n: int)
    requires
        0 <= count,
        0 <= n,
        base + count * n <= a.len(),
        a.len() == b.len(),
        forall|l: int| 0 <= l < count ==> #[trigger] slot(a, base, l, n) == slot(b, base, l, n),
    ensures
        forall|i: int| base <= i < base + count * n ==> #[trigger] a[i] == b[i],
{
    assert forall|i: int| base <= i < base + count * n implies #[trigger] a[i] == b[i] by {
        if n == 0 {
            assert(count * n == 0);
        } else {
            lemma_unslot(i - base, count, n);
            let l = (i - base) / n;
            let k = (i - base) % n;
            lemma_row_bounds(l, count, n);
            assert(slot(a, base, l, n) == slot(b, base, l, n));
            assert(a[i] == slot(a, base, l, n)[k]);
            assert(b[i] == slot(b, base, l, n)[k]);
        }
    }
}

/// A span is known by its values.
proof fn lemma_span_same<T>(a: Seq<T>, b: Seq<T>, o: Off)
    requires
        o.off + o.len <= a.len(),
        a.len() == b.len(),
        o.of(a) == o.of(b),
    ensures
        forall|i: int| o.off <= i < o.off + o.len ==> #[trigger] a[i] == b[i],
{
    assert forall|i: int| o.off <= i < o.off + o.len implies #[trigger] a[i] == b[i] by {
        assert(a[i] == o.of(a)[i - o.off]);
        assert(b[i] == o.of(b)[i - o.off]);
    }
}

/// The backward pass is deterministic, and its gradients start from zero: the
/// same parameters, batch, keep factors and activations give the same parameter
/// gradients, whatever the buffers held before.
pub proof fn lemma_backward_deterministic<F: Scalar>(
    c: Config,
    params: Seq<F>,
    ids: Seq<u16>,
    targets: Seq<u16>,
    masks: Option<Seq<F>>,
    acts: Seq<F>,
    grads1: Seq<F>,
    gacts1: Seq<F>,
    grads2: Seq<F>,
    gacts2: Seq<F>,
)
    requires
        single_valued::<F>(),
        c.runs(),
        acts.len() == c.act_total(),
        backward_is(c, params, ids, targets, masks, acts, grads1, gacts1),
        backward_is(c, params, ids, targets, masks, acts, grads2, gacts2),
    ensures
        grads1 == grads2,
{
    reveal(backward_is);
    let (z1, v1, d1) = choose|z: Seq<F>, zw: Seq<F>, d0: Seq<F>| #[trigger]
        backward_with(c, params, ids, targets, masks, acts, z, zw, d0, grads1, gacts1);
    let (z2, v2, d2) = choose|z: Seq<F>, zw: Seq<F>, d0: Seq<F>| #[trigger]
        backward_with(c, params, ids, targets, masks, acts, z, zw, d0, grads2, gacts2);
    assert forall|i: int| 0 <= i < z1.len() implies z1[i] == z2[i] by {
        assert(is_zero(z1[i]) && is_zero(z2[i]));
    }
    assert(z1 =~= z2);
    assert forall|i: int| 0 <= i < v1.len() implies v1[i] == v2[i] by {
        assert(is_zero(v1[i]) && is_zero(v2[i]));
    }
    assert(v1 =~= v2);
    lemma_layers_gradient_unique(
        c,
        params,
        ids,
        targets,
        masks,
        acts,
        z1,
        v1,
        d1,
        grads1,
        gacts1,
        d2,
        grads2,
        gacts2,
        0,
    );
    lemma_head_gradient_unique(
        c,
        params,
        targets,
        acts,
        z1,
        v1,
        gacts1,
        grads1,
        gacts2,
        grads2,
    );
    lemma_dropped_unique(d1, encoded_mask(c, masks), stream(c, gacts1, 0), stream(c, gacts2, 0));
    let pl = param_layout(c);
    lemma_scatter_unique(
        ids,
        stream(c, gacts1, 0),
        c.vocab_size as int,
        c.n_embd as int,
        pl.wte.of(v1),
        pl.wte.of(grads1),
        pl.wte.of(grads2),
    );
    lemma_params_join(c, grads1, grads2);
}

/// A parameter buffer is known by its tensors.
proof fn lemma_params_join<T>(c: Config, a: Seq<T>, b: Seq<T>)
    requires
        c.runs(),
        a.len() == c.param_total(),
        b.len() == c.param_total(),
        param_layout(c).wte.of(a) == param_layout(c).wte.of(b),
        param_layout(c).lnfw.of(a) == param_layout(c).lnfw.of(b),
        param_layout(c).lm_head.of(a) == param_layout(c).lm_head.of(b),
        forall|l: int|
            0 <= l < c.n_layer ==> #[trigger] layer_params(c, a, l) == layer_params(c, b, l),
    ensures
        a == b,
{
    let pl = param_layout(c);
    let n = c.n_layer as int;
    lemma_param_layout(c);
    lemma_param_sizes(c);
    lemma_span_same(a, b, pl.wte);
    lemma_span_same(a, b, pl.lnfw);
    lemma_span_same(a, b, pl.lm_head);
    assert forall|l: int| 0 <= l < n implies #[trigger] slot(
        a,
        pl.ln1w.off,
        l,
        c.n_embd as int,
    ) == slot(b, pl.ln1w.off, l, c.n_embd as int) by {
        assert(layer_params(c, a, l) == layer_params(c, b, l));
    }
    assert forall|l: int| 0 <= l < n implies #[trigger] slot(
        a,
        pl.qkvw.off,
        l,
        c.qkv_weights(),
    ) == slot(b, pl.qkvw.off, l, c.qkv_weights()) by {
        assert(layer_params(c, a, l) == layer_params(c, b, l));
    }
    assert forall|l: int| 0 <= l < n implies #[trigger] slot(
        a,
        pl.attprojw.off,
        l,
        c.square_weights(),
    ) == slot(b, pl.attprojw.off, l, c.square_weights()) by {
        assert(layer_params(c, a, l) == layer_params(c, b, l));
    }
    assert forall|l: int| 0 <= l < n implies #[trigger] slot(
        a,
        pl.ln2w.off,
        l,
        c.n_embd as int,
    ) == slot(b, pl.ln2w.off, l, c.n_embd as int) by {
        assert(layer_params(c, a, l) == layer_params(c, b, l));
    }
    assert forall|l: int| 0 <= l < n implies #[trigger] slot(
        a,
        pl.w1.off,
        l,
        c.hidden_weights(),
    ) == slot(b, pl.w1.off, l, c.hidden_weights()) by {
        assert(layer_params(c, a, l) == layer_params(c, b, l));
    }
    assert forall|l: int| 0 <= l < n implies #[trigger] slot(
        a,
        pl.w3.off,
        l,
        c.hidden_weights(),
    ) == slot(b, pl.w3.off, l, c.hidden_weights()) by {
        assert(layer_params(c, a, l) == layer_params(c, b, l));
    }
    assert forall|l: int| 0 <= l < n implies #[trigger] slot(
        a,
        pl.w2.off,
        l,
        c.hidden_weights(),
    ) == slot(b, pl.w2.off, l, c.hidden_weights()) by {
        assert(layer_params(c, a, l) == layer_params(c, b, l));
    }
    lemma_slots_join(a, b, pl.ln1w.off, n, c.n_embd as int);
    lemma_slots_join(a, b, pl.qkvw.off, n, c.qkv_weights());
    lemma_slots_join(a, b, pl.attprojw.off, n, c.square_weights());
    lemma_slots_join(a, b, pl.ln2w.off, n, c.n_embd as int);
    lemma_slots_join(a, b, pl.w1.off, n, c.hidden_weights());
    lemma_slots_join(a, b, pl.w3.off, n, c.hidden_weights());
    lemma_slots_join(a, b, pl.w2.off, n, c.hidden_weights());
    assert(a =~= b);
}

} // verus!
