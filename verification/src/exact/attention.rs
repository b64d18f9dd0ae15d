//! What holds of the attention where the arithmetic is exact.

use vstd::prelude::*;

use crate::arena::{lemma_row_bounds, lemma_slot, row};
use crate::exact::{exact, lemma_normalised};
use crate::layout::lemma_nonneg;
use crate::ops::attention::{
    attends_is, attention_is, attention_scaled_is, guarded_reciprocal_is, head_row, mask_batch,
    mask_row, packed, scale_is, weights_are,
};
use crate::ops::attention_backward::{
    attends_gradient_is, attends_gradient_with, attention_gradient_batch_is, attention_gradient_is,
    attention_gradient_scaled_is, attention_gradient_with, keep_factors_are, score_steps,
    softmax_slope_is,
};
use crate::ops::loss::{peak_is, shifted_exps_are};
use crate::ops::pointwise::each_times_is;
use crate::scalar::{fold_is, is_zero, mul_add_is, total_is, Scalar};
use crate::sums::{
    lemma_sum_add, lemma_sum_one, lemma_sum_parts, lemma_sum_same, lemma_sum_scale, lemma_sum_swap,
    lemma_sum_zero, sum_to, times, total_of,
};

verus! {

/// The weights of a position sum to one.
pub proof fn lemma_weights_sum_to_one<F: Scalar>(val: spec_fn(F) -> real, x: Seq<F>, y: Seq<F>)
    requires
        exact(val),
        0 < x.len(),
        weights_are(x, y),
    ensures
        y.len() == x.len(),
        total_of(val, y) == 1 as real,
{
    let (m, e, s, inv) = choose|m: F, e: Seq<F>, s: F, inv: F|
        #[trigger] peak_is(x, m) && #[trigger] shifted_exps_are(x, m, e) && #[trigger] total_is(
            e,
            s,
        ) && #[trigger] guarded_reciprocal_is(s, inv) && each_times_is(e, inv, y);
    lemma_normalised(val, x, m, e, s, inv, y);
}

/// A row whose end is zero sums to what its beginning sums to.
proof fn lemma_total_head<F: Scalar>(val: spec_fn(F) -> real, x: Seq<F>, n: int)
    requires
        exact(val),
        0 <= n <= x.len(),
        forall|i: int| n <= i < x.len() ==> is_zero(#[trigger] x[i]),
    ensures
        total_of(val, x) == total_of(val, x.subrange(0, n)),
{
    let m = (x.len() - n) as nat;
    let f = |i: int| val(x[i]);
    lemma_sum_parts(n as nat, m, f);
    lemma_sum_zero(m, |i: int| f(n as nat + i));
    lemma_sum_same(n as nat, f, |i: int| val(x.subrange(0, n)[i]));
    lemma_sum_same(x.len(), f, |i: int| val(x[i]));
}

/// Where the attention of one batch row keeps a row of a head and position.
proof fn lemma_head_row<F>(s: Seq<F>, h: int, ti: int, t: int, nh: int)
    requires
        0 <= h < nh,
        0 <= ti < t,
        s.len() == (nh * t) * t,
    ensures
        head_row(s, h, ti, t).len() == t,
{
    lemma_slot(h, ti, nh, t);
    lemma_row_bounds(h * t + ti, nh * t, t);
}

/// What a head does at a position, and its scale.
proof fn attends<F: Scalar>(
    inp: Seq<F>,
    mask: Option<Seq<F>>,
    b: int,
    t: int,
    nh: int,
    hs: int,
    out: Seq<F>,
    pre: Seq<F>,
    att: Seq<F>,
    bi: int,
    h: int,
    ti: int,
) -> (scale: F)
    requires
        0 <= bi < b,
        0 <= h < nh,
        0 <= ti < t,
        attention_is(inp, mask, b, t, nh, hs, out, pre, att),
    ensures
        scale_is(hs, scale),
        attends_is(
            row(inp, bi, t * packed(nh, hs)),
            scale,
            t,
            nh,
            hs,
            h,
            ti,
            head_row(row(pre, bi, (nh * t) * t), h, ti, t),
            head_row(row(att, bi, (nh * t) * t), h, ti, t),
        ),
{
    reveal(attention_is);
    let scale = choose|scale: F| #[trigger]
        scale_is(hs, scale) && attention_scaled_is(inp, mask, scale, b, t, nh, hs, out, pre, att);
    let p = row(pre, bi, (nh * t) * t);
    let q = head_row(p, h, ti, t);
    scale
}

/// The weights of a position sum to one over the positions that it sees.
proof fn lemma_seen_weights<F: Scalar>(
    val: spec_fn(F) -> real,
    inp: Seq<F>,
    scale: F,
    t: int,
    nh: int,
    hs: int,
    h: int,
    ti: int,
    pre: Seq<F>,
    att: Seq<F>,
)
    requires
        exact(val),
        0 <= ti < t,
        attends_is(inp, scale, t, nh, hs, h, ti, pre, att),
    ensures
        sum_to((ti + 1) as nat, |i: int| val(att[i])) == 1 as real,
        total_of(val, att) == 1 as real,
{
    let seen = att.subrange(0, ti + 1);
    lemma_weights_sum_to_one(val, pre.subrange(0, ti + 1), seen);
    lemma_total_head(val, att, ti + 1);
    lemma_sum_same((ti + 1) as nat, |i: int| val(seen[i]), |i: int| val(att[i]));
}

/// In exact arithmetic the weights that a head gives at a position sum to one.
pub proof fn lemma_attention_weights_sum_to_one<F: Scalar>(
    val: spec_fn(F) -> real,
    inp: Seq<F>,
    mask: Option<Seq<F>>,
    b: int,
    t: int,
    nh: int,
    hs: int,
    out: Seq<F>,
    pre: Seq<F>,
    att: Seq<F>,
    bi: int,
    h: int,
    ti: int,
)
    requires
        exact(val),
        0 <= bi < b,
        0 <= h < nh,
        0 <= ti < t,
        attention_is(inp, mask, b, t, nh, hs, out, pre, att),
    ensures
        total_of(val, head_row(row(att, bi, (nh * t) * t), h, ti, t)) == 1 as real,
{
    let ca = (nh * t) * t;
    let scale = attends(inp, mask, b, t, nh, hs, out, pre, att, bi, h, ti);
    lemma_seen_weights(
        val,
        row(inp, bi, t * packed(nh, hs)),
        scale,
        t,
        nh,
        hs,
        h,
        ti,
        head_row(row(pre, bi, ca), h, ti, t),
        head_row(row(att, bi, ca), h, ti, t),
    );
}

/// The number that `att[t2] * (1{t2 = t3} - att[t3])` stands for.
pub open spec fn slope<F>(val: spec_fn(F) -> real, att: Seq<F>, t2: int, t3: int) -> real {
    times(
        val(att[t2]),
        (if t2 == t3 {
            1 as real
        } else {
            0 as real
        }) - val(att[t3]),
    )
}

/// One score gradient, as a sum over the weights.
pub(crate) proof fn lemma_score_gradient_value<F: Scalar>(
    val: spec_fn(F) -> real,
    n: nat,
    init: F,
    att: Seq<F>,
    datt: Seq<F>,
    t3: int,
    r: F,
)
    requires
        exact(val),
        fold_is(n, init, score_steps(att, datt, t3), r),
    ensures
        val(r) == val(init) + sum_to(
            n,
            |t2: int| times(slope(val, att, t2, t3), val(datt[t2])),
        ),
    decreases n,
{
    if n > 0 {
        let k = (n - 1) as nat;
        let step = score_steps(att, datt, t3);
        let p = choose|p: F| fold_is(k, init, step, p) && #[trigger] step(k, p, r);
        lemma_score_gradient_value(val, k, init, att, datt, t3, p);
        let local = choose|local: F| #[trigger]
            softmax_slope_is(att, k as int, t3, local) && mul_add_is(
                p,
                local,
                datt[k as int],
                r,
            );
        assert(val(local) == slope(val, att, k as int, t3));
    }
}

/// The slopes of a weight by all the scores sum to zero.
proof fn lemma_slopes_sum_to_zero<F: Scalar>(val: spec_fn(F) -> real, att: Seq<F>, n: nat, t2: int)
    requires
        0 <= t2 < n,
        sum_to(n, |i: int| val(att[i])) == 1 as real,
    ensures
        sum_to(n, |t3: int| slope(val, att, t2, t3)) == 0 as real,
{
    let af = |i: int| val(att[i]);
    let minus = |i: int| times(-(1 as real), af(i));
    lemma_sum_scale(n, -(1 as real), af, minus);
    let hit = |i: int|
        if t2 == i {
            1 as real
        } else {
            0 as real
        };
    lemma_sum_one(n, t2, hit);
    let diff = |i: int| hit(i) + minus(i);
    lemma_sum_add(n, hit, minus, diff);
    lemma_sum_same(n, af, |i: int| val(att[i]));
    let k = af(t2);
    let slopes = |t3: int| slope(val, att, t2, t3);
    assert forall|i: int| 0 <= i < n implies #[trigger] slopes(i) == times(k, diff(i)) by {
        let a = af(i);
        assert(-(1 as real) * a == -a) by (nonlinear_arith);
    }
    lemma_sum_scale(n, k, diff, slopes);
    assert(k * 0 as real == 0 as real) by (nonlinear_arith);
}

/// The score gradients of a position sum to what they summed to before.
proof fn lemma_score_row_sums<F: Scalar>(
    val: spec_fn(F) -> real,
    att: Seq<F>,
    datt: Seq<F>,
    n: nat,
    old_d: Seq<F>,
    new_d: Seq<F>,
)
    requires
        exact(val),
        sum_to(n, |i: int| val(att[i])) == 1 as real,
        n <= old_d.len(),
        new_d.len() == old_d.len(),
        forall|t3: int|
            0 <= t3 < n ==> fold_is(
                n,
                old_d[t3],
                score_steps(att, datt, t3),
                #[trigger] new_d[t3],
            ),
        forall|t3: int| n <= t3 < new_d.len() ==> #[trigger] new_d[t3] == old_d[t3],
    ensures
        total_of(val, new_d) == total_of(val, old_d),
{
    let of = |i: int| val(old_d[i]);
    let nf = |i: int| val(new_d[i]);
    let at = |t2: int, t3: int| times(slope(val, att, t2, t3), val(datt[t2]));
    let added = |t3: int| sum_to(n, |t2: int| at(t2, t3));
    assert forall|t3: int| 0 <= t3 < n implies #[trigger] nf(t3) == of(t3) + added(t3) by {
        lemma_score_gradient_value(val, n, old_d[t3], att, datt, t3, new_d[t3]);
        lemma_sum_same(
            n,
            |t2: int| times(slope(val, att, t2, t3), val(datt[t2])),
            |t2: int| at(t2, t3),
        );
    }
    lemma_sum_add(n, of, added, nf);
    lemma_sum_swap(n, n, at);
    let by_weight = |t2: int| sum_to(n, |t3: int| at(t2, t3));
    assert forall|t2: int| 0 <= t2 < n implies #[trigger] by_weight(t2) == 0 as real by {
        lemma_slopes_sum_to_zero(val, att, n, t2);
        let d = val(datt[t2]);
        let f = |t3: int| slope(val, att, t2, t3);
        let g = |t3: int| at(t2, t3);
        assert forall|t3: int| 0 <= t3 < n implies #[trigger] g(t3) == times(d, f(t3)) by {
            let s = f(t3);
            assert(s * d == d * s) by (nonlinear_arith);
        }
        lemma_sum_scale(n, d, f, g);
        assert(d * 0 as real == 0 as real) by (nonlinear_arith);
    }
    lemma_sum_zero(n, by_weight);
    lemma_sum_same(n, |t3: int| sum_to(n, |t2: int| at(t2, t3)), added);
    let m = (new_d.len() - n) as nat;
    lemma_sum_parts(n, m, of);
    lemma_sum_parts(n, m, nf);
    let behind_of = |i: int| of(n + i);
    let behind_nf = |i: int| nf(n + i);
    assert forall|i: int| 0 <= i < m implies #[trigger] behind_nf(i) == behind_of(i) by {
        assert(new_d[n + i] == old_d[n + i]);
    }
    lemma_sum_same(m, behind_nf, behind_of);
    lemma_sum_same(new_d.len(), nf, |i: int| val(new_d[i]));
    lemma_sum_same(old_d.len(), of, |i: int| val(old_d[i]));
}

/// In exact arithmetic what the backward pass adds to the score gradients of a
/// head at a position adds up to nothing.
pub proof fn lemma_score_gradients_sum_to_zero<F: Scalar>(
    val: spec_fn(F) -> real,
    inp: Seq<F>,
    mask: Option<Seq<F>>,
    b: int,
    t: int,
    nh: int,
    hs: int,
    out: Seq<F>,
    pre: Seq<F>,
    att: Seq<F>,
    dout: Seq<F>,
    old_d: (Seq<F>, Seq<F>, Seq<F>),
    new_d: (Seq<F>, Seq<F>, Seq<F>),
    bi: int,
    h: int,
    ti: int,
)
    requires
        exact(val),
        0 <= bi < b,
        0 <= h < nh,
        0 <= ti < t,
        old_d.1.len() == b * ((nh * t) * t),
        attention_is(inp, mask, b, t, nh, hs, out, pre, att),
        attention_gradient_is(inp, att, mask, dout, b, t, nh, hs, old_d, new_d),
    ensures
        total_of(val, head_row(row(new_d.1, bi, (nh * t) * t), h, ti, t)) == total_of(
            val,
            head_row(row(old_d.1, bi, (nh * t) * t), h, ti, t),
        ),
{
    let ci = t * packed(nh, hs);
    let ca = (nh * t) * t;
    let scale = attends(inp, mask, b, t, nh, hs, out, pre, att, bi, h, ti);
    let a = head_row(row(att, bi, ca), h, ti, t);
    lemma_seen_weights(
        val,
        row(inp, bi, ci),
        scale,
        t,
        nh,
        hs,
        h,
        ti,
        head_row(row(pre, bi, ca), h, ti, t),
        a,
    );
    lemma_nonneg(nh, t);
    lemma_nonneg(nh * t, t);
    lemma_row_bounds(bi, b, ca);
    lemma_head_row(row(old_d.1, bi, ca), h, ti, t, nh);
    reveal(attention_gradient_is);
    let scale = choose|scale: F| #[trigger]
        scale_is(hs, scale) && attention_gradient_scaled_is(
            inp,
            att,
            mask,
            dout,
            scale,
            b,
            t,
            nh,
            hs,
            old_d,
            new_d,
        );
    let o = (row(old_d.0, bi, ci), row(old_d.1, bi, ca), row(old_d.2, bi, ca));
    let n = (row(new_d.0, bi, ci), row(new_d.1, bi, ca), row(new_d.2, bi, ca));
    lemma_score_row(
        val,
        row(inp, bi, ci),
        row(att, bi, ca),
        mask_batch(mask, bi, ca),
        row(dout, bi, t * (nh * hs)),
        scale,
        t,
        nh,
        hs,
        o,
        n,
        h,
        ti,
    );
}

/// The same in one batch row.
proof fn lemma_score_row<F: Scalar>(
    val: spec_fn(F) -> real,
    inp: Seq<F>,
    att: Seq<F>,
    mask: Option<Seq<F>>,
    dout: Seq<F>,
    scale: F,
    t: int,
    nh: int,
    hs: int,
    old_d: (Seq<F>, Seq<F>, Seq<F>),
    new_d: (Seq<F>, Seq<F>, Seq<F>),
    h: int,
    ti: int,
)
    requires
        exact(val),
        0 <= h < nh,
        0 <= ti < t,
        head_row(old_d.1, h, ti, t).len() == t,
        sum_to((ti + 1) as nat, |i: int| val(head_row(att, h, ti, t)[i])) == 1 as real,
        attention_gradient_batch_is(inp, att, mask, dout, scale, t, nh, hs, old_d, new_d),
    ensures
        total_of(val, head_row(new_d.1, h, ti, t)) == total_of(val, head_row(old_d.1, h, ti, t)),
{
    let (kept, dpres) = choose|kept: Seq<Seq<F>>, dpres: Seq<Seq<F>>| #[trigger]
        attention_gradient_with(
            inp,
            att,
            mask,
            dout,
            scale,
            t,
            nh,
            hs,
            old_d,
            new_d,
            kept,
            dpres,
        );
    let a = head_row(att, h, ti, t);
    let o = head_row(old_d.1, h, ti, t);
    let n = head_row(new_d.1, h, ti, t);
    let g = head_row(new_d.2, h, ti, t);
    let og = head_row(old_d.2, h, ti, t);
    let m = mask_row(mask, h, ti, t);
    let ws = kept[h * t + ti];
    let dpre = dpres[h * t + ti];
    assert(attends_gradient_is(inp, a, m, dout, scale, t, nh, hs, h, ti, og, g, o, n, ws, dpre));
    let f = choose|f: Seq<F>| #[trigger]
        keep_factors_are(m, ti, f) && attends_gradient_with(
            inp,
            a,
            f,
            dout,
            scale,
            t,
            nh,
            hs,
            h,
            ti,
            og,
            g,
            o,
            n,
            ws,
            dpre,
        );
    lemma_score_row_sums(val, a, g, (ti + 1) as nat, o, n);
}

} // verus!
