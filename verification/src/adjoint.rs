//! Backward operations as the adjoints of forward ones, in exact arithmetic.
//!
//! A linear operation from `x` to `y` and its backward, which takes a gradient
//! `d` of `y` to a gradient `g` of `x`, belong together where `d` and `y` have
//! the inner product that `g` and `x` have. Gradients start from zero.

use vstd::prelude::*;

use crate::arena::{lemma_row_bounds, row};
use crate::exact::exact;
use crate::layout::lemma_nonneg;
use crate::model::backward::all_zero;
use crate::model::unique::{lemma_turns_unique, single_valued};
use crate::ops::embed::{embedding_is, scatter_is, scatter_steps};
use crate::ops::linear::{
    column, input_gradient_is, input_gradient_row_is, linear_is, linear_row_is, unit_is,
    weight_gradient_is, weight_gradient_row_is,
};
use crate::ops::loss::ids_below;
use crate::ops::norm::{
    norm_weight_gradient_is, norm_weight_steps, normed_at, rmsnorm_is, rmsnorm_row_is,
};
use crate::ops::pointwise::{
    scaled_is, sigmoid_is, silu_slope_is, sums_are, swiglu_at, swiglu_gradient_at,
    swiglu_gradient_is, swiglu_is,
};
use crate::ops::rope::{
    head_turned_is, heads_turned_are, rope_is, rope_row_is, rotated_back_is, rotated_is, turns_are,
};
use crate::scalar::{
    dot_from_is, exp_is, fold_is, is_one, is_zero, negation_is, product_is, quotient_is, sum_is,
    Scalar,
};
use crate::sums::{
    inner, lemma_dot_value, lemma_sum_add, lemma_sum_one, lemma_sum_parts, lemma_sum_rows,
    lemma_sum_same, lemma_sum_scale, lemma_sum_swap, lemma_transpose, sum_to, times,
};

pub mod attention;

verus! {

/// The inner product over a matrix is the sum of those over its rows.
proof fn lemma_inner_rows<F>(val: spec_fn(F) -> real, x: Seq<F>, y: Seq<F>, n: int, c: int)
    requires
        0 <= n,
        0 <= c,
        x.len() == n * c,
        y.len() == n * c,
    ensures
        inner(val, x, y) == sum_to(n as nat, |r: int| inner(val, row(x, r, c), row(y, r, c))),
{
    let f = |p: int| times(val(x[p]), val(y[p]));
    lemma_sum_rows(n as nat, c as nat, f);
    let by_rows = |r: int| sum_to(c as nat, |i: int| f(r * (c as nat) + i));
    let inners = |r: int| inner(val, row(x, r, c), row(y, r, c));
    assert forall|r: int| 0 <= r < n implies #[trigger] by_rows(r) == inners(r) by {
        lemma_row_bounds(r, n, c);
        lemma_sum_same(
            c as nat,
            |i: int| f(r * (c as nat) + i),
            |i: int| times(val(row(x, r, c)[i]), val(row(y, r, c)[i])),
        );
    }
    lemma_sum_same(n as nat, by_rows, inners);
}

/// Rows with the same inner products make matrices with the same.
proof fn lemma_inner_by_rows<F>(
    val: spec_fn(F) -> real,
    a: Seq<F>,
    b: Seq<F>,
    c: int,
    x: Seq<F>,
    y: Seq<F>,
    e: int,
    n: int,
)
    requires
        0 <= n,
        0 <= c,
        0 <= e,
        a.len() == n * c,
        b.len() == n * c,
        x.len() == n * e,
        y.len() == n * e,
        forall|r: int|
            0 <= r < n ==> inner(val, #[trigger] row(a, r, c), row(b, r, c)) == inner(
                val,
                row(x, r, e),
                row(y, r, e),
            ),
    ensures
        inner(val, a, b) == inner(val, x, y),
{
    lemma_inner_rows(val, a, b, n, c);
    lemma_inner_rows(val, x, y, n, e);
    let f = |r: int| inner(val, row(a, r, c), row(b, r, c));
    let g = |r: int| inner(val, row(x, r, e), row(y, r, e));
    assert forall|r: int| 0 <= r < n implies #[trigger] f(r) == g(r) by {
        let s = row(a, r, c);
        assert(inner(val, s, row(b, r, c)) == inner(val, row(x, r, e), row(y, r, e)));
    }
    lemma_sum_same(n as nat, f, g);
}

/// One output unit, as a sum.
proof fn lemma_unit_value<F: Scalar>(
    val: spec_fn(F) -> real,
    x: Seq<F>,
    w: Seq<F>,
    oc: int,
    o: int,
    r: F,
)
    requires
        exact(val),
        0 <= o < oc,
        w.len() == oc * x.len(),
        unit_is(x, row(w, o, x.len() as int), None, o, r),
    ensures
        val(r) == sum_to(x.len(), |i: int| times(val(x[i]), val(w[o * x.len() + i]))),
{
    let c = x.len() as int;
    let wo = row(w, o, c);
    lemma_row_bounds(o, oc, c);
    let z = choose|z: F| is_zero(z) && #[trigger] dot_from_is(z, x, wo, r);
    lemma_dot_value(val, x.len(), z, x, wo, r);
    lemma_sum_same(
        x.len(),
        |i: int| times(val(x[i]), val(wo[i])),
        |i: int| times(val(x[i]), val(w[o * x.len() + i])),
    );
}

/// The same with the factors the other way round.
proof fn lemma_unit_swapped<F: Scalar>(
    val: spec_fn(F) -> real,
    x: Seq<F>,
    w: Seq<F>,
    oc: int,
    o: int,
    r: F,
)
    requires
        exact(val),
        0 <= o < oc,
        w.len() == oc * x.len(),
        unit_is(x, row(w, o, x.len() as int), None, o, r),
    ensures
        val(r) == sum_to(x.len(), |i: int| times(val(w[o * x.len() + i]), val(x[i]))),
{
    lemma_unit_value(val, x, w, oc, o, r);
    let f = |i: int| times(val(x[i]), val(w[o * x.len() + i]));
    let g = |i: int| times(val(w[o * x.len() + i]), val(x[i]));
    assert forall|i: int| 0 <= i < x.len() implies #[trigger] f(i) == g(i) by {
        let (p, q) = (val(x[i]), val(w[o * x.len() + i]));
        assert(p * q == q * p) by (nonlinear_arith);
    }
    lemma_sum_same(x.len(), f, g);
}

proof fn lemma_linear_row_adjoint<F: Scalar>(
    val: spec_fn(F) -> real,
    w: Seq<F>,
    c: int,
    oc: int,
    x: Seq<F>,
    y: Seq<F>,
    d: Seq<F>,
    z: Seq<F>,
    g: Seq<F>,
)
    requires
        exact(val),
        0 <= c,
        0 <= oc,
        w.len() == oc * c,
        x.len() == c,
        d.len() == oc,
        z.len() == c,
        all_zero(z),
        linear_row_is(x, w, None, oc, y),
        input_gradient_row_is(d, w, c, z, g),
    ensures
        inner(val, d, y) == inner(val, g, x),
{
    let m = oc as nat;
    let k = c as nat;
    let wf = |o: int, i: int| val(w[o * c + i]);
    let df = |o: int| val(d[o]);
    let xf = |i: int| val(x[i]);
    let yf = |o: int| val(y[o]);
    let gf = |i: int| val(g[i]);
    assert forall|o: int| 0 <= o < m implies #[trigger] yf(o) == sum_to(
        k,
        |i: int| times(wf(o, i), xf(i)),
    ) by {
        assert(unit_is(x, row(w, o, c), None, o, y[o]));
        lemma_unit_swapped(val, x, w, oc, o, y[o]);
        lemma_sum_same(
            k,
            |i: int| times(val(w[o * x.len() + i]), val(x[i])),
            |i: int| times(wf(o, i), xf(i)),
        );
    }
    assert forall|i: int| 0 <= i < k implies #[trigger] gf(i) == sum_to(
        m,
        |o: int| times(wf(o, i), df(o)),
    ) by {
        let col = column(w, d.len() as int, c, i);
        assert(dot_from_is(z[i], col, d, g[i]));
        assert(is_zero(z[i]));
        lemma_dot_value(val, m, z[i], col, d, g[i]);
        lemma_sum_same(
            m,
            |o: int| times(val(col[o]), val(d[o])),
            |o: int| times(wf(o, i), df(o)),
        );
    }
    lemma_transpose(m, k, wf, df, xf, yf, gf);
    lemma_sum_same(
        m,
        |o: int| times(df(o), yf(o)),
        |i: int| times(val(d[i]), val(y[i])),
    );
    lemma_sum_same(
        k,
        |i: int| times(gf(i), xf(i)),
        |i: int| times(val(g[i]), val(x[i])),
    );
}

/// The input gradient of a linear layer is its adjoint: with gradients that
/// start from zero, the output gradient and the output have the inner product
/// that the input gradient and the input have.
pub proof fn lemma_linear_adjoint<F: Scalar>(
    val: spec_fn(F) -> real,
    w: Seq<F>,
    n: int,
    c: int,
    oc: int,
    inp: Seq<F>,
    out: Seq<F>,
    dout: Seq<F>,
    zeros: Seq<F>,
    dinp: Seq<F>,
)
    requires
        exact(val),
        0 <= n,
        0 <= c,
        0 <= oc,
        w.len() == oc * c,
        inp.len() == n * c,
        dout.len() == n * oc,
        zeros.len() == n * c,
        all_zero(zeros),
        linear_is(inp, w, None, n, c, oc, out),
        input_gradient_is(dout, w, n, c, oc, zeros, dinp),
    ensures
        inner(val, dout, out) == inner(val, dinp, inp),
{
    reveal(linear_is);
    reveal(input_gradient_is);
    assert forall|r: int| 0 <= r < n implies inner(
        val,
        #[trigger] row(dout, r, oc),
        row(out, r, oc),
    ) == inner(val, row(dinp, r, c), row(inp, r, c)) by {
        lemma_row_bounds(r, n, c);
        lemma_row_bounds(r, n, oc);
        let z = row(zeros, r, c);
        assert forall|i: int| 0 <= i < z.len() implies is_zero(#[trigger] z[i]) by {
            assert(is_zero(zeros[r * c + i]));
        }
        assert(linear_row_is(row(inp, r, c), w, None, oc, row(out, r, oc)));
        assert(input_gradient_row_is(row(dout, r, oc), w, c, z, row(dinp, r, c)));
        lemma_linear_row_adjoint(
            val,
            w,
            c,
            oc,
            row(inp, r, c),
            row(out, r, oc),
            row(dout, r, oc),
            z,
            row(dinp, r, c),
        );
    }
    lemma_inner_by_rows(val, dout, out, oc, dinp, inp, c, n);
}

/// The residual hands its gradient to both sides: the output gradient and the
/// output have the inner product that the two input gradients and the inputs
/// have together.
pub proof fn lemma_residual_adjoint<F: Scalar>(
    val: spec_fn(F) -> real,
    a: Seq<F>,
    b: Seq<F>,
    y: Seq<F>,
    d: Seq<F>,
    zeros: Seq<F>,
    da: Seq<F>,
    db: Seq<F>,
)
    requires
        exact(val),
        b.len() == a.len(),
        d.len() == a.len(),
        zeros.len() == a.len(),
        all_zero(zeros),
        sums_are(a, b, y),
        sums_are(zeros, d, da),
        sums_are(zeros, d, db),
    ensures
        inner(val, d, y) == inner(val, da, a) + inner(val, db, b),
{
    reveal(sums_are);
    let n = a.len();
    let f = |i: int| times(val(da[i]), val(a[i]));
    let g = |i: int| times(val(db[i]), val(b[i]));
    let h = |i: int| times(val(d[i]), val(y[i]));
    assert forall|i: int| 0 <= i < n implies #[trigger] h(i) == f(i) + g(i) by {
        assert(sum_is(a[i], b[i], y[i]));
        assert(is_zero(zeros[i]));
        assert(sum_is(zeros[i], d[i], da[i]) && sum_is(zeros[i], d[i], db[i]));
        let (k, p, q) = (val(d[i]), val(a[i]), val(b[i]));
        assert(k * (p + q) == k * p + k * q) by (nonlinear_arith);
    }
    lemma_sum_add(n, f, g, h);
    lemma_sum_same(n, f, |i: int| times(val(da[i]), val(a[i])));
    lemma_sum_same(n, g, |i: int| times(val(db[i]), val(b[i])));
    lemma_sum_same(n, h, |i: int| times(val(d[i]), val(y[i])));
}

/// Dropout is its own adjoint.
pub proof fn lemma_dropout_adjoint<F: Scalar>(
    val: spec_fn(F) -> real,
    m: Seq<F>,
    x: Seq<F>,
    y: Seq<F>,
    d: Seq<F>,
    g: Seq<F>,
)
    requires
        exact(val),
        d.len() == x.len(),
        scaled_is(x, m, y),
        scaled_is(d, m, g),
    ensures
        inner(val, d, y) == inner(val, g, x),
{
    let n = x.len();
    let f = |i: int| times(val(d[i]), val(y[i]));
    let h = |i: int| times(val(g[i]), val(x[i]));
    assert forall|i: int| 0 <= i < n implies #[trigger] f(i) == h(i) by {
        assert(product_is(x[i], m[i], y[i]) && product_is(d[i], m[i], g[i]));
        let (a, b, c) = (val(d[i]), val(x[i]), val(m[i]));
        assert(a * (b * c) == (a * c) * b) by (nonlinear_arith);
    }
    lemma_sum_same(n, f, h);
    lemma_sum_same(n, f, |i: int| times(val(d[i]), val(y[i])));
    lemma_sum_same(n, h, |i: int| times(val(g[i]), val(x[i])));
}

proof fn lemma_pair_adjoint<F: Scalar>(
    val: spec_fn(F) -> real,
    sc: (F, F),
    x1: F,
    x2: F,
    y1: F,
    y2: F,
    d1: F,
    d2: F,
    g1: F,
    g2: F,
)
    requires
        exact(val),
        rotated_is(x1, x2, sc, y1, y2),
        rotated_back_is(d1, d2, sc, g1, g2),
    ensures
        times(val(d1), val(y1)) + times(val(d2), val(y2)) == times(val(g1), val(x1)) + times(
            val(g2),
            val(x2),
        ),
{
    lemma_turn_adjoint(val(x1), val(x2), val(d1), val(d2), val(sc.0), val(sc.1));
}

/// The products of a turned pair with a gradient are those of the pair with the
/// gradient turned back.
proof fn lemma_turn_adjoint(x: real, y: real, d: real, e: real, s: real, c: real)
    ensures
        times(d, x * c - y * s) + times(e, x * s + y * c) == times(d * c + e * s, x) + times(
            (-d) * s + e * c,
            y,
        ),
{
    let xc = x * c;
    let ys = y * s;
    let xs = x * s;
    let yc = y * c;
    assert(d * (xc - ys) == d * xc - d * ys) by (nonlinear_arith);
    assert(e * (xs + yc) == e * xs + e * yc) by (nonlinear_arith);
    let dc = d * c;
    let es = e * s;
    let ds = (-d) * s;
    let ec = e * c;
    assert((dc + es) * x == dc * x + es * x) by (nonlinear_arith);
    assert((ds + ec) * y == ds * y + ec * y) by (nonlinear_arith);
    assert(d * (x * c) == (d * c) * x) by (nonlinear_arith);
    assert(-(d * (y * s)) == ((-d) * s) * y) by (nonlinear_arith);
    assert(e * (x * s) == (e * s) * x) by (nonlinear_arith);
    assert(e * (y * c) == (e * c) * y) by (nonlinear_arith);
}

proof fn lemma_head_adjoint<F: Scalar>(
    val: spec_fn(F) -> real,
    turns: Seq<(F, F)>,
    x: Seq<F>,
    y: Seq<F>,
    d: Seq<F>,
    g: Seq<F>,
)
    requires
        exact(val),
        x.len() == 2 * turns.len(),
        d.len() == x.len(),
        head_turned_is(false, turns, x, y),
        head_turned_is(true, turns, d, g),
    ensures
        inner(val, d, y) == inner(val, g, x),
{
    let n = turns.len();
    let f = |i: int| times(val(d[i]), val(y[i]));
    let h = |i: int| times(val(g[i]), val(x[i]));
    lemma_sum_parts(n, n, f);
    lemma_sum_parts(n, n, h);
    let f2 = |i: int| f(n + i);
    let h2 = |i: int| h(n + i);
    let both = |i: int| f(i) + f2(i);
    lemma_sum_add(n, f, f2, both);
    assert forall|i: int| 0 <= i < n implies #[trigger] both(i) == h(i) + h2(i) by {
        let sc = turns[i];
        let k = i + n;
        lemma_pair_adjoint(val, sc, x[i], x[k], y[i], y[k], d[i], d[k], g[i], g[k]);
    }
    lemma_sum_add(n, h, h2, both);
    lemma_sum_same(n, f2, |i: int| f(n + i));
    lemma_sum_same(n, h2, |i: int| h(n + i));
    lemma_sum_same(n + n, f, |i: int| times(val(d[i]), val(y[i])));
    lemma_sum_same(n + n, h, |i: int| times(val(g[i]), val(x[i])));
}

proof fn lemma_rope_row_adjoint<F: Scalar>(
    val: spec_fn(F) -> real,
    pos: usize,
    nh: int,
    hs: usize,
    x: Seq<F>,
    y: Seq<F>,
    d: Seq<F>,
    g: Seq<F>,
)
    requires
        exact(val),
        single_valued::<F>(),
        0 <= nh,
        hs % 2 == 0,
        x.len() == (3 * nh) * hs,
        d.len() == (3 * nh) * hs,
        rope_row_is(false, pos, nh, hs, x, y),
        rope_row_is(true, pos, nh, hs, d, g),
    ensures
        inner(val, d, y) == inner(val, g, x),
{
    let h = hs as int;
    let a = choose|a: Seq<(F, F)>| #[trigger]
        turns_are(pos, hs, a) && heads_turned_are(false, a, nh, h, x, y);
    let b = choose|b: Seq<(F, F)>| #[trigger]
        turns_are(pos, hs, b) && heads_turned_are(true, b, nh, h, d, g);
    lemma_turns_unique(pos, hs, a, b);
    assert forall|m: int| 0 <= m < 3 * nh implies inner(
        val,
        #[trigger] row(d, m, h),
        row(y, m, h),
    ) == inner(val, row(g, m, h), row(x, m, h)) by {
        lemma_row_bounds(m, 3 * nh, h);
        let ym = row(y, m, h);
        let gm = row(g, m, h);
        if m < 2 * nh {
            assert(head_turned_is(false, a, row(x, m, h), ym));
            assert(head_turned_is(true, a, row(d, m, h), gm));
            lemma_head_adjoint(val, a, row(x, m, h), ym, row(d, m, h), gm);
        } else {
            assert(ym == row(x, m, h));
            assert(gm == row(d, m, h));
        }
    }
    lemma_inner_by_rows(val, d, y, h, g, x, h, 3 * nh);
}

/// The backward of the rotary embedding is its adjoint.
pub proof fn lemma_rope_adjoint<F: Scalar>(
    val: spec_fn(F) -> real,
    n: int,
    t: int,
    nh: int,
    hs: usize,
    x: Seq<F>,
    y: Seq<F>,
    d: Seq<F>,
    g: Seq<F>,
)
    requires
        exact(val),
        single_valued::<F>(),
        0 <= n,
        0 <= nh,
        hs % 2 == 0,
        x.len() == n * ((3 * nh) * hs),
        d.len() == n * ((3 * nh) * hs),
        rope_is(false, n, t, nh, hs, x, y),
        rope_is(true, n, t, nh, hs, d, g),
    ensures
        inner(val, d, y) == inner(val, g, x),
{
    reveal(rope_is);
    let c3 = (3 * nh) * hs;
    lemma_nonneg(3 * nh, hs as int);
    assert forall|k: int| 0 <= k < n implies inner(
        val,
        #[trigger] row(d, k, c3),
        row(y, k, c3),
    ) == inner(val, row(g, k, c3), row(x, k, c3)) by {
        lemma_row_bounds(k, n, c3);
        let pos = (k % t) as usize;
        let yk = row(y, k, c3);
        let gk = row(g, k, c3);
        assert(rope_row_is(false, pos, nh, hs, row(x, k, c3), yk));
        assert(rope_row_is(true, pos, nh, hs, row(d, k, c3), gk));
        lemma_rope_row_adjoint(val, pos, nh, hs, row(x, k, c3), yk, row(d, k, c3), gk);
    }
    lemma_inner_by_rows(val, d, y, c3, g, x, c3, n);
}

/// The weight gradient of a linear layer is the adjoint of the layer as a
/// function of its weights: for any weights `v`, the output gradient and the
/// output with `v` have the inner product that the weight gradient and `v` have.
pub proof fn lemma_weights_adjoint<F: Scalar>(
    val: spec_fn(F) -> real,
    v: Seq<F>,
    n: int,
    c: int,
    oc: int,
    inp: Seq<F>,
    out: Seq<F>,
    dout: Seq<F>,
    zeros: Seq<F>,
    dw: Seq<F>,
)
    requires
        exact(val),
        0 <= n,
        0 <= c,
        0 <= oc,
        v.len() == oc * c,
        inp.len() == n * c,
        dout.len() == n * oc,
        zeros.len() == oc * c,
        all_zero(zeros),
        linear_is(inp, v, None, n, c, oc, out),
        weight_gradient_is(dout, inp, n, c, oc, zeros, dw),
    ensures
        inner(val, dout, out) == inner(val, dw, v),
{
    reveal(linear_is);
    reveal(weight_gradient_is);
    let m = n as nat;
    let k = oc as nat;
    let at = |r: int, o: int| times(val(dout[r * oc + o]), val(out[r * oc + o]));
    let f = |p: int| times(val(dout[p]), val(out[p]));
    lemma_sum_rows(m, k, f);
    let by_rows = |r: int| sum_to(k, |o: int| f(r * k + o));
    let rows = |r: int| sum_to(k, |o: int| at(r, o));
    assert forall|r: int| 0 <= r < m implies #[trigger] by_rows(r) == rows(r) by {
        lemma_sum_same(k, |o: int| f(r * k + o), |o: int| at(r, o));
    }
    lemma_sum_same(m, by_rows, rows);
    lemma_sum_swap(m, k, at);
    lemma_inner_rows(val, dw, v, oc, c);
    let units = |o: int| sum_to(m, |r: int| at(r, o));
    let inners = |o: int| inner(val, row(dw, o, c), row(v, o, c));
    assert forall|o: int| 0 <= o < k implies #[trigger] units(o) == inners(o) by {
        lemma_unit_weights_adjoint(val, v, n, c, oc, inp, out, dout, zeros, dw, o);
        lemma_sum_same(
            m,
            |r: int| at(r, o),
            |r: int| times(val(dout[r * oc + o]), val(out[r * oc + o])),
        );
    }
    lemma_sum_same(k, units, inners);
    lemma_sum_same(m * k, f, |i: int| times(val(dout[i]), val(out[i])));
}

/// The same for the weights of output unit `o`.
proof fn lemma_unit_weights_adjoint<F: Scalar>(
    val: spec_fn(F) -> real,
    v: Seq<F>,
    n: int,
    c: int,
    oc: int,
    inp: Seq<F>,
    out: Seq<F>,
    dout: Seq<F>,
    zeros: Seq<F>,
    dw: Seq<F>,
    o: int,
)
    requires
        exact(val),
        0 <= n,
        0 <= c,
        0 <= o < oc,
        v.len() == oc * c,
        inp.len() == n * c,
        dout.len() == n * oc,
        zeros.len() == oc * c,
        all_zero(zeros),
        linear_is(inp, v, None, n, c, oc, out),
        weight_gradient_is(dout, inp, n, c, oc, zeros, dw),
    ensures
        sum_to(n as nat, |r: int| times(val(dout[r * oc + o]), val(out[r * oc + o]))) == inner(
            val,
            row(dw, o, c),
            row(v, o, c),
        ),
{
    reveal(linear_is);
    reveal(weight_gradient_is);
    let m = n as nat;
    let k = c as nat;
    let wf = |r: int, i: int| val(inp[r * c + i]);
    let df = |r: int| val(dout[r * oc + o]);
    let xf = |i: int| val(row(v, o, c)[i]);
    let yf = |r: int| val(out[r * oc + o]);
    let gf = |i: int| val(row(dw, o, c)[i]);
    lemma_row_bounds(o, oc, c);
    assert forall|r: int| 0 <= r < m implies #[trigger] yf(r) == sum_to(
        k,
        |i: int| times(wf(r, i), xf(i)),
    ) by {
        lemma_row_bounds(r, n, c);
        lemma_row_bounds(r, n, oc);
        let x = row(inp, r, c);
        let y = row(out, r, oc);
        assert(linear_row_is(x, v, None, oc, y));
        assert(unit_is(x, row(v, o, c), None, o, y[o]));
        assert(y[o] == out[r * oc + o]);
        lemma_unit_value(val, x, v, oc, o, y[o]);
        lemma_sum_same(
            k,
            |i: int| times(val(x[i]), val(v[o * x.len() + i])),
            |i: int| times(wf(r, i), xf(i)),
        );
    }
    assert forall|i: int| 0 <= i < k implies #[trigger] gf(i) == sum_to(
        m,
        |r: int| times(wf(r, i), df(r)),
    ) by {
        let z = row(zeros, o, c);
        let g = row(dw, o, c);
        assert(weight_gradient_row_is(dout, inp, n, c, oc, o, z, g));
        let p = column(inp, n, c, i);
        let q = column(dout, n, oc, o);
        assert(dot_from_is(z[i], p, q, g[i]));
        assert(is_zero(zeros[o * c + i]));
        lemma_dot_value(val, m, z[i], p, q, g[i]);
        lemma_sum_same(
            m,
            |r: int| times(val(p[r]), val(q[r])),
            |r: int| times(wf(r, i), df(r)),
        );
    }
    lemma_transpose(m, k, wf, df, xf, yf, gf);
    lemma_sum_same(
        m,
        |r: int| times(df(r), yf(r)),
        |r: int| times(val(dout[r * oc + o]), val(out[r * oc + o])),
    );
    lemma_sum_same(
        k,
        |i: int| times(gf(i), xf(i)),
        |i: int| times(val(row(dw, o, c)[i]), val(row(v, o, c)[i])),
    );
}

/// One entry of a scattered gradient, as a sum over the tokens.
proof fn lemma_scatter_value<F: Scalar>(
    val: spec_fn(F) -> real,
    n: nat,
    init: F,
    ids: Seq<u16>,
    dout: Seq<F>,
    c: int,
    x: int,
    i: int,
    r: F,
)
    requires
        exact(val),
        fold_is(n, init, scatter_steps(ids, dout, c, x, i), r),
    ensures
        val(r) == val(init) + sum_to(n, |k: int| times(hits(ids, k, x), val(dout[k * c + i]))),
    decreases n,
{
    if n > 0 {
        let k = (n - 1) as nat;
        let step = scatter_steps(ids, dout, c, x, i);
        let p = choose|p: F| fold_is(k, init, step, p) && #[trigger] step(k, p, r);
        lemma_scatter_value(val, k, init, ids, dout, c, x, i, p);
        let q = val(dout[k * c + i]);
        assert(1 as real * q == q && 0 as real * q == 0 as real) by (nonlinear_arith);
    }
}

/// One where token `k` is the vocabulary entry `x`, else zero.
spec fn hits(ids: Seq<u16>, k: int, x: int) -> real {
    if ids[k] == x {
        1 as real
    } else {
        0 as real
    }
}

/// The same for channel `i` of the embedding.
proof fn lemma_channel_adjoint<F: Scalar>(
    val: spec_fn(F) -> real,
    ids: Seq<u16>,
    v: int,
    c: int,
    wte: Seq<F>,
    out: Seq<F>,
    dout: Seq<F>,
    zeros: Seq<F>,
    dw: Seq<F>,
    i: int,
)
    requires
        exact(val),
        0 <= v,
        0 <= i < c,
        ids_below(ids, v),
        wte.len() == v * c,
        zeros.len() == v * c,
        all_zero(zeros),
        embedding_is(wte, ids, c, out),
        scatter_is(ids, dout, v, c, zeros, dw),
    ensures
        sum_to(ids.len(), |k: int| times(val(dout[k * c + i]), val(out[k * c + i]))) == sum_to(
            v as nat,
            |x: int| times(val(dw[x * c + i]), val(wte[x * c + i])),
        ),
{
    reveal(embedding_is);
    reveal(scatter_is);
    let m = ids.len();
    let wf = |k: int, x: int| hits(ids, k, x);
    let df = |k: int| val(dout[k * c + i]);
    let xf = |x: int| val(wte[x * c + i]);
    let yf = |k: int| val(out[k * c + i]);
    let gf = |x: int| val(dw[x * c + i]);
    assert forall|k: int| 0 <= k < m implies #[trigger] yf(k) == sum_to(
        v as nat,
        |x: int| times(wf(k, x), xf(x)),
    ) by {
        let at = ids[k] as int;
        let f = |x: int| times(wf(k, x), xf(x));
        lemma_row_bounds(k, m as int, c);
        lemma_row_bounds(at, v, c);
        assert(row(out, k, c)[i] == row(wte, at, c)[i]);
        assert forall|x: int| 0 <= x < v && x != at implies #[trigger] f(x) == 0 as real by {
            let q = xf(x);
            assert(0 as real * q == 0 as real) by (nonlinear_arith);
        }
        lemma_sum_one(v as nat, at, f);
        let q = xf(at);
        assert(1 as real * q == q) by (nonlinear_arith);
    }
    assert forall|x: int| 0 <= x < v implies #[trigger] gf(x) == sum_to(
        m,
        |k: int| times(wf(k, x), df(k)),
    ) by {
        lemma_row_bounds(x, v, c);
        let r = dw[x * c + i];
        assert(is_zero(zeros[x * c + i]));
        lemma_scatter_value(val, m, zeros[x * c + i], ids, dout, c, x, i, r);
        lemma_sum_same(
            m,
            |k: int| times(hits(ids, k, x), val(dout[k * c + i])),
            |k: int| times(wf(k, x), df(k)),
        );
    }
    lemma_transpose(m, v as nat, wf, df, xf, yf, gf);
    lemma_sum_same(
        m,
        |k: int| times(df(k), yf(k)),
        |k: int| times(val(dout[k * c + i]), val(out[k * c + i])),
    );
    lemma_sum_same(
        v as nat,
        |x: int| times(gf(x), xf(x)),
        |x: int| times(val(dw[x * c + i]), val(wte[x * c + i])),
    );
}

/// An inner product over a matrix, column by column.
proof fn lemma_inner_columns<F>(val: spec_fn(F) -> real, x: Seq<F>, y: Seq<F>, n: int, c: int)
    requires
        0 <= n,
        0 <= c,
        x.len() == n * c,
    ensures
        inner(val, x, y) == sum_to(
            c as nat,
            |i: int| sum_to(n as nat, |r: int| times(val(x[r * c + i]), val(y[r * c + i]))),
        ),
{
    let m = n as nat;
    let k = c as nat;
    let f = |p: int| times(val(x[p]), val(y[p]));
    let at = |r: int, i: int| times(val(x[r * c + i]), val(y[r * c + i]));
    lemma_sum_rows(m, k, f);
    let by_rows = |r: int| sum_to(k, |i: int| f(r * k + i));
    let rows = |r: int| sum_to(k, |i: int| at(r, i));
    assert forall|r: int| 0 <= r < m implies #[trigger] by_rows(r) == rows(r) by {
        lemma_sum_same(k, |i: int| f(r * k + i), |i: int| at(r, i));
    }
    lemma_sum_same(m, by_rows, rows);
    lemma_sum_swap(m, k, at);
    let by_columns = |i: int| sum_to(m, |r: int| at(r, i));
    let columns = |i: int|
        sum_to(n as nat, |r: int| times(val(x[r * c + i]), val(y[r * c + i])));
    assert forall|i: int| 0 <= i < k implies #[trigger] by_columns(i) == columns(i) by {
        lemma_sum_same(
            m,
            |r: int| at(r, i),
            |r: int| times(val(x[r * c + i]), val(y[r * c + i])),
        );
    }
    lemma_sum_same(k, by_columns, columns);
    lemma_sum_same(m * k, f, |i: int| times(val(x[i]), val(y[i])));
}

/// The scattered gradient is the adjoint of the embedding as a function of its
/// table: the output gradient and the output have the inner product that the
/// table's gradient and the table have.
pub proof fn lemma_embedding_adjoint<F: Scalar>(
    val: spec_fn(F) -> real,
    ids: Seq<u16>,
    v: int,
    c: int,
    wte: Seq<F>,
    out: Seq<F>,
    dout: Seq<F>,
    zeros: Seq<F>,
    dw: Seq<F>,
)
    requires
        exact(val),
        0 <= v,
        0 <= c,
        ids_below(ids, v),
        wte.len() == v * c,
        dout.len() == ids.len() * c,
        zeros.len() == v * c,
        all_zero(zeros),
        embedding_is(wte, ids, c, out),
        scatter_is(ids, dout, v, c, zeros, dw),
    ensures
        inner(val, dout, out) == inner(val, dw, wte),
{
    lemma_inner_columns(val, dout, out, ids.len() as int, c);
    assert(dw.len() == v * c) by {
        reveal(scatter_is);
    }
    lemma_inner_columns(val, dw, wte, v, c);
    let f = |i: int|
        sum_to(ids.len(), |k: int| times(val(dout[k * c + i]), val(out[k * c + i])));
    let g = |i: int| sum_to(v as nat, |x: int| times(val(dw[x * c + i]), val(wte[x * c + i])));
    assert forall|i: int| 0 <= i < c implies #[trigger] f(i) == g(i) by {
        lemma_channel_adjoint(val, ids, v, c, wte, out, dout, zeros, dw, i);
    }
    lemma_sum_same(c as nat, f, g);
    lemma_sum_same(
        c as nat,
        f,
        |i: int| sum_to(ids.len() as int as nat, |r: int|
            times(val(dout[r * c + i]), val(out[r * c + i]))),
    );
    lemma_sum_same(
        c as nat,
        g,
        |i: int| sum_to(v as nat, |r: int| times(val(dw[r * c + i]), val(wte[r * c + i]))),
    );
}

/// `g / d` and `g * (1 / d)` are the same.
proof fn lemma_divided(g: real, d: real, s: real, sig: real)
    requires
        d > 0 as real,
        s * d == g,
        sig * d == 1 as real,
    ensures
        s == g * sig,
{
    assert(s * d == (g * sig) * d) by (nonlinear_arith)
        requires
            s * d == g,
            sig * d == 1 as real,
    {
        assert((g * sig) * d == g * (sig * d));
        assert(g * (sig * d) == g * 1 as real);
    }
    let p = g * sig;
    assert(s == p) by (nonlinear_arith)
        requires
            d > 0 as real,
            s * d == p * d,
    ;
}

/// The number that a gated value stands for, as the backward pass has it.
proof fn lemma_gated_value<F: Scalar>(
    val: spec_fn(F) -> real,
    g: F,
    u: F,
    y: F,
    d: F,
    dg: F,
    du: F,
)
    requires
        exact(val),
        single_valued::<F>(),
        swiglu_at(g, u, y),
        swiglu_gradient_at(g, u, d, dg, du),
    ensures
        times(val(d), val(y)) == times(val(du), val(u)),
{
    let (one, neg, e, div, s) = choose|one: F, neg: F, e: F, div: F, s: F|
        #[trigger] is_one(one) && #[trigger] negation_is(g, neg) && #[trigger] exp_is(neg, e)
            && #[trigger] sum_is(one, e, div) && #[trigger] quotient_is(g, div, s)
            && product_is(s, u, y);
    let (sig, silu, slope, ud) = choose|sig: F, silu: F, slope: F, ud: F|
        #[trigger] sigmoid_is(g, sig) && #[trigger] product_is(g, sig, silu)
            && #[trigger] silu_slope_is(g, sig, slope) && #[trigger] product_is(d, u, ud)
            && product_is(ud, slope, dg) && product_is(d, silu, du);
    let (one2, top, neg2, e2, div2) = choose|one: F, top: F, neg: F, e: F, div: F|
        #[trigger] is_one(one) && #[trigger] is_one(top) && #[trigger] negation_is(g, neg)
            && #[trigger] exp_is(neg, e) && #[trigger] sum_is(one, e, div)
            && quotient_is(top, div, sig);
    assert(val(neg) == val(neg2));
    assert(neg == neg2);
    assert(e == e2);
    assert(val(div) == val(div2) && val(div) > 0 as real);
    lemma_divided(val(g), val(div), val(s), val(sig));
    let (a, b, c) = (val(d), val(s), val(u));
    assert(a * (b * c) == (a * b) * c) by (nonlinear_arith);
}

/// The gated product is linear in `up`, and its gradient is the adjoint: the
/// output gradient and the output have the inner product that the gradient of
/// `up` and `up` have.
pub proof fn lemma_gate_adjoint<F: Scalar>(
    val: spec_fn(F) -> real,
    gate: Seq<F>,
    up: Seq<F>,
    y: Seq<F>,
    d: Seq<F>,
    dgate: Seq<F>,
    dup: Seq<F>,
)
    requires
        exact(val),
        single_valued::<F>(),
        d.len() == gate.len(),
        swiglu_is(gate, up, y),
        swiglu_gradient_is(gate, up, d, dgate, dup),
    ensures
        inner(val, d, y) == inner(val, dup, up),
{
    reveal(swiglu_is);
    reveal(swiglu_gradient_is);
    let f = |i: int| times(val(d[i]), val(y[i]));
    let g = |i: int| times(val(dup[i]), val(up[i]));
    assert forall|i: int| 0 <= i < d.len() implies #[trigger] f(i) == g(i) by {
        assert(swiglu_at(gate[i], up[i], y[i]));
        assert(swiglu_gradient_at(gate[i], up[i], d[i], dgate[i], dup[i]));
        lemma_gated_value(val, gate[i], up[i], y[i], d[i], dgate[i], dup[i]);
    }
    lemma_sum_same(d.len(), f, g);
    lemma_sum_same(d.len(), f, |i: int| times(val(d[i]), val(y[i])));
    lemma_sum_same(d.len(), g, |i: int| times(val(dup[i]), val(up[i])));
}

/// One norm weight's gradient, as a sum over the rows.
pub(crate) proof fn lemma_norm_weight_value<F: Scalar>(
    val: spec_fn(F) -> real,
    n: nat,
    init: F,
    inp: Seq<F>,
    rstd: Seq<F>,
    dout: Seq<F>,
    c: int,
    i: int,
    r: F,
)
    requires
        exact(val),
        fold_is(n, init, norm_weight_steps(inp, rstd, dout, c, i), r),
    ensures
        val(r) == val(init) + sum_to(
            n,
            |q: int| times(times(val(inp[q * c + i]), val(rstd[q])), val(dout[q * c + i])),
        ),
    decreases n,
{
    if n > 0 {
        let k = (n - 1) as nat;
        let step = norm_weight_steps(inp, rstd, dout, c, i);
        let p = choose|p: F| fold_is(k, init, step, p) && #[trigger] step(k, p, r);
        lemma_norm_weight_value(val, k, init, inp, rstd, dout, c, i, p);
    }
}

/// The norm is linear in its weight, and the weight's gradient is the adjoint:
/// the output gradient and the output have the inner product that the weight's
/// gradient and the weight have.
pub proof fn lemma_norm_weight_adjoint<F: Scalar>(
    val: spec_fn(F) -> real,
    inp: Seq<F>,
    weight: Seq<F>,
    n: int,
    c: int,
    out: Seq<F>,
    rstd: Seq<F>,
    dout: Seq<F>,
    zeros: Seq<F>,
    dw: Seq<F>,
)
    requires
        exact(val),
        0 <= n,
        0 <= c,
        inp.len() == n * c,
        weight.len() == c,
        dout.len() == n * c,
        zeros.len() == c,
        all_zero(zeros),
        rmsnorm_is(inp, weight, n, c, out, rstd),
        norm_weight_gradient_is(inp, rstd, dout, n, c, zeros, dw),
    ensures
        inner(val, dout, out) == inner(val, dw, weight),
{
    reveal(rmsnorm_is);
    reveal(norm_weight_gradient_is);
    lemma_inner_columns(val, dout, out, n, c);
    let m = n as nat;
    let columns = |i: int|
        sum_to(m, |r: int| times(val(dout[r * c + i]), val(out[r * c + i])));
    let weights = |i: int| times(val(dw[i]), val(weight[i]));
    assert forall|i: int| 0 <= i < c implies #[trigger] columns(i) == weights(i) by {
        let k = val(weight[i]);
        let f = |q: int| times(times(val(inp[q * c + i]), val(rstd[q])), val(dout[q * c + i]));
        let g = |q: int| times(val(dout[q * c + i]), val(out[q * c + i]));
        assert forall|q: int| 0 <= q < m implies #[trigger] g(q) == times(k, f(q)) by {
            lemma_row_bounds(q, n, c);
            let x = row(inp, q, c);
            let y = row(out, q, c);
            assert(rmsnorm_row_is(x, weight, y, rstd[q]));
            assert(normed_at(x[i], rstd[q], weight[i], y[i]));
            let (a, b) = (times(val(inp[q * c + i]), val(rstd[q])), val(dout[q * c + i]));
            assert(b * (a * k) == k * (a * b)) by (nonlinear_arith);
        }
        assert(is_zero(zeros[i]));
        lemma_norm_weight_value(val, m, zeros[i], inp, rstd, dout, c, i, dw[i]);
        lemma_sum_same(
            m,
            f,
            |q: int| times(times(val(inp[q * c + i]), val(rstd[q])), val(dout[q * c + i])),
        );
        lemma_sum_scale(m, k, f, g);
        lemma_sum_same(m, g, |r: int| times(val(dout[r * c + i]), val(out[r * c + i])));
        let p = val(dw[i]);
        assert(k * p == p * k) by (nonlinear_arith);
    }
    lemma_sum_same(c as nat, columns, weights);
    lemma_sum_same(c as nat, weights, |i: int| times(val(dw[i]), val(weight[i])));
    lemma_sum_same(
        c as nat,
        columns,
        |i: int| sum_to(n as nat, |r: int| times(val(dout[r * c + i]), val(out[r * c + i]))),
    );
}

} // verus!
