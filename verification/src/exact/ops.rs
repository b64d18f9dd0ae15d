//! What the tensor operations compute where the arithmetic is exact: each result
//! as a formula over the numbers in the flat buffers.

use vstd::prelude::*;

use crate::arena::{lemma_row_bounds, row};
use crate::exact::exact;
use crate::exact::power::exact_roots;
use crate::matmul::{dot_is, matmul_is};
use crate::ops::embed::{embedding_is, scatter_is, scatter_steps};
use crate::ops::linear::{
    bias_gradient_at, bias_gradient_is, column, input_gradient_is, input_gradient_row_is, linear_is,
    linear_row_is, start_is, unit_is, weight_gradient_is, weight_gradient_row_is,
};
use crate::ops::loss::ids_below;
use crate::ops::norm::{mean_square_is, normed_at, rmsnorm_is, rmsnorm_row_is};
use crate::ops::pointwise::{scaled_is, sums_are};
use crate::scalar::{
    dot_from_is, fold_is, is_one, is_zero, product_is, quotient_is, ratio_is, sqrt_is, sum_is,
    total_is, Scalar,
};
use crate::sums::{lemma_dot_value, lemma_sum_same, lemma_total_value, sum_to, times};

verus! {

// --- linear layers ---

/// Each output is the bias plus the sum of the inputs times the weights of its
/// unit.
pub open spec fn linear_values<F>(
    val: spec_fn(F) -> real,
    x: Seq<F>,
    w: Seq<F>,
    bias: Option<Seq<F>>,
    n: int,
    c: int,
    oc: int,
    y: Seq<F>,
) -> bool {
    &&& y.len() == n * oc
    &&& forall|r: int, o: int|
        0 <= r < n && 0 <= o < oc ==> val(#[trigger] y[r * oc + o]) == (match bias {
            Some(b) => val(b[o]),
            None => 0 as real,
        }) + sum_to(c as nat, |i: int| times(val(x[r * c + i]), val(w[o * c + i])))
}

/// A linear layer computes them.
pub proof fn lemma_linear_values<F: Scalar>(
    val: spec_fn(F) -> real,
    x: Seq<F>,
    w: Seq<F>,
    bias: Option<Seq<F>>,
    n: int,
    c: int,
    oc: int,
    y: Seq<F>,
)
    requires
        exact(val),
        0 <= c,
        x.len() == n * c,
        w.len() == oc * c,
        linear_is(x, w, bias, n, c, oc, y),
    ensures
        linear_values(val, x, w, bias, n, c, oc, y),
{
    reveal(linear_is);
    assert forall|r: int, o: int| 0 <= r < n && 0 <= o < oc implies val(#[trigger] y[r * oc + o])
        == (match bias {
        Some(b) => val(b[o]),
        None => 0 as real,
    }) + sum_to(c as nat, |i: int| times(val(x[r * c + i]), val(w[o * c + i]))) by {
        lemma_row_bounds(r, n, c);
        lemma_row_bounds(r, n, oc);
        lemma_row_bounds(o, oc, c);
        let xr = row(x, r, c);
        let wr = row(w, o, c);
        let yr = row(y, r, oc);
        assert(linear_row_is(xr, w, bias, oc, yr));
        assert(unit_is(xr, wr, bias, o, yr[o]));
        let init = choose|init: F| start_is(bias, o, init) && #[trigger] dot_from_is(
            init,
            xr,
            wr,
            yr[o],
        );
        lemma_dot_value(val, c as nat, init, xr, wr, yr[o]);
        lemma_sum_same(
            c as nat,
            |i: int| times(val(xr[i]), val(wr[i])),
            |i: int| times(val(x[r * c + i]), val(w[o * c + i])),
        );
    }
}

/// Each entry of a matrix product is the sum over the inner dimension.
pub proof fn lemma_matmul_values<F: Scalar>(
    val: spec_fn(F) -> real,
    a: Seq<F>,
    b: Seq<F>,
    m: int,
    k: int,
    n: int,
    out: Seq<F>,
    i: int,
    j: int,
)
    requires
        exact(val),
        0 <= k,
        a.len() == m * k,
        b.len() == k * n,
        0 <= i < m,
        0 <= j < n,
        matmul_is(a, b, m, k, n, out),
    ensures
        out.len() == m * n,
        val(out[i * n + j]) == sum_to(
            k as nat,
            |p: int| times(val(a[i * k + p]), val(b[p * n + j])),
        ),
{
    lemma_row_bounds(i, m, k);
    lemma_row_bounds(i, m, n);
    let x = row(a, i, k);
    let y = column(b, k, n, j);
    let r = row(out, i, n)[j];
    assert(dot_is(x, y, r));
    let zero = choose|zero: F| #[trigger] is_zero(zero) && dot_from_is(zero, x, y, r);
    lemma_dot_value(val, k as nat, zero, x, y, r);
    lemma_sum_same(
        k as nat,
        |p: int| times(val(x[p]), val(y[p])),
        |p: int| times(val(a[i * k + p]), val(b[p * n + j])),
    );
}

/// The input gradient adds to what was there the output gradients times the
/// weights, over all units.
pub open spec fn input_gradient_values<F>(
    val: spec_fn(F) -> real,
    d: Seq<F>,
    w: Seq<F>,
    n: int,
    c: int,
    oc: int,
    old_x: Seq<F>,
    new_x: Seq<F>,
) -> bool {
    &&& new_x.len() == n * c
    &&& forall|r: int, i: int|
        0 <= r < n && 0 <= i < c ==> val(#[trigger] new_x[r * c + i]) == val(old_x[r * c + i])
            + sum_to(oc as nat, |o: int| times(val(w[o * c + i]), val(d[r * oc + o])))
}

/// The backward of a linear layer computes it.
pub proof fn lemma_input_gradient_values<F: Scalar>(
    val: spec_fn(F) -> real,
    d: Seq<F>,
    w: Seq<F>,
    n: int,
    c: int,
    oc: int,
    old_x: Seq<F>,
    new_x: Seq<F>,
)
    requires
        exact(val),
        0 <= c,
        0 <= oc,
        d.len() == n * oc,
        w.len() == oc * c,
        old_x.len() == n * c,
        input_gradient_is(d, w, n, c, oc, old_x, new_x),
    ensures
        input_gradient_values(val, d, w, n, c, oc, old_x, new_x),
{
    reveal(input_gradient_is);
    assert forall|r: int, i: int| 0 <= r < n && 0 <= i < c implies val(
        #[trigger] new_x[r * c + i],
    ) == val(old_x[r * c + i]) + sum_to(
        oc as nat,
        |o: int| times(val(w[o * c + i]), val(d[r * oc + o])),
    ) by {
        lemma_row_bounds(r, n, c);
        lemma_row_bounds(r, n, oc);
        let dr = row(d, r, oc);
        let g = row(new_x, r, c);
        let z = row(old_x, r, c);
        assert(input_gradient_row_is(dr, w, c, z, g));
        let col = column(w, dr.len() as int, c, i);
        assert(dot_from_is(z[i], col, dr, g[i]));
        lemma_dot_value(val, oc as nat, z[i], col, dr, g[i]);
        lemma_sum_same(
            oc as nat,
            |o: int| times(val(col[o]), val(dr[o])),
            |o: int| times(val(w[o * c + i]), val(d[r * oc + o])),
        );
    }
}

/// The weight gradient adds to what was there the inputs times the output
/// gradients, over all rows.
pub open spec fn weight_gradient_values<F>(
    val: spec_fn(F) -> real,
    d: Seq<F>,
    x: Seq<F>,
    n: int,
    c: int,
    oc: int,
    old_w: Seq<F>,
    new_w: Seq<F>,
) -> bool {
    &&& new_w.len() == oc * c
    &&& forall|o: int, i: int|
        0 <= o < oc && 0 <= i < c ==> val(#[trigger] new_w[o * c + i]) == val(old_w[o * c + i])
            + sum_to(n as nat, |r: int| times(val(x[r * c + i]), val(d[r * oc + o])))
}

/// The backward of a linear layer computes it.
pub proof fn lemma_weight_gradient_values<F: Scalar>(
    val: spec_fn(F) -> real,
    d: Seq<F>,
    x: Seq<F>,
    n: int,
    c: int,
    oc: int,
    old_w: Seq<F>,
    new_w: Seq<F>,
)
    requires
        exact(val),
        0 <= n,
        0 <= c,
        d.len() == n * oc,
        x.len() == n * c,
        old_w.len() == oc * c,
        weight_gradient_is(d, x, n, c, oc, old_w, new_w),
    ensures
        weight_gradient_values(val, d, x, n, c, oc, old_w, new_w),
{
    reveal(weight_gradient_is);
    assert forall|o: int, i: int| 0 <= o < oc && 0 <= i < c implies val(
        #[trigger] new_w[o * c + i],
    ) == val(old_w[o * c + i]) + sum_to(
        n as nat,
        |r: int| times(val(x[r * c + i]), val(d[r * oc + o])),
    ) by {
        lemma_row_bounds(o, oc, c);
        let z = row(old_w, o, c);
        let g = row(new_w, o, c);
        assert(weight_gradient_row_is(d, x, n, c, oc, o, z, g));
        let p = column(x, n, c, i);
        let q = column(d, n, oc, o);
        assert(dot_from_is(z[i], p, q, g[i]));
        lemma_dot_value(val, n as nat, z[i], p, q, g[i]);
        lemma_sum_same(
            n as nat,
            |r: int| times(val(p[r]), val(q[r])),
            |r: int| times(val(x[r * c + i]), val(d[r * oc + o])),
        );
    }
}

/// The bias gradient adds to what was there the output gradients over all rows.
pub proof fn lemma_bias_gradient_values<F: Scalar>(
    val: spec_fn(F) -> real,
    d: Seq<F>,
    n: int,
    oc: int,
    old_b: Seq<F>,
    new_b: Seq<F>,
    o: int,
)
    requires
        exact(val),
        0 <= n,
        0 <= o < oc,
        bias_gradient_is(d, n, oc, old_b, new_b),
    ensures
        new_b.len() == oc,
        val(new_b[o]) == val(old_b[o]) + sum_to(n as nat, |r: int| val(d[r * oc + o])),
{
    reveal(bias_gradient_is);
    let col = column(d, n, oc, o);
    assert(bias_gradient_at(col, old_b[o], new_b[o]));
    let s = choose|s: F| total_is(col, s) && #[trigger] sum_is(old_b[o], s, new_b[o]);
    lemma_total_value(val, col, s);
    lemma_sum_same(n as nat, |i: int| val(col[i]), |r: int| val(d[r * oc + o]));
}

// --- the norm ---

/// The sum of the squares of row `r`.
pub open spec fn square_sum<F>(val: spec_fn(F) -> real, x: Seq<F>, r: int, c: int) -> real {
    sum_to(c as nat, |i: int| times(val(x[r * c + i]), val(x[r * c + i])))
}

/// Each row is divided by the root of the mean of its squares plus `1e-5`, and
/// multiplied by the weight: the factor of a row is the positive number whose
/// square, times that mean plus `1e-5`, is one.
pub open spec fn norm_values<F>(
    val: spec_fn(F) -> real,
    x: Seq<F>,
    w: Seq<F>,
    n: int,
    c: int,
    y: Seq<F>,
    rstd: Seq<F>,
) -> bool {
    &&& y.len() == n * c
    &&& rstd.len() == n
    &&& forall|r: int|
        0 <= r < n ==> val(#[trigger] rstd[r]) > 0 as real && (val(rstd[r]) * val(rstd[r])) * (
        100000 as real * square_sum(val, x, r, c) + (c as real)) == 100000 as real * (c as real)
    &&& forall|r: int, i: int|
        0 <= r < n && 0 <= i < c ==> val(#[trigger] y[r * c + i]) == (val(x[r * c + i]) * val(
            rstd[r],
        )) * val(w[i])
}

/// Reciprocal of a root, as the factor of the norm.
proof fn lemma_factor(sum: real, count: real, ms: real, eps: real, root: real, rstd: real)
    requires
        count > 0 as real,
        sum >= 0 as real,
        ms * count == sum,
        eps * 100000 as real == 1 as real,
        root >= 0 as real,
        root * root == ms + eps,
        root != 0 as real ==> rstd * root == 1 as real,
    ensures
        rstd > 0 as real,
        (rstd * rstd) * (100000 as real * sum + count) == 100000 as real * count,
{
    assert(ms >= 0 as real) by (nonlinear_arith)
        requires
            count > 0 as real,
            sum >= 0 as real,
            ms * count == sum,
    ;
    assert(root != 0 as real) by {
        if root == 0 as real {
            assert(root * root == 0 as real) by (nonlinear_arith)
                requires
                    root == 0 as real,
            ;
        }
    }
    assert(rstd > 0 as real) by (nonlinear_arith)
        requires
            root > 0 as real,
            rstd * root == 1 as real,
    ;
    let q = ms + eps;
    assert((rstd * rstd) * (root * root) == (rstd * root) * (rstd * root)) by (nonlinear_arith);
    assert(1 as real * 1 as real == 1 as real) by (nonlinear_arith);
    assert((rstd * rstd) * q == 1 as real);
    let k = rstd * rstd;
    assert(100000 as real * sum + count == (100000 as real * count) * q) by (nonlinear_arith)
        requires
            ms * count == sum,
            eps * 100000 as real == 1 as real,
            q == ms + eps,
    {
        assert((100000 as real * count) * q == 100000 as real * (ms * count) + count * (eps
            * 100000 as real));
    }
    let z = 100000 as real * count;
    assert(k * (z * q) == z * (k * q)) by (nonlinear_arith);
    assert(z * 1 as real == z) by (nonlinear_arith);
}

/// The sum of squares is not negative.
proof fn lemma_squares(n: nat, f: spec_fn(int) -> real)
    ensures
        sum_to(n, |i: int| times(f(i), f(i))) >= 0 as real,
    decreases n,
{
    if n > 0 {
        lemma_squares((n - 1) as nat, f);
        let x = f(n - 1);
        assert(x * x >= 0 as real) by (nonlinear_arith);
        lemma_sum_same(
            (n - 1) as nat,
            |i: int| times(f(i), f(i)),
            |i: int| times(f(i), f(i)),
        );
    }
}

/// The norm computes it.
pub proof fn lemma_norm_values<F: Scalar>(
    val: spec_fn(F) -> real,
    x: Seq<F>,
    w: Seq<F>,
    n: int,
    c: int,
    y: Seq<F>,
    rstd: Seq<F>,
)
    requires
        exact(val),
        exact_roots(val),
        0 < c <= usize::MAX,
        x.len() == n * c,
        w.len() == c,
        rmsnorm_is(x, w, n, c, y, rstd),
    ensures
        norm_values(val, x, w, n, c, y, rstd),
{
    reveal(rmsnorm_is);
    assert forall|r: int| 0 <= r < n implies val(#[trigger] rstd[r]) > 0 as real && (val(rstd[r])
        * val(rstd[r])) * (100000 as real * square_sum(val, x, r, c) + (c as real)) == 100000
        as real * (c as real) by {
        lemma_row_bounds(r, n, c);
        let xr = row(x, r, c);
        assert(rmsnorm_row_is(xr, w, row(y, r, c), rstd[r]));
        let (ms, eps, shifted, root, one) = choose|ms: F, eps: F, shifted: F, root: F, one: F|
            #[trigger] mean_square_is(xr, ms) && #[trigger] ratio_is(1, 100000, eps)
                && #[trigger] sum_is(ms, eps, shifted) && #[trigger] sqrt_is(shifted, root)
                && #[trigger] is_one(one) && quotient_is(one, root, rstd[r]);
        let (zero, sum, count) = choose|zero: F, sum: F, count: F|
            #[trigger] is_zero(zero) && #[trigger] dot_from_is(zero, xr, xr, sum)
                && #[trigger] ratio_is(xr.len() as usize, 1, count) && quotient_is(
                sum,
                count,
                ms,
            );
        lemma_dot_value(val, c as nat, zero, xr, xr, sum);
        lemma_sum_same(
            c as nat,
            |i: int| times(val(xr[i]), val(xr[i])),
            |i: int| times(val(x[r * c + i]), val(x[r * c + i])),
        );
        let f = |i: int| val(x[r * c + i]);
        lemma_squares(c as nat, f);
        lemma_sum_same(
            c as nat,
            |i: int| times(f(i), f(i)),
            |i: int| times(val(x[r * c + i]), val(x[r * c + i])),
        );
        let k = val(count);
        assert(k * (1 as int as real) == c as real);
        assert(k * 1 as real == k) by (nonlinear_arith);
        assert(val(eps) * (100000 as int as real) == 1 as int as real);
        let (a, b, cc) = (val(ms), val(eps), val(sum));
        assert(a >= 0 as real) by (nonlinear_arith)
            requires
                k > 0 as real,
                cc >= 0 as real,
                a * k == cc,
        ;
        assert(b > 0 as real);
        lemma_factor(val(sum), val(count), val(ms), val(eps), val(root), val(rstd[r]));
    }
    assert forall|r: int, i: int| 0 <= r < n && 0 <= i < c implies val(#[trigger] y[r * c + i])
        == (val(x[r * c + i]) * val(rstd[r])) * val(w[i]) by {
        lemma_row_bounds(r, n, c);
        let xr = row(x, r, c);
        let yr = row(y, r, c);
        assert(rmsnorm_row_is(xr, w, yr, rstd[r]));
        assert(normed_at(xr[i], rstd[r], w[i], yr[i]));
    }
}

// --- value by value ---

/// Sums, value by value.
pub proof fn lemma_sums_values<F: Scalar>(
    val: spec_fn(F) -> real,
    a: Seq<F>,
    b: Seq<F>,
    y: Seq<F>,
    i: int,
)
    requires
        exact(val),
        0 <= i < a.len(),
        sums_are(a, b, y),
    ensures
        y.len() == a.len(),
        val(y[i]) == val(a[i]) + val(b[i]),
{
    reveal(sums_are);
    assert(sum_is(a[i], b[i], y[i]));
}

/// Keep factors, value by value.
pub proof fn lemma_scaled_values<F: Scalar>(
    val: spec_fn(F) -> real,
    x: Seq<F>,
    m: Seq<F>,
    y: Seq<F>,
    i: int,
)
    requires
        exact(val),
        0 <= i < x.len(),
        scaled_is(x, m, y),
    ensures
        y.len() == x.len(),
        val(y[i]) == val(x[i]) * val(m[i]),
{
    assert(product_is(x[i], m[i], y[i]));
}

// --- the embedding ---

/// Channel `i` of token `k` is that of the table's row for the token's id.
pub proof fn lemma_embedding_values<F>(
    wte: Seq<F>,
    ids: Seq<u16>,
    v: int,
    c: int,
    out: Seq<F>,
    k: int,
    i: int,
)
    requires
        ids_below(ids, v),
        wte.len() == v * c,
        0 <= k < ids.len(),
        0 <= i < c,
        embedding_is(wte, ids, c, out),
    ensures
        out.len() == ids.len() * c,
        out[k * c + i] == wte[ids[k] * c + i],
{
    reveal(embedding_is);
    lemma_row_bounds(k, ids.len() as int, c);
    lemma_row_bounds(ids[k] as int, v, c);
    assert(row(out, k, c) == row(wte, ids[k] as int, c));
    assert(row(out, k, c)[i] == row(wte, ids[k] as int, c)[i]);
}

/// The gradient of channel `i` of vocabulary entry `x` adds to what was there the
/// gradients of channel `i` of all tokens with that id.
pub proof fn lemma_scatter_values<F: Scalar>(
    val: spec_fn(F) -> real,
    ids: Seq<u16>,
    d: Seq<F>,
    v: int,
    c: int,
    old_w: Seq<F>,
    new_w: Seq<F>,
    x: int,
    i: int,
)
    requires
        exact(val),
        0 <= x < v,
        0 <= i < c,
        scatter_is(ids, d, v, c, old_w, new_w),
    ensures
        new_w.len() == v * c,
        val(new_w[x * c + i]) == val(old_w[x * c + i]) + sum_to(
            ids.len(),
            |k: int|
                if ids[k] == x {
                    val(d[k * c + i])
                } else {
                    0 as real
                },
        ),
{
    reveal(scatter_is);
    lemma_scattered(val, ids.len(), old_w[x * c + i], ids, d, c, x, i, new_w[x * c + i]);
}

proof fn lemma_scattered<F: Scalar>(
    val: spec_fn(F) -> real,
    n: nat,
    init: F,
    ids: Seq<u16>,
    d: Seq<F>,
    c: int,
    x: int,
    i: int,
    r: F,
)
    requires
        exact(val),
        fold_is(n, init, scatter_steps(ids, d, c, x, i), r),
    ensures
        val(r) == val(init) + sum_to(
            n,
            |k: int|
                if ids[k] == x {
                    val(d[k * c + i])
                } else {
                    0 as real
                },
        ),
    decreases n,
{
    if n > 0 {
        let k = (n - 1) as nat;
        let step = scatter_steps(ids, d, c, x, i);
        let p = choose|p: F| fold_is(k, init, step, p) && #[trigger] step(k, p, r);
        lemma_scattered(val, k, init, ids, d, c, x, i, p);
    }
}

} // verus!
