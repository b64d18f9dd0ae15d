//! The gradients of the norm where the arithmetic is exact.

use vstd::prelude::*;

use crate::arena::{lemma_row_bounds, row};
use crate::exact::exact;
use crate::ops::norm::{
    mean_product_is, norm_gradient_at, norm_gradient_is, norm_gradient_row_is,
    norm_weight_gradient_is,
};
use crate::ops::pointwise::{each_times_is, scaled_is};
use crate::scalar::{
    difference_is, dot_from_is, is_zero, product_is, quotient_is, ratio_is, sum_is, Scalar,
};
use crate::sums::{lemma_dot_value, lemma_sum_same, sum_to, times};

verus! {

/// The sum over row `r` of the weighed output gradients times the normed inputs.
pub open spec fn norm_overlap<F>(
    val: spec_fn(F) -> real,
    x: Seq<F>,
    rstd: Seq<F>,
    w: Seq<F>,
    d: Seq<F>,
    r: int,
    c: int,
) -> real {
    sum_to(
        c as nat,
        |i: int| times(times(val(w[i]), val(d[r * c + i])), times(val(x[r * c + i]), val(rstd[r]))),
    )
}

/// The gradient of row `r` adds to what was there the factor of the row times
/// the weighed output gradient, less the normed input times `mean`.
pub open spec fn norm_gradient_row_values<F>(
    val: spec_fn(F) -> real,
    x: Seq<F>,
    rstd: Seq<F>,
    w: Seq<F>,
    d: Seq<F>,
    c: int,
    old_x: Seq<F>,
    new_x: Seq<F>,
    r: int,
    mean: real,
) -> bool {
    forall|i: int|
        0 <= i < c ==> val(#[trigger] new_x[r * c + i]) == val(old_x[r * c + i]) + times(
            times(val(w[i]), val(d[r * c + i])) - times(
                times(val(x[r * c + i]), val(rstd[r])),
                mean,
            ),
            val(rstd[r]),
        )
}

/// The backward of the norm computes it, where `mean` is the mean over the row of
/// the weighed output gradients times the normed inputs.
pub proof fn lemma_norm_gradient_values<F: Scalar>(
    val: spec_fn(F) -> real,
    x: Seq<F>,
    rstd: Seq<F>,
    w: Seq<F>,
    d: Seq<F>,
    n: int,
    c: int,
    old_x: Seq<F>,
    new_x: Seq<F>,
    r: int,
)
    requires
        exact(val),
        0 <= r < n,
        0 < c <= usize::MAX,
        x.len() == n * c,
        w.len() == c,
        d.len() == n * c,
        old_x.len() == n * c,
        norm_gradient_is(x, rstd, w, d, n, c, old_x, new_x),
    ensures
        new_x.len() == n * c,
        exists|mean: real|
            #[trigger] norm_gradient_row_values(val, x, rstd, w, d, c, old_x, new_x, r, mean)
                && times(mean, c as real) == norm_overlap(val, x, rstd, w, d, r, c),
{
    reveal(norm_gradient_is);
    lemma_row_bounds(r, n, c);
    let xr = row(x, r, c);
    let g = row(d, r, c);
    let z = row(old_x, r, c);
    let y = row(new_x, r, c);
    assert(norm_gradient_row_is(xr, rstd[r], w, g, z, y));
    let (norm, dnorm, mean) = choose|norm: Seq<F>, dnorm: Seq<F>, mean: F|
        #[trigger] each_times_is(xr, rstd[r], norm) && #[trigger] scaled_is(
            w,
            g,
            dnorm,
        ) && #[trigger] mean_product_is(dnorm, norm, mean) && y.len() == xr.len() && forall|i: int|
            0 <= i < xr.len() ==> norm_gradient_at(
                norm[i],
                dnorm[i],
                mean,
                rstd[r],
                z[i],
                #[trigger] y[i],
            );
    assert forall|i: int| 0 <= i < c implies val(#[trigger] new_x[r * c + i]) == val(
        old_x[r * c + i],
    ) + times(
        times(val(w[i]), val(d[r * c + i])) - times(
            times(val(x[r * c + i]), val(rstd[r])),
            val(mean),
        ),
        val(rstd[r]),
    ) by {
        assert(y[i] == new_x[r * c + i]);
        assert(norm_gradient_at(norm[i], dnorm[i], mean, rstd[r], z[i], y[i]));
        assert(product_is(xr[i], rstd[r], norm[i]));
        assert(product_is(w[i], g[i], dnorm[i]));
        let (p, q, v) = choose|p: F, q: F, v: F|
            #[trigger] product_is(norm[i], mean, p) && #[trigger] difference_is(dnorm[i], p, q)
                && #[trigger] product_is(q, rstd[r], v) && sum_is(z[i], v, y[i]);
        assert(val(norm[i]) == times(val(x[r * c + i]), val(rstd[r])));
        assert(val(dnorm[i]) == times(val(w[i]), val(d[r * c + i])));
        assert(val(p) == times(val(norm[i]), val(mean)));
        assert(val(v) == times(val(q), val(rstd[r])));
    }
    assert(norm_gradient_row_values(val, x, rstd, w, d, c, old_x, new_x, r, val(mean)));
    lemma_overlap(val, x, rstd, w, d, n, c, r, norm, dnorm, mean);
}

/// The mean of the backward pass.
proof fn lemma_overlap<F: Scalar>(
    val: spec_fn(F) -> real,
    x: Seq<F>,
    rstd: Seq<F>,
    w: Seq<F>,
    d: Seq<F>,
    n: int,
    c: int,
    r: int,
    norm: Seq<F>,
    dnorm: Seq<F>,
    mean: F,
)
    requires
        exact(val),
        0 <= r < n,
        0 < c <= usize::MAX,
        x.len() == n * c,
        w.len() == c,
        d.len() == n * c,
        each_times_is(row(x, r, c), rstd[r], norm),
        scaled_is(w, row(d, r, c), dnorm),
        mean_product_is(dnorm, norm, mean),
    ensures
        times(val(mean), c as real) == norm_overlap(val, x, rstd, w, d, r, c),
{
    lemma_row_bounds(r, n, c);
    let xr = row(x, r, c);
    let g = row(d, r, c);
    let (zero, sum, count) = choose|zero: F, sum: F, count: F|
        #[trigger] is_zero(zero) && #[trigger] dot_from_is(zero, dnorm, norm, sum)
            && #[trigger] ratio_is(norm.len() as usize, 1, count) && quotient_is(sum, count, mean);
    lemma_dot_value(val, c as nat, zero, dnorm, norm, sum);
    let f = |i: int| times(val(dnorm[i]), val(norm[i]));
    let h = |i: int|
        times(times(val(w[i]), val(d[r * c + i])), times(val(x[r * c + i]), val(rstd[r])));
    assert forall|i: int| 0 <= i < c implies #[trigger] f(i) == h(i) by {
        assert(product_is(xr[i], rstd[r], norm[i]));
        assert(product_is(w[i], g[i], dnorm[i]));
        assert(val(norm[i]) == times(val(x[r * c + i]), val(rstd[r])));
        assert(val(dnorm[i]) == times(val(w[i]), val(d[r * c + i])));
    }
    lemma_sum_same(c as nat, f, h);
    lemma_sum_same(c as nat, f, |i: int| times(val(dnorm[i]), val(norm[i])));
    lemma_sum_same(
        c as nat,
        h,
        |i: int|
            times(times(val(w[i]), val(d[r * c + i])), times(val(x[r * c + i]), val(rstd[r]))),
    );
    let k = val(count);
    assert(k * (1 as int as real) == c as real);
    assert(k * 1 as real == k) by (nonlinear_arith);
}

/// The gradient of the norm's weight adds to what was there the normed inputs
/// times the output gradients, over all rows.
pub proof fn lemma_norm_weight_gradient_values<F: Scalar>(
    val: spec_fn(F) -> real,
    x: Seq<F>,
    rstd: Seq<F>,
    d: Seq<F>,
    n: int,
    c: int,
    old_w: Seq<F>,
    new_w: Seq<F>,
    i: int,
)
    requires
        exact(val),
        0 <= n,
        0 <= i < c,
        norm_weight_gradient_is(x, rstd, d, n, c, old_w, new_w),
    ensures
        new_w.len() == c,
        val(new_w[i]) == val(old_w[i]) + sum_to(
            n as nat,
            |r: int| times(times(val(x[r * c + i]), val(rstd[r])), val(d[r * c + i])),
        ),
{
    reveal(norm_weight_gradient_is);
    crate::adjoint::lemma_norm_weight_value(
        val,
        n as nat,
        old_w[i],
        x,
        rstd,
        d,
        c,
        i,
        new_w[i],
    );
    lemma_sum_same(
        n as nat,
        |q: int| times(times(val(x[q * c + i]), val(rstd[q])), val(d[q * c + i])),
        |r: int| times(times(val(x[r * c + i]), val(rstd[r])), val(d[r * c + i])),
    );
}

} // verus!
