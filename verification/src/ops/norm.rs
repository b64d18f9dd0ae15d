//! RMSNorm: `out = x * rsqrt(mean(x^2) + eps) * weight`, without centring and
//! without bias, and its backward pass.

use vstd::prelude::*;

use crate::arena::{
    apart, copied, flatten, group_kept, lemma_row_bounds, only_changed, only_changed2, row, row_of,
    store, tensor,
};
use crate::layout::lemma_nonneg;
use crate::ops::pointwise::{each_times_is, scaled_is};
use crate::scalar::{
    difference_is, dot_from, dot_from_is, fold_is, is_one, is_zero, lemma_fold_push, mul_add_is,
    product_is, quotient_is, ratio_is, sqrt_is, sum_is, Scalar,
};

verus! {

/// `r` is the mean of the squares of `x`.
pub open spec fn mean_square_is<F: Scalar>(x: Seq<F>, r: F) -> bool {
    exists|zero: F, sum: F, count: F|
        #[trigger] is_zero(zero) && #[trigger] dot_from_is(zero, x, x, sum) && #[trigger] ratio_is(
            x.len() as usize,
            1,
            count,
        ) && quotient_is(sum, count, r)
}

/// `r` is `1 / sqrt(mean(x^2) + 1e-5)`.
pub open spec fn rstd_is<F: Scalar>(x: Seq<F>, r: F) -> bool {
    exists|ms: F, eps: F, shifted: F, root: F, one: F|
        #[trigger] mean_square_is(x, ms) && #[trigger] ratio_is(1, 100000, eps)
            && #[trigger] sum_is(ms, eps, shifted) && #[trigger] sqrt_is(shifted, root)
            && #[trigger] is_one(one) && quotient_is(one, root, r)
}

/// `r` is `x * rstd * w`.
pub open spec fn normed_at<F: Scalar>(x: F, rstd: F, w: F, r: F) -> bool {
    exists|p: F| #[trigger] product_is(x, rstd, p) && product_is(p, w, r)
}

/// `y` is the norm of `x` with `weight`, and `rstd` the factor in it.
pub open spec fn rmsnorm_row_is<F: Scalar>(x: Seq<F>, weight: Seq<F>, y: Seq<F>, rstd: F) -> bool {
    &&& rstd_is(x, rstd)
    &&& y.len() == x.len()
    &&& forall|i: int| 0 <= i < x.len() ==> normed_at(x[i], rstd, weight[i], #[trigger] y[i])
}

/// `out` is the norm of `inp` row by row (`n` rows of `c`), and `rstd` holds
/// the factor of each row.
#[verifier::opaque]
pub open spec fn rmsnorm_is<F: Scalar>(
    inp: Seq<F>,
    weight: Seq<F>,
    n: int,
    c: int,
    out: Seq<F>,
    rstd: Seq<F>,
) -> bool {
    &&& out.len() == n * c
    &&& rstd.len() == n
    &&& forall|r: int|
        #![trigger row(out, r, c)]
        #![trigger rstd[r]]
        0 <= r < n ==> rmsnorm_row_is(row(inp, r, c), weight, row(out, r, c), rstd[r])
}

/// The norm of one row, and the factor in it.
fn rmsnorm_row<F: Scalar>(x: &[F], weight: &[F]) -> (res: (Vec<F>, F))
    requires
        x.len() == weight.len(),
    ensures
        rmsnorm_row_is(x@, weight@, res.0@, res.1),
{
    let c = x.len();
    let sum = dot_from(F::zero(), x, x);
    let ms = sum.divide(F::from_ratio(c, 1));
    assert(mean_square_is(x@, ms));
    let rstd = F::one().divide(ms.plus(F::from_ratio(1, 100000)).sqrt());
    assert(rstd_is(x@, rstd));
    let mut y: Vec<F> = Vec::with_capacity(c);
    for i in 0..c
        invariant
            c == x.len(),
            c == weight.len(),
            y@.len() == i,
            forall|j: int| 0 <= j < i ==> normed_at(x@[j], rstd, weight@[j], #[trigger] y@[j]),
    {
        let v = x[i].times(rstd).times(weight[i]);
        assert(normed_at(x@[i as int], rstd, weight@[i as int], v));
        y.push(v);
    }
    (y, rstd)
}

/// RMSNorm between tensors of one arena: `n` rows of `c` from `inp_off` to
/// `out_off`, with the factor of each row at `rstd_off`.
pub fn rmsnorm_forward<F: Scalar>(
    acts: &mut [F],
    out_off: usize,
    rstd_off: usize,
    inp_off: usize,
    weight: &[F],
    n: usize,
    c: usize,
)
    requires
        n * c <= usize::MAX,
        inp_off + n * c <= old(acts).len(),
        out_off + n * c <= old(acts).len(),
        rstd_off + n <= old(acts).len(),
        apart(inp_off as int, n * c, out_off as int, n * c),
        apart(inp_off as int, n * c, rstd_off as int, n as int),
        apart(out_off as int, n * c, rstd_off as int, n as int),
        weight@.len() == c,
    ensures
        only_changed2(
            old(acts)@,
            final(acts)@,
            out_off as int,
            n * c,
            rstd_off as int,
            n as int,
        ),
        rmsnorm_is(
            tensor(old(acts)@, inp_off as int, n * c),
            weight@,
            n as int,
            c as int,
            tensor(final(acts)@, out_off as int, n * c),
            tensor(final(acts)@, rstd_off as int, n as int),
        ),
{
    proof {
        reveal(rmsnorm_is);
    }
    broadcast use group_kept;

    proof {
        lemma_nonneg(n as int, c as int);
    }
    let inp: &[F] = &acts[inp_off..inp_off + n * c];
    let mut rows: Vec<Vec<F>> = Vec::with_capacity(n);
    let mut rstds: Vec<F> = Vec::with_capacity(n);
    for r in 0..n
        invariant
            inp@.len() == n * c,
            weight@.len() == c,
            rows@.len() == r,
            rstds@.len() == r,
            forall|q: int|
                #![trigger rows@[q]]
                #![trigger rstds@[q]]
                0 <= q < r ==> rows@[q]@.len() == c && rmsnorm_row_is(
                    row(inp@, q, c as int),
                    weight@,
                    rows@[q]@,
                    rstds@[q],
                ),
    {
        let (y, rstd) = rmsnorm_row(row_of(inp, r, n, c), weight);
        rows.push(y);
        rstds.push(rstd);
    }
    let flat = flatten(&rows, c);
    store(acts, out_off, flat.as_slice());
    store(acts, rstd_off, rstds.as_slice());
}

/// `r` is `(sum of dnorm[i] * norm[i]) / c`.
pub open spec fn mean_product_is<F: Scalar>(dnorm: Seq<F>, norm: Seq<F>, r: F) -> bool {
    exists|zero: F, sum: F, count: F|
        #[trigger] is_zero(zero) && #[trigger] dot_from_is(zero, dnorm, norm, sum)
            && #[trigger] ratio_is(norm.len() as usize, 1, count) && quotient_is(sum, count, r)
}

/// `new_d` is `old_d + (dnorm - norm * mean) * rstd`.
pub open spec fn norm_gradient_at<F: Scalar>(
    norm: F,
    dnorm: F,
    mean: F,
    rstd: F,
    old_d: F,
    new_d: F,
) -> bool {
    exists|p: F, q: F, v: F|
        #[trigger] product_is(norm, mean, p) && #[trigger] difference_is(dnorm, p, q)
            && #[trigger] product_is(q, rstd, v) && sum_is(old_d, v, new_d)
}

/// `new_d` is `old_d` plus the gradient of the norm of `x`, given the gradient
/// `g` of the normed row: with `norm = x * rstd` and `dnorm = weight * g`, what
/// is added is `(dnorm - norm * mean(dnorm * norm)) * rstd`.
pub open spec fn norm_gradient_row_is<F: Scalar>(
    x: Seq<F>,
    rstd: F,
    weight: Seq<F>,
    g: Seq<F>,
    old_d: Seq<F>,
    new_d: Seq<F>,
) -> bool {
    exists|norm: Seq<F>, dnorm: Seq<F>, mean: F|
        #[trigger] each_times_is(x, rstd, norm) && #[trigger] scaled_is(
            weight,
            g,
            dnorm,
        ) && #[trigger] mean_product_is(dnorm, norm, mean) && new_d.len() == x.len() && forall|i: int|
            0 <= i < x.len() ==> norm_gradient_at(
                norm[i],
                dnorm[i],
                mean,
                rstd,
                old_d[i],
                #[trigger] new_d[i],
            )
}

/// The steps of the gradient of norm weight `i`: row `r` adds
/// `(x * rstd) * g`.
pub open spec fn norm_weight_steps<F: Scalar>(
    inp: Seq<F>,
    rstd: Seq<F>,
    dout: Seq<F>,
    c: int,
    i: int,
) -> spec_fn(nat, F, F) -> bool {
    |r: nat, acc: F, next: F|
        exists|norm: F|
            #[trigger] product_is(inp[r * c + i], rstd[r as int], norm) && mul_add_is(
                acc,
                norm,
                dout[r * c + i],
                next,
            )
}

/// `new_w` is `old_w` plus the gradient of the norm weight.
#[verifier::opaque]
pub open spec fn norm_weight_gradient_is<F: Scalar>(
    inp: Seq<F>,
    rstd: Seq<F>,
    dout: Seq<F>,
    n: int,
    c: int,
    old_w: Seq<F>,
    new_w: Seq<F>,
) -> bool {
    &&& new_w.len() == c
    &&& forall|i: int|
        0 <= i < c ==> fold_is(
            n as nat,
            old_w[i],
            norm_weight_steps(inp, rstd, dout, c, i),
            #[trigger] new_w[i],
        )
}

/// `new_d` is `old_d` plus the gradient of the norm of `inp`, row by row.
#[verifier::opaque]
pub open spec fn norm_gradient_is<F: Scalar>(
    inp: Seq<F>,
    rstd: Seq<F>,
    weight: Seq<F>,
    dout: Seq<F>,
    n: int,
    c: int,
    old_d: Seq<F>,
    new_d: Seq<F>,
) -> bool {
    &&& new_d.len() == n * c
    &&& forall|r: int|
        0 <= r < n ==> norm_gradient_row_is(
            row(inp, r, c),
            rstd[r],
            weight,
            row(dout, r, c),
            row(old_d, r, c),
            #[trigger] row(new_d, r, c),
        )
}

/// One row of the backward pass: the input gradient of the row, and the row
/// without its weight.
fn norm_gradient_row<F: Scalar>(x: &[F], rstd: F, weight: &[F], g: &[F], old_d: &[F]) -> (res: (
    Vec<F>,
    Vec<F>,
))
    requires
        x.len() == weight.len(),
        x.len() == g.len(),
        x.len() == old_d.len(),
    ensures
        norm_gradient_row_is(x@, rstd, weight@, g@, old_d@, res.0@),
        each_times_is(x@, rstd, res.1@),
{
    let c = x.len();
    let mut norm: Vec<F> = Vec::with_capacity(c);
    let mut dnorm: Vec<F> = Vec::with_capacity(c);
    for i in 0..c
        invariant
            c == x.len(),
            c == weight.len(),
            c == g.len(),
            norm@.len() == i,
            dnorm@.len() == i,
            forall|j: int| 0 <= j < i ==> product_is(x@[j], rstd, #[trigger] norm@[j]),
            forall|j: int| 0 <= j < i ==> product_is(weight@[j], g@[j], #[trigger] dnorm@[j]),
    {
        norm.push(x[i].times(rstd));
        dnorm.push(weight[i].times(g[i]));
    }
    let sum = dot_from(F::zero(), dnorm.as_slice(), norm.as_slice());
    let mean = sum.divide(F::from_ratio(c, 1));
    assert(mean_product_is(dnorm@, norm@, mean));
    let mut new_d: Vec<F> = Vec::with_capacity(c);
    for i in 0..c
        invariant
            c == old_d.len(),
            c == norm@.len(),
            c == dnorm@.len(),
            new_d@.len() == i,
            forall|j: int|
                0 <= j < i ==> norm_gradient_at(
                    norm@[j],
                    dnorm@[j],
                    mean,
                    rstd,
                    old_d@[j],
                    #[trigger] new_d@[j],
                ),
    {
        let dval = dnorm[i].minus(norm[i].times(mean)).times(rstd);
        let next = old_d[i].plus(dval);
        assert(norm_gradient_at(
            norm@[i as int],
            dnorm@[i as int],
            mean,
            rstd,
            old_d@[i as int],
            next,
        ));
        new_d.push(next);
    }
    assert(each_times_is(x@, rstd, norm@));
    assert(scaled_is(weight@, g@, dnorm@));
    (new_d, norm)
}

/// Add `norm[i] * g[i]` to each `w[i]`.
fn add_products<F: Scalar>(w: &mut Vec<F>, norm: &[F], g: &[F])
    requires
        old(w)@.len() == norm@.len(),
        old(w)@.len() == g@.len(),
    ensures
        final(w)@.len() == old(w)@.len(),
        forall|i: int|
            0 <= i < norm@.len() ==> mul_add_is(
                old(w)@[i],
                norm@[i],
                g@[i],
                #[trigger] final(w)@[i],
            ),
{
    let ghost before = w@;
    for i in 0..norm.len()
        invariant
            w@.len() == before.len(),
            w@.len() == norm@.len(),
            w@.len() == g@.len(),
            forall|j: int|
                0 <= j < i ==> mul_add_is(before[j], norm@[j], g@[j], #[trigger] w@[j]),
            forall|j: int| i <= j < before.len() ==> #[trigger] w@[j] == before[j],
    {
        let next = w[i].plus(norm[i].times(g[i]));
        assert(mul_add_is(before[i as int], norm@[i as int], g@[i as int], next));
        w[i] = next;
    }
}

/// Backward of RMSNorm between tensors of the arenas: adds to the input
/// gradient at `dinp_off` of `gacts` and to the weight gradient at
/// `dweight_off` of `grads`.
pub fn rmsnorm_backward<F: Scalar>(
    gacts: &mut [F],
    dinp_off: usize,
    dout_off: usize,
    grads: &mut [F],
    dweight_off: usize,
    acts: &[F],
    inp_off: usize,
    rstd_off: usize,
    params: &[F],
    weight_off: usize,
    n: usize,
    c: usize,
)
    requires
        n * c <= usize::MAX,
        dinp_off + n * c <= old(gacts).len(),
        dout_off + n * c <= old(gacts).len(),
        apart(dinp_off as int, n * c, dout_off as int, n * c),
        dweight_off + c <= old(grads).len(),
        inp_off + n * c <= acts.len(),
        rstd_off + n <= acts.len(),
        weight_off + c <= params.len(),
    ensures
        only_changed(old(gacts)@, final(gacts)@, dinp_off as int, n * c),
        only_changed(old(grads)@, final(grads)@, dweight_off as int, c as int),
        norm_gradient_is(
            tensor(acts@, inp_off as int, n * c),
            tensor(acts@, rstd_off as int, n as int),
            tensor(params@, weight_off as int, c as int),
            tensor(old(gacts)@, dout_off as int, n * c),
            n as int,
            c as int,
            tensor(old(gacts)@, dinp_off as int, n * c),
            tensor(final(gacts)@, dinp_off as int, n * c),
        ),
        norm_weight_gradient_is(
            tensor(acts@, inp_off as int, n * c),
            tensor(acts@, rstd_off as int, n as int),
            tensor(old(gacts)@, dout_off as int, n * c),
            n as int,
            c as int,
            tensor(old(grads)@, dweight_off as int, c as int),
            tensor(final(grads)@, dweight_off as int, c as int),
        ),
{
    proof {
        reveal(norm_gradient_is);
        reveal(norm_weight_gradient_is);
        lemma_nonneg(n as int, c as int);
    }
    let inp: &[F] = &acts[inp_off..inp_off + n * c];
    let rstd: &[F] = &acts[rstd_off..rstd_off + n];
    let weight: &[F] = &params[weight_off..weight_off + c];
    let dout: &[F] = &gacts[dout_off..dout_off + n * c];
    let dinp: &[F] = &gacts[dinp_off..dinp_off + n * c];
    let start: &[F] = &grads[dweight_off..dweight_off + c];
    let mut w = copied(start);
    let mut rows: Vec<Vec<F>> = Vec::with_capacity(n);
    for r in 0..n
        invariant
            inp@.len() == n * c,
            rstd@.len() == n,
            weight@.len() == c,
            dout@.len() == n * c,
            dinp@.len() == n * c,
            start@.len() == c,
            w@.len() == c,
            rows@.len() == r,
            forall|q: int|
                0 <= q < r ==> (#[trigger] rows@[q])@.len() == c && norm_gradient_row_is(
                    row(inp@, q, c as int),
                    rstd@[q],
                    weight@,
                    row(dout@, q, c as int),
                    row(dinp@, q, c as int),
                    rows@[q]@,
                ),
            forall|i: int|
                0 <= i < c ==> fold_is(
                    r as nat,
                    start@[i],
                    norm_weight_steps(inp@, rstd@, dout@, c as int, i),
                    #[trigger] w@[i],
                ),
    {
        let x = row_of(inp, r, n, c);
        let g = row_of(dout, r, n, c);
        let (new_d, norm) = norm_gradient_row(x, rstd[r], weight, g, row_of(dinp, r, n, c));
        rows.push(new_d);
        let ghost before = w@;
        add_products(&mut w, norm.as_slice(), g);
        proof {
            lemma_row_bounds(r as int, n as int, c as int);
            assert forall|i: int| 0 <= i < c implies fold_is(
                r as nat + 1,
                start@[i],
                norm_weight_steps(inp@, rstd@, dout@, c as int, i),
                #[trigger] w@[i],
            ) by {
                let steps = norm_weight_steps(inp@, rstd@, dout@, c as int, i);
                assert(product_is(inp@[r * c + i], rstd@[r as int], norm@[i]));
                assert(mul_add_is(before[i], norm@[i], dout@[r * c + i], w@[i]));
                lemma_fold_push(r as nat, start@[i], steps, before[i], w@[i]);
            }
        }
    }
    let flat = flatten(&rows, c);
    store(gacts, dinp_off, flat.as_slice());
    store(grads, dweight_off, w.as_slice());
}

} // verus!
