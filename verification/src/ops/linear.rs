//! The linear layer `out = inp @ W^T + b` with a weight of one row per output
//! unit, and its backward pass.

use vstd::prelude::*;

use crate::arena::{
    copied, disjoint_mut, flatten, lemma_row_bounds,
    only_changed, only_changed2, par_map, patch, row, row_of, store, tensor,
};
use crate::layout::lemma_nonneg;
use crate::scalar::{
    dot_from, dot_from_is, dot_steps, fold_is, is_zero, lemma_fold_push, mul_add_is, sum_is,
    sum_steps, total_is, Scalar,
};

verus! {

/// The values that a bias holds, if there is one.
pub open spec fn bias_values<F>(bias: Option<&[F]>) -> Option<Seq<F>> {
    match bias {
        Some(b) => Some(b@),
        None => None,
    }
}

/// What the sum of output unit `o` starts from: its bias, or zero.
pub open spec fn start_is<F: Scalar>(bias: Option<Seq<F>>, o: int, v: F) -> bool {
    match bias {
        Some(b) => v == b[o],
        None => is_zero(v),
    }
}

/// `r` is the output of unit `o` with weights `w` on the input `x`.
pub open spec fn unit_is<F: Scalar>(
    x: Seq<F>,
    w: Seq<F>,
    bias: Option<Seq<F>>,
    o: int,
    r: F,
) -> bool {
    exists|init: F| start_is(bias, o, init) && #[trigger] dot_from_is(init, x, w, r)
}

/// `y` holds the outputs of the `oc` units whose weights are the rows of `w`,
/// on the input `x`.
pub open spec fn linear_row_is<F: Scalar>(
    x: Seq<F>,
    w: Seq<F>,
    bias: Option<Seq<F>>,
    oc: int,
    y: Seq<F>,
) -> bool {
    &&& y.len() == oc
    &&& forall|o: int|
        0 <= o < oc ==> unit_is(x, row(w, o, x.len() as int), bias, o, #[trigger] y[o])
}

/// `out` (`n` rows of `oc`) is `inp` (`n` rows of `c`) times the transposed `w`
/// (`oc` rows of `c`), plus the bias.
#[verifier::opaque]
pub open spec fn linear_is<F: Scalar>(
    inp: Seq<F>,
    w: Seq<F>,
    bias: Option<Seq<F>>,
    n: int,
    c: int,
    oc: int,
    out: Seq<F>,
) -> bool {
    &&& out.len() == n * oc
    &&& forall|r: int|
        0 <= r < n ==> linear_row_is(row(inp, r, c), w, bias, oc, #[trigger] row(out, r, oc))
}

/// The outputs for row `r` of `inp`.
fn linear_row<F: Scalar>(
    inp: &[F],
    weight: &[F],
    bias: Option<&[F]>,
    n: usize,
    c: usize,
    oc: usize,
    r: usize,
) -> (y: Vec<F>)
    requires
        r < n,
        inp@.len() == n * c,
        weight@.len() == oc * c,
        bias matches Some(b) ==> b@.len() == oc,
    ensures
        linear_row_is(row(inp@, r as int, c as int), weight@, bias_values(bias), oc as int, y@),
{
    let x: &[F] = row_of(inp, r, n, c);
    let mut y: Vec<F> = Vec::with_capacity(oc);
    for o in 0..oc
        invariant
            x@ == row(inp@, r as int, c as int),
            x@.len() == c,
            weight@.len() == oc * c,
            bias matches Some(b) ==> b@.len() == oc,
            y@.len() == o,
            forall|q: int|
                0 <= q < o ==> unit_is(
                    x@,
                    row(weight@, q, c as int),
                    bias_values(bias),
                    q,
                    #[trigger] y@[q],
                ),
    {
        let init = match bias {
            Some(b) => b[o],
            None => F::zero(),
        };
        let v = dot_from(init, x, row_of(weight, o, oc, c));
        assert(unit_is(x@, row(weight@, o as int, c as int), bias_values(bias), o as int, v));
        y.push(v);
    }
    y
}

/// Linear layer: fills `out` row by row, the rows in parallel.
pub fn matmul_forward<F: Scalar>(
    out: &mut [F],
    inp: &[F],
    weight: &[F],
    bias: Option<&[F]>,
    n: usize,
    c: usize,
    oc: usize,
)
    requires
        old(out)@.len() == n * oc,
        inp@.len() == n * c,
        weight@.len() == oc * c,
        bias matches Some(b) ==> b@.len() == oc,
    ensures
        linear_is(
            inp@,
            weight@,
            bias_values(bias),
            n as int,
            c as int,
            oc as int,
            final(out)@,
        ),
{
    proof {
        reveal(linear_is);
    }
    let rows = par_map(n, |r: usize| -> (y: Vec<F>)
        requires r < n, inp@.len() == n * c, weight@.len() == oc * c, bias matches Some(b) ==> b@.len() == oc,
        ensures linear_row_is(row(inp@, r as int, c as int), weight@, bias_values(bias), oc as int, y@),
        { linear_row(inp, weight, bias, n, c, oc, r) });
    let flat = flatten(&rows, oc);
    store(out, 0, flat.as_slice());
    assert(tensor(out@, 0, n * oc) =~= out@);
}

/// Linear layer between two tensors of one arena.
pub fn linear<F: Scalar>(
    acts: &mut [F],
    out_off: usize,
    inp_off: usize,
    weight: &[F],
    bias: Option<&[F]>,
    n: usize,
    c: usize,
    oc: usize,
)
    requires
        n * c <= usize::MAX,
        n * oc <= usize::MAX,
        inp_off + n * c <= old(acts).len(),
        out_off + n * oc <= old(acts).len(),
        if inp_off < out_off {
            inp_off + n * c <= out_off
        } else {
            out_off + n * oc <= inp_off
        },
        weight@.len() == oc * c,
        bias matches Some(b) ==> b@.len() == oc,
    ensures
        only_changed(old(acts)@, final(acts)@, out_off as int, n * oc),
        linear_is(
            tensor(old(acts)@, inp_off as int, n * c),
            weight@,
            bias_values(bias),
            n as int,
            c as int,
            oc as int,
            tensor(final(acts)@, out_off as int, n * oc),
        ),
{
    proof {
        reveal(linear_is);
        lemma_nonneg(n as int, c as int);
        lemma_nonneg(n as int, oc as int);
    }
    let ghost before = acts@;
    let (inp, out) = disjoint_mut(acts, inp_off, n * c, out_off, n * oc);
    matmul_forward(out, inp, weight, bias, n, c, oc);
    proof {
        let y = out@;
        assert(acts@ =~= patch(before, out_off as int, y));
        assert(tensor(acts@, out_off as int, n * oc) =~= y);
    }
}

/// Column `i` of a matrix with `n` rows of `c` values.
pub open spec fn column<F>(s: Seq<F>, n: int, c: int, i: int) -> Seq<F> {
    Seq::new(n as nat, |r: int| s[r * c + i])
}

/// `new_x` is `old_x` plus the input gradient of one row: the gradient `d` of
/// its outputs times the weights `w` (a row of `c` for each output).
pub open spec fn input_gradient_row_is<F: Scalar>(
    d: Seq<F>,
    w: Seq<F>,
    c: int,
    old_x: Seq<F>,
    new_x: Seq<F>,
) -> bool {
    &&& new_x.len() == c
    &&& forall|i: int|
        0 <= i < c ==> dot_from_is(
            old_x[i],
            column(w, d.len() as int, c, i),
            d,
            #[trigger] new_x[i],
        )
}

/// `new_x` is `old_x` plus `dout @ W`, row by row.
#[verifier::opaque]
pub open spec fn input_gradient_is<F: Scalar>(
    dout: Seq<F>,
    w: Seq<F>,
    n: int,
    c: int,
    oc: int,
    old_x: Seq<F>,
    new_x: Seq<F>,
) -> bool {
    &&& new_x.len() == n * c
    &&& forall|r: int|
        0 <= r < n ==> input_gradient_row_is(
            row(dout, r, oc),
            w,
            c,
            row(old_x, r, c),
            #[trigger] row(new_x, r, c),
        )
}

/// `new_w` is `old_w` plus the weight gradient of output unit `o`.
pub open spec fn weight_gradient_row_is<F: Scalar>(
    dout: Seq<F>,
    inp: Seq<F>,
    n: int,
    c: int,
    oc: int,
    o: int,
    old_w: Seq<F>,
    new_w: Seq<F>,
) -> bool {
    &&& new_w.len() == c
    &&& forall|i: int|
        0 <= i < c ==> dot_from_is(
            old_w[i],
            column(inp, n, c, i),
            column(dout, n, oc, o),
            #[trigger] new_w[i],
        )
}

/// `new_w` is `old_w` plus the transposed `dout` times `inp`, row by row.
#[verifier::opaque]
pub open spec fn weight_gradient_is<F: Scalar>(
    dout: Seq<F>,
    inp: Seq<F>,
    n: int,
    c: int,
    oc: int,
    old_w: Seq<F>,
    new_w: Seq<F>,
) -> bool {
    &&& new_w.len() == oc * c
    &&& forall|o: int|
        0 <= o < oc ==> weight_gradient_row_is(
            dout,
            inp,
            n,
            c,
            oc,
            o,
            row(old_w, o, c),
            #[trigger] row(new_w, o, c),
        )
}

/// `new_b[o]` is `old_b[o]` plus the sum of column `o` of `dout`.
#[verifier::opaque]
pub open spec fn bias_gradient_is<F: Scalar>(
    dout: Seq<F>,
    n: int,
    oc: int,
    old_b: Seq<F>,
    new_b: Seq<F>,
) -> bool {
    &&& new_b.len() == oc
    &&& forall|o: int|
        0 <= o < oc ==> bias_gradient_at(column(dout, n, oc, o), old_b[o], #[trigger] new_b[o])
}

/// `new_b` is `old_b` plus the sum of `d`.
pub open spec fn bias_gradient_at<F: Scalar>(d: Seq<F>, old_b: F, new_b: F) -> bool {
    exists|s: F| total_is(d, s) && #[trigger] sum_is(old_b, s, new_b)
}

/// Row `r` of the input gradient on top of `dinp`.
fn input_gradient_row<F: Scalar>(
    dinp: &[F],
    dout: &[F],
    weight: &[F],
    n: usize,
    c: usize,
    oc: usize,
    r: usize,
) -> (x: Vec<F>)
    requires
        r < n,
        dinp@.len() == n * c,
        dout@.len() == n * oc,
        weight@.len() == oc * c,
    ensures
        input_gradient_row_is(
            row(dout@, r as int, oc as int),
            weight@,
            c as int,
            row(dinp@, r as int, c as int),
            x@,
        ),
{
    let start: &[F] = row_of(dinp, r, n, c);
    let d: &[F] = row_of(dout, r, n, oc);
    let mut x = copied(start);
    for o in 0..oc
        invariant
            start@.len() == c,
            d@.len() == oc,
            x@.len() == c,
            weight@.len() == oc * c,
            forall|i: int|
                0 <= i < c ==> fold_is(
                    o as nat,
                    start@[i],
                    dot_steps(column(weight@, oc as int, c as int, i), d@),
                    #[trigger] x@[i],
                ),
    {
        let w: &[F] = row_of(weight, o, oc, c);
        for i in 0..c
            invariant
                o < oc,
                start@.len() == c,
                d@.len() == oc,
                w@.len() == c,
                x@.len() == c,
                w@ == row(weight@, o as int, c as int),
                weight@.len() == oc * c,
                forall|j: int|
                    0 <= j < c ==> fold_is(
                        if j < i { o as nat + 1 } else { o as nat },
                        start@[j],
                        dot_steps(column(weight@, oc as int, c as int, j), d@),
                        #[trigger] x@[j],
                    ),
        {
            let next = x[i].plus(w[i].times(d[o]));
            proof {
                lemma_row_bounds(o as int, oc as int, c as int);
                let steps = dot_steps(column(weight@, oc as int, c as int, i as int), d@);
                assert(mul_add_is(x@[i as int], w@[i as int], d@[o as int], next));
                lemma_fold_push(o as nat, start@[i as int], steps, x@[i as int], next);
            }
            x[i] = next;
        }
    }
    x
}

/// Row `o` of the weight gradient on top of `dweight`.
fn weight_gradient_row<F: Scalar>(
    dweight: &[F],
    dout: &[F],
    inp: &[F],
    n: usize,
    c: usize,
    oc: usize,
    o: usize,
) -> (w: Vec<F>)
    requires
        o < oc,
        dweight@.len() == oc * c,
        dout@.len() == n * oc,
        inp@.len() == n * c,
    ensures
        weight_gradient_row_is(
            dout@,
            inp@,
            n as int,
            c as int,
            oc as int,
            o as int,
            row(dweight@, o as int, c as int),
            w@,
        ),
{
    let start: &[F] = row_of(dweight, o, oc, c);
    let mut w = copied(start);
    let ghost dcol = column(dout@, n as int, oc as int, o as int);
    for r in 0..n
        invariant
            o < oc,
            start@.len() == c,
            w@.len() == c,
            dout@.len() == n * oc,
            inp@.len() == n * c,
            dcol == column(dout@, n as int, oc as int, o as int),
            forall|i: int|
                0 <= i < c ==> fold_is(
                    r as nat,
                    start@[i],
                    dot_steps(column(inp@, n as int, c as int, i), dcol),
                    #[trigger] w@[i],
                ),
    {
        let x: &[F] = row_of(inp, r, n, c);
        let d = row_of(dout, r, n, oc)[o];
        proof {
            lemma_row_bounds(r as int, n as int, oc as int);
            assert(d == dcol[r as int]);
        }
        for i in 0..c
            invariant
                r < n,
                start@.len() == c,
                x@.len() == c,
                w@.len() == c,
                x@ == row(inp@, r as int, c as int),
                inp@.len() == n * c,
                dcol.len() == n,
                d == dcol[r as int],
                forall|j: int|
                    0 <= j < c ==> fold_is(
                        if j < i { r as nat + 1 } else { r as nat },
                        start@[j],
                        dot_steps(column(inp@, n as int, c as int, j), dcol),
                        #[trigger] w@[j],
                    ),
        {
            let next = w[i].plus(x[i].times(d));
            proof {
                lemma_row_bounds(r as int, n as int, c as int);
                let steps = dot_steps(column(inp@, n as int, c as int, i as int), dcol);
                assert(mul_add_is(w@[i as int], x@[i as int], d, next));
                lemma_fold_push(r as nat, start@[i as int], steps, w@[i as int], next);
            }
            w[i] = next;
        }
    }
    w
}

/// Entry `o` of the bias gradient on top of `start`.
fn bias_gradient<F: Scalar>(start: F, dout: &[F], n: usize, oc: usize, o: usize) -> (b: F)
    requires
        o < oc,
        dout@.len() == n * oc,
    ensures
        bias_gradient_at(column(dout@, n as int, oc as int, o as int), start, b),
{
    let ghost d = column(dout@, n as int, oc as int, o as int);
    let zero = F::zero();
    let mut acc = zero;
    for r in 0..n
        invariant
            o < oc,
            dout@.len() == n * oc,
            d == column(dout@, n as int, oc as int, o as int),
            fold_is(r as nat, zero, sum_steps(d), acc),
    {
        let next = acc.plus(row_of(dout, r, n, oc)[o]);
        proof {
            lemma_row_bounds(r as int, n as int, oc as int);
            lemma_fold_push(r as nat, zero, sum_steps(d), acc, next);
        }
        acc = next;
    }
    assert(total_is(d, acc));
    start.plus(acc)
}

/// Backward of the linear layer: adds to `dinp`, `dweight` and `dbias`, the
/// rows of `dinp` in parallel, then the output units in parallel.
pub fn matmul_backward<F: Scalar>(
    dinp: &mut [F],
    dout: &[F],
    dweight: &mut [F],
    dbias: Option<&mut [F]>,
    inp: &[F],
    weight: &[F],
    n: usize,
    c: usize,
    oc: usize,
)
    requires
        old(dinp)@.len() == n * c,
        dout@.len() == n * oc,
        old(dweight)@.len() == oc * c,
        dbias matches Some(b) ==> b@.len() == oc,
        inp@.len() == n * c,
        weight@.len() == oc * c,
    ensures
        input_gradient_is(
            dout@,
            weight@,
            n as int,
            c as int,
            oc as int,
            old(dinp)@,
            final(dinp)@,
        ),
        weight_gradient_is(
            dout@,
            inp@,
            n as int,
            c as int,
            oc as int,
            old(dweight)@,
            final(dweight)@,
        ),
        dbias matches Some(b) ==> bias_gradient_is(dout@, n as int, oc as int, b@, final(b)@),
{
    proof {
        reveal(input_gradient_is);
        reveal(weight_gradient_is);
        reveal(bias_gradient_is);
    }
    let old_dinp: &[F] = dinp;
    let rows = par_map(n, |r: usize| -> (x: Vec<F>)
        requires r < n, old_dinp@.len() == n * c, dout@.len() == n * oc, weight@.len() == oc * c,
        ensures input_gradient_row_is(row(dout@, r as int, oc as int), weight@, c as int, row(old_dinp@, r as int, c as int), x@),
        { input_gradient_row(old_dinp, dout, weight, n, c, oc, r) });
    let flat = flatten(&rows, c);
    store(dinp, 0, flat.as_slice());
    assert(tensor(dinp@, 0, n * c) =~= dinp@);
    let old_dweight: &[F] = dweight;
    let units = par_map(oc, |o: usize| -> (w: Vec<F>)
        requires o < oc, old_dweight@.len() == oc * c, dout@.len() == n * oc, inp@.len() == n * c,
        ensures weight_gradient_row_is(dout@, inp@, n as int, c as int, oc as int, o as int, row(old_dweight@, o as int, c as int), w@),
        { weight_gradient_row(old_dweight, dout, inp, n, c, oc, o) });
    let flat_w = flatten(&units, c);
    store(dweight, 0, flat_w.as_slice());
    assert(tensor(dweight@, 0, oc * c) =~= dweight@);
    match dbias {
        Some(db) => {
            let old_db: &[F] = db;
            let sums = par_map(oc, |o: usize| -> (b: F)
                requires o < oc, old_db@.len() == oc, dout@.len() == n * oc,
                ensures bias_gradient_at(column(dout@, n as int, oc as int, o as int), old_db@[o as int], b),
                { bias_gradient(old_db[o], dout, n, oc, o) });
            store(db, 0, sums.as_slice());
            assert(tensor(db@, 0, oc as int) =~= db@);
        },
        None => {},
    }
}

/// Backward of the linear layer between tensors of the arenas: the output
/// gradient and the input gradient lie in `gacts`, the weight and the bias
/// gradient in `grads`.
pub fn linear_backward<F: Scalar>(
    gacts: &mut [F],
    dinp_off: usize,
    dout_off: usize,
    grads: &mut [F],
    dweight_off: usize,
    dbias_off: Option<usize>,
    acts: &[F],
    inp_off: usize,
    params: &[F],
    weight_off: usize,
    n: usize,
    c: usize,
    oc: usize,
)
    requires
        n * c <= usize::MAX,
        n * oc <= usize::MAX,
        oc * c <= usize::MAX,
        dinp_off + n * c <= old(gacts).len(),
        dout_off + n * oc <= old(gacts).len(),
        if dinp_off < dout_off {
            dinp_off + n * c <= dout_off
        } else {
            dout_off + n * oc <= dinp_off
        },
        dweight_off + oc * c <= old(grads).len(),
        dbias_off matches Some(dbo) ==> {
            &&& dbo + oc <= old(grads).len()
            &&& if dweight_off < dbo {
                dweight_off + oc * c <= dbo
            } else {
                dbo + oc <= dweight_off
            }
        },
        inp_off + n * c <= acts.len(),
        weight_off + oc * c <= params.len(),
    ensures
        only_changed(old(gacts)@, final(gacts)@, dinp_off as int, n * c),
        input_gradient_is(
            tensor(old(gacts)@, dout_off as int, n * oc),
            tensor(params@, weight_off as int, oc * c),
            n as int,
            c as int,
            oc as int,
            tensor(old(gacts)@, dinp_off as int, n * c),
            tensor(final(gacts)@, dinp_off as int, n * c),
        ),
        weight_gradient_is(
            tensor(old(gacts)@, dout_off as int, n * oc),
            tensor(acts@, inp_off as int, n * c),
            n as int,
            c as int,
            oc as int,
            tensor(old(grads)@, dweight_off as int, oc * c),
            tensor(final(grads)@, dweight_off as int, oc * c),
        ),
        match dbias_off {
            Some(dbo) => {
                &&& only_changed2(
                    old(grads)@,
                    final(grads)@,
                    dweight_off as int,
                    oc * c,
                    dbo as int,
                    oc as int,
                )
                &&& bias_gradient_is(
                    tensor(old(gacts)@, dout_off as int, n * oc),
                    n as int,
                    oc as int,
                    tensor(old(grads)@, dbo as int, oc as int),
                    tensor(final(grads)@, dbo as int, oc as int),
                )
            },
            None => only_changed(old(grads)@, final(grads)@, dweight_off as int, oc * c),
        },
{
    proof {
        reveal(input_gradient_is);
        reveal(weight_gradient_is);
        reveal(bias_gradient_is);
        lemma_nonneg(n as int, c as int);
        lemma_nonneg(n as int, oc as int);
        lemma_nonneg(oc as int, c as int);
    }
    let ghost before = gacts@;
    let ghost before_w = grads@;
    let (dinp, dout) = disjoint_mut(gacts, dinp_off, n * c, dout_off, n * oc);
    let inp: &[F] = &acts[inp_off..inp_off + n * c];
    let weight: &[F] = &params[weight_off..weight_off + oc * c];
    match dbias_off {
        Some(dbo) => {
            let (dweight, dbias) = disjoint_mut(grads, dweight_off, oc * c, dbo, oc);
            matmul_backward(dinp, dout, dweight, Some(dbias), inp, weight, n, c, oc);
            proof {
                let x = dinp@;
                let w = dweight@;
                assert(tensor(grads@, dweight_off as int, oc * c) =~= w);
                assert(gacts@ =~= patch(before, dinp_off as int, x));
                assert(tensor(gacts@, dinp_off as int, n * c) =~= x);
            }
        },
        None => {
            let (_, tail) = grads.split_at_mut(dweight_off);
            let (dweight, _) = tail.split_at_mut(oc * c);
            assert(dweight@ =~= tensor(before_w, dweight_off as int, oc * c));
            matmul_backward(dinp, dout, dweight, None, inp, weight, n, c, oc);
            proof {
                let x = dinp@;
                let w = dweight@;
                assert(gacts@ =~= patch(before, dinp_off as int, x));
                assert(tensor(gacts@, dinp_off as int, n * c) =~= x);
                assert(grads@ =~= patch(before_w, dweight_off as int, w));
                assert(tensor(grads@, dweight_off as int, oc * c) =~= w);
            }
        },
    }
}

} // verus!
