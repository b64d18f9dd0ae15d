//! Token embedding and its backward pass.

use vstd::prelude::*;

use crate::arena::{
    append, copied, lemma_row_bounds, lemma_rows_apart, only_changed, row, row_of, store, tensor,
};
use crate::layout::lemma_nonneg;
use crate::ops::loss::ids_below;
use crate::scalar::{fold_is, lemma_fold_push, sum_is, Scalar};

verus! {

/// Row `k` of `out` is the row of `wte` for token `ids[k]`.
#[verifier::opaque]
pub open spec fn embedding_is<F>(wte: Seq<F>, ids: Seq<u16>, c: int, out: Seq<F>) -> bool {
    &&& out.len() == ids.len() * c
    &&& forall|k: int|
        0 <= k < ids.len() ==> #[trigger] row(out, k, c) == row(wte, ids[k] as int, c)
}

/// Token embedding: the `b * t` rows of `c` at `out_off` become the rows of
/// `wte` that `ids` names.
pub fn encoder_forward<F: Scalar>(
    acts: &mut [F],
    out_off: usize,
    ids: &[u16],
    wte: &[F],
    v: usize,
    c: usize,
)
    requires
        ids@.len() * c <= usize::MAX,
        out_off + ids@.len() * c <= old(acts).len(),
        wte@.len() == v * c,
        ids_below(ids@, v as int),
    ensures
        only_changed(old(acts)@, final(acts)@, out_off as int, ids@.len() * c),
        embedding_is(
            wte@,
            ids@,
            c as int,
            tensor(final(acts)@, out_off as int, ids@.len() * c),
        ),
{
    proof {
        reveal(embedding_is);
    }
    let mut out: Vec<F> = Vec::new();
    assert(0 * c == 0) by (nonlinear_arith);
    for k in 0..ids.len()
        invariant
            wte@.len() == v * c,
            ids_below(ids@, v as int),
            out@.len() == k * c,
            forall|q: int|
                0 <= q < k ==> #[trigger] row(out@, q, c as int) == row(
                    wte@,
                    ids@[q] as int,
                    c as int,
                ),
    {
        let ghost before = out@;
        append(&mut out, row_of(wte, ids[k] as usize, v, c));
        proof {
            lemma_row_bounds(k as int, k + 1, c as int);
            assert forall|q: int| 0 <= q < k + 1 implies #[trigger] row(out@, q, c as int) == row(
                wte@,
                ids@[q] as int,
                c as int,
            ) by {
                if q < k {
                    lemma_row_bounds(q, k as int, c as int);
                    assert(row(out@, q, c as int) =~= row(before, q, c as int));
                } else {
                    assert(row(out@, q, c as int) =~= row(wte@, ids@[q] as int, c as int));
                }
            }
        }
    }
    store(acts, out_off, out.as_slice());
}

/// The steps of the gradient of channel `i` of vocabulary entry `x`: token `k`
/// adds its gradient if it is that entry.
pub open spec fn scatter_steps<F: Scalar>(
    ids: Seq<u16>,
    dout: Seq<F>,
    c: int,
    x: int,
    i: int,
) -> spec_fn(nat, F, F) -> bool {
    |k: nat, acc: F, next: F|
        if ids[k as int] == x {
            sum_is(acc, dout[k * c + i], next)
        } else {
            next == acc
        }
}

/// `new_w` is `old_w` plus the gradients of the tokens, each added to the row
/// of its vocabulary entry.
#[verifier::opaque]
pub open spec fn scatter_is<F: Scalar>(
    ids: Seq<u16>,
    dout: Seq<F>,
    v: int,
    c: int,
    old_w: Seq<F>,
    new_w: Seq<F>,
) -> bool {
    &&& new_w.len() == v * c
    &&& forall|x: int, i: int|
        0 <= x < v && 0 <= i < c ==> fold_is(
            ids.len(),
            old_w[x * c + i],
            scatter_steps(ids, dout, c, x, i),
            #[trigger] new_w[x * c + i],
        )
}

/// Two places of one matrix are the same only in the same row and column.
proof fn lemma_place(x: int, i: int, y: int, j: int, c: int)
    requires
        0 <= x,
        0 <= y,
        0 <= i < c,
        0 <= j < c,
        x * c + i == y * c + j,
    ensures
        x == y,
        i == j,
{
    if x < y {
        lemma_rows_apart(x, y, c);
    } else if y < x {
        lemma_rows_apart(y, x, c);
    }
}

/// Backward of the embedding: adds the gradient of each token, at `dout_off` of
/// `gacts`, to the row of its vocabulary entry, at `dwte_off` of `grads`.
pub fn encoder_backward<F: Scalar>(
    grads: &mut [F],
    dwte_off: usize,
    gacts: &[F],
    dout_off: usize,
    ids: &[u16],
    v: usize,
    c: usize,
)
    requires
        v * c <= usize::MAX,
        dwte_off + v * c <= old(grads).len(),
        ids@.len() * c <= usize::MAX,
        dout_off + ids@.len() * c <= gacts.len(),
        ids_below(ids@, v as int),
    ensures
        only_changed(old(grads)@, final(grads)@, dwte_off as int, v * c),
        scatter_is(
            ids@,
            tensor(gacts@, dout_off as int, ids@.len() * c),
            v as int,
            c as int,
            tensor(old(grads)@, dwte_off as int, v * c),
            tensor(final(grads)@, dwte_off as int, v * c),
        ),
{
    proof {
        reveal(scatter_is);
        lemma_nonneg(v as int, c as int);
        lemma_nonneg(ids@.len() as int, c as int);
    }
    let n = ids.len();
    let dout: &[F] = &gacts[dout_off..dout_off + n * c];
    let start: &[F] = &grads[dwte_off..dwte_off + v * c];
    let mut w = copied(start);
    for k in 0..n
        invariant
            n == ids@.len(),
            v * c <= usize::MAX,
            ids_below(ids@, v as int),
            dout@.len() == n * c,
            start@.len() == v * c,
            w@.len() == v * c,
            forall|x: int, i: int|
                0 <= x < v && 0 <= i < c ==> fold_is(
                    k as nat,
                    start@[x * c + i],
                    scatter_steps(ids@, dout@, c as int, x, i),
                    #[trigger] w@[x * c + i],
                ),
    {
        let ix = ids[k] as usize;
        let d = row_of(dout, k, n, c);
        let ghost before = w@;
        proof {
            lemma_row_bounds(ix as int, v as int, c as int);
            lemma_row_bounds(k as int, n as int, c as int);
        }
        for i in 0..c
            invariant
                ix < v,
                v * c <= usize::MAX,
                ix * c + c <= v * c,
                0 <= ix * c,
                w@.len() == v * c,
                before.len() == v * c,
                d@.len() == c,
                forall|p: int|
                    0 <= p < v * c && !(ix * c <= p < ix * c + i) ==> #[trigger] w@[p]
                        == before[p],
                forall|p: int|
                    ix * c <= p < ix * c + i ==> sum_is(
                        before[p],
                        d@[p - ix * c],
                        #[trigger] w@[p],
                    ),
        {
            let next = w[ix * c + i].plus(d[i]);
            w[ix * c + i] = next;
        }
        proof {
            assert forall|x: int, i: int| 0 <= x < v && 0 <= i < c implies fold_is(
                k as nat + 1,
                start@[x * c + i],
                scatter_steps(ids@, dout@, c as int, x, i),
                #[trigger] w@[x * c + i],
            ) by {
                lemma_row_bounds(x, v as int, c as int);
                let p = x * c + i;
                let steps = scatter_steps(ids@, dout@, c as int, x, i);
                if x == ix {
                    assert(sum_is(before[p], dout@[k * c + i], w@[p]));
                } else {
                    if ix * c <= p < ix * c + c {
                        lemma_place(x, i, ix as int, p - ix * c, c as int);
                    }
                    assert(w@[p] == before[p]);
                }
                assert(fold_is(k as nat, start@[p], steps, before[p]));
                lemma_fold_push(k as nat, start@[p], steps, before[p], w@[p]);
            }
        }
    }
    store(grads, dwte_off, w.as_slice());
}

} // verus!
