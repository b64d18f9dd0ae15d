//! Generation as a function: where the arithmetic and the generator give one
//! result each, the tokens follow from the model, the seed and the state that
//! the generator starts in. A cut leaves open which of two logits with the same
//! place in the order stays, so it has to meet no such two.

use rand::rngs::StdRng;
use vstd::prelude::*;

use crate::model::causal::lemma_logits_unique;
use crate::model::forward::forward_is;
use crate::model::unique::{
    lemma_exps_unique, lemma_fold_unique, lemma_total_unique, single_valued,
};
use crate::model::Config;
use crate::rng::{draws_are, draws_single_valued, lemma_draws_carry_on, lemma_draws_unique};
use crate::sample::{
    count_kept, cut_is, drawn_is, drawn_with, generated_is, keys_are, last_logits,
    lemma_generation_splits, masked_is, next_token_is, picked_from, picked_is, running_sums_are,
    sampled_is, sampled_with, selection_is, tempered_is, window, within_cut,
};
use crate::scalar::{
    at_least_is, fold_is, is_neg_infinity, is_zero, larger_is, larger_steps, largest_is,
    order_key_is, product_is, quotient_is, sum_is, Scalar, Single,
};

verus! {

/// No two keys are the same.
pub open spec fn distinct(keys: Seq<i64>) -> bool {
    forall|i: int, j: int|
        0 <= i < keys.len() && 0 <= j < keys.len() && i != j ==> #[trigger] keys[i]
            != #[trigger] keys[j]
}

/// Where there is a cut, no two of the logits over the temperature have the same
/// place in the order.
pub open spec fn tie_free<F: Scalar>(
    logits: Seq<F>,
    temperature: F,
    top_k: Option<usize>,
) -> bool {
    top_k matches Some(k) ==> (0 < k < logits.len() ==> forall|x: Seq<F>, keys: Seq<i64>|
        #[trigger] tempered_is(logits, temperature, x) && #[trigger] keys_are(x, keys) ==> distinct(
            keys,
        ))
}

/// The same for the last logits of a forward pass over `ids`.
pub open spec fn tie_free_after<F: Single>(
    c: Config,
    params: Seq<F>,
    ids: Seq<u16>,
    temperature: F,
    top_k: Option<usize>,
) -> bool {
    forall|acts: Seq<F>| #[trigger]
        forward_is(c, params, ids, None, acts) ==> tie_free(
            last_logits(c, acts),
            temperature,
            top_k,
        )
}

/// Where all of `a` are kept in `b`, `b` keeps no fewer, and as many just where
/// they are the same.
proof fn lemma_kept_within(a: Seq<bool>, b: Seq<bool>)
    requires
        a.len() == b.len(),
        forall|i: int| 0 <= i < a.len() && #[trigger] a[i] ==> b[i],
    ensures
        count_kept(a) <= count_kept(b),
        count_kept(a) == count_kept(b) ==> a == b,
    decreases a.len(),
{
    if a.len() > 0 {
        let n = a.len() - 1;
        assert forall|i: int| 0 <= i < n && #[trigger] a.drop_last()[i] implies b.drop_last()[i] by {
            assert(a[i]);
        }
        lemma_kept_within(a.drop_last(), b.drop_last());
        assert(a[n] ==> b[n]);
        assert(a =~= a.drop_last().push(a.last()));
        assert(b =~= b.drop_last().push(b.last()));
    } else {
        assert(a =~= b);
    }
}

proof fn lemma_selection_within(keys: Seq<i64>, k: nat, a: Seq<bool>, b: Seq<bool>)
    requires
        distinct(keys),
        selection_is(keys, k, a),
        selection_is(keys, k, b),
    ensures
        forall|i: int| 0 <= i < a.len() && #[trigger] a[i] ==> b[i],
{
    assert forall|i: int| 0 <= i < a.len() && #[trigger] a[i] implies b[i] by {
        if !b[i] {
            if forall|j: int| 0 <= j < b.len() && #[trigger] b[j] ==> a[j] {
                lemma_kept_within(b, a);
            }
            let j = choose|j: int| 0 <= j < b.len() && #[trigger] b[j] && !a[j];
            assert(keys[i] >= keys[j]);
            assert(keys[j] >= keys[i]);
        }
    }
}

/// Of distinct keys the `k` largest are known.
proof fn lemma_selection_unique(keys: Seq<i64>, k: nat, a: Seq<bool>, b: Seq<bool>)
    requires
        distinct(keys),
        selection_is(keys, k, a),
        selection_is(keys, k, b),
    ensures
        a == b,
{
    lemma_selection_within(keys, k, a, b);
    lemma_kept_within(a, b);
}

proof fn lemma_masked_unique<F: Scalar>(x: Seq<F>, kept: Seq<bool>, y: Seq<F>, z: Seq<F>)
    requires
        single_valued::<F>(),
        masked_is(x, kept, y),
        masked_is(x, kept, z),
    ensures
        y == z,
{
    assert forall|i: int| 0 <= i < x.len() implies y[i] == z[i] by {
        if !kept[i] {
            assert(is_neg_infinity(y[i]) && is_neg_infinity(z[i]));
        }
    }
    assert(y =~= z);
}

proof fn lemma_cut_unique<F: Scalar>(
    x: Seq<F>,
    top_k: Option<usize>,
    a: Seq<bool>,
    y: Seq<F>,
    b: Seq<bool>,
    z: Seq<F>,
)
    requires
        single_valued::<F>(),
        top_k matches Some(k) ==> (0 < k < x.len() ==> forall|keys: Seq<i64>| #[trigger]
            keys_are(x, keys) ==> distinct(keys)),
        cut_is(x, top_k, a, y),
        cut_is(x, top_k, b, z),
    ensures
        a == b,
        y == z,
{
    reveal(cut_is);
    let cuts = top_k matches Some(k) && 0 < k < x.len();
    if cuts {
        let k = top_k->0;
        let p = choose|keys: Seq<i64>| #[trigger]
            selection_is(keys, k as nat, a) && keys_are(x, keys) && masked_is(x, a, y);
        let q = choose|keys: Seq<i64>| #[trigger]
            selection_is(keys, k as nat, b) && keys_are(x, keys) && masked_is(x, b, z);
        assert forall|i: int| 0 <= i < x.len() implies p[i] == q[i] by {
            assert(order_key_is(x[i], p[i]) && order_key_is(x[i], q[i]));
        }
        assert(p =~= q);
        lemma_selection_unique(p, k as nat, a, b);
        lemma_masked_unique(x, a, y, z);
    } else {
        assert forall|i: int| 0 <= i < x.len() implies a[i] == b[i] by {
            assert(a[i] && b[i]);
        }
        assert(a =~= b);
        if top_k == Some(0usize) {
            lemma_masked_unique(x, Seq::new(x.len(), |i: int| false), y, z);
        }
    }
}

proof fn lemma_largest_unique<F: Scalar>(x: Seq<F>, r: F, s: F)
    requires
        single_valued::<F>(),
        largest_is(x, r),
        largest_is(x, s),
    ensures
        r == s,
{
    let z = choose|z: F| #[trigger]
        is_neg_infinity(z) && fold_is(x.len(), z, larger_steps(x), r);
    let step = larger_steps(x);
    assert forall|i: nat, a: F, p: F, q: F| #[trigger]
        step(i, a, p) && #[trigger] step(i, a, q) implies p == q by {
        assert(larger_is(a, x[i as int], p) && larger_is(a, x[i as int], q));
    }
    lemma_fold_unique(x.len(), z, step, r, s);
}

proof fn lemma_sums_unique<F: Scalar>(zero: F, e: Seq<F>, a: Seq<F>, b: Seq<F>, k: int)
    requires
        single_valued::<F>(),
        running_sums_are(zero, e, a),
        running_sums_are(zero, e, b),
        0 <= k < a.len(),
        k < b.len(),
    ensures
        a[k] == b[k],
    decreases k,
{
    if k > 0 {
        lemma_sums_unique(zero, e, a, b, k - 1);
    }
    let before = if k == 0 {
        zero
    } else {
        a[k - 1]
    };
    assert(sum_is(before, e[k], a[k]) && sum_is(before, e[k], b[k]));
}

proof fn lemma_picked_order<F: Scalar>(
    e: Seq<F>,
    kept: Seq<bool>,
    a: Seq<F>,
    b: Seq<F>,
    zero: F,
    r: F,
    i: int,
    j: int,
)
    requires
        single_valued::<F>(),
        running_sums_are(zero, e, a),
        running_sums_are(zero, e, b),
        picked_from(e, kept, a, r, i),
        picked_from(e, kept, b, r, j),
    ensures
        j <= i,
{
    if i < j {
        lemma_sums_unique(zero, e, a, b, i);
        assert(at_least_is(b[i], r, false));
        assert(kept[j]);
    }
}

proof fn lemma_picked_unique<F: Scalar>(e: Seq<F>, kept: Seq<bool>, r: F, i: int, j: int)
    requires
        single_valued::<F>(),
        picked_is(e, kept, r, i),
        picked_is(e, kept, r, j),
    ensures
        i == j,
{
    reveal(picked_is);
    let (z1, a) = choose|zero: F, accs: Seq<F>| #[trigger]
        is_zero(zero) && #[trigger] running_sums_are(zero, e, accs) && picked_from(
            e,
            kept,
            accs,
            r,
            i,
        );
    let (z2, b) = choose|zero: F, accs: Seq<F>| #[trigger]
        is_zero(zero) && #[trigger] running_sums_are(zero, e, accs) && picked_from(
            e,
            kept,
            accs,
            r,
            j,
        );
    assert(z1 == z2);
    lemma_picked_order(e, kept, a, b, z1, r, i, j);
    lemma_picked_order(e, kept, b, a, z1, r, j, i);
}

proof fn lemma_drawn_unique<F: Scalar>(x: Seq<F>, kept: Seq<bool>, u: F, i: int, j: int)
    requires
        single_valued::<F>(),
        drawn_is(x, kept, u, i),
        drawn_is(x, kept, u, j),
    ensures
        i == j,
{
    let (m1, e1, s1, r1) = choose|m: F, e: Seq<F>, sum: F, r: F| #[trigger]
        drawn_with(x, kept, u, i, m, e, sum, r);
    let (m2, e2, s2, r2) = choose|m: F, e: Seq<F>, sum: F, r: F| #[trigger]
        drawn_with(x, kept, u, j, m, e, sum, r);
    lemma_largest_unique(x, m1, m2);
    lemma_exps_unique(x, m1, e1, e2);
    lemma_total_unique(e1, s1, s2);
    assert(product_is(u, s1, r1) && product_is(u, s1, r2));
    lemma_picked_unique(e1, kept, r1, i, j);
}

/// One draw samples one token.
pub proof fn lemma_sampled_unique<F: Scalar>(
    logits: Seq<F>,
    temperature: F,
    top_k: Option<usize>,
    u: F,
    p: u16,
    q: u16,
)
    requires
        single_valued::<F>(),
        tie_free(logits, temperature, top_k),
        sampled_is(logits, temperature, top_k, u, p),
        sampled_is(logits, temperature, top_k, u, q),
    ensures
        p == q,
{
    reveal(sampled_is);
    let (x1, k1, y1, i1) = choose|x: Seq<F>, kept: Seq<bool>, y: Seq<F>, i: int| #[trigger]
        sampled_with(logits, temperature, top_k, u, p, x, kept, y, i);
    let (x2, k2, y2, i2) = choose|x: Seq<F>, kept: Seq<bool>, y: Seq<F>, i: int| #[trigger]
        sampled_with(logits, temperature, top_k, u, q, x, kept, y, i);
    assert forall|i: int| 0 <= i < x1.len() implies x1[i] == x2[i] by {
        assert(quotient_is(logits[i], temperature, x1[i]));
        assert(quotient_is(logits[i], temperature, x2[i]));
    }
    assert(x1 =~= x2);
    lemma_cut_unique(x1, top_k, k1, y1, k2, y2);
    lemma_drawn_unique(y1, k1, u, i1, i2);
}

proof fn lemma_next_token_unique<F: Single>(
    c: Config,
    params: Seq<F>,
    ids: Seq<u16>,
    temperature: F,
    top_k: Option<usize>,
    u: F,
    p: u16,
    q: u16,
)
    requires
        single_valued::<F>(),
        c.runs(),
        ids.len() == c.tokens(),
        tie_free_after(c, params, ids, temperature, top_k),
        next_token_is(c, params, ids, temperature, top_k, u, p),
        next_token_is(c, params, ids, temperature, top_k, u, q),
    ensures
        p == q,
{
    let a = choose|acts: Seq<F>| #[trigger]
        forward_is(c, params, ids, None, acts) && sampled_is(
            last_logits(c, acts),
            temperature,
            top_k,
            u,
            p,
        ) && within_cut(last_logits(c, acts), temperature, top_k, p);
    let b = choose|acts: Seq<F>| #[trigger]
        forward_is(c, params, ids, None, acts) && sampled_is(
            last_logits(c, acts),
            temperature,
            top_k,
            u,
            q,
        ) && within_cut(last_logits(c, acts), temperature, top_k, q);
    lemma_logits_unique(c, params, None, ids, a, b);
    lemma_sampled_unique(last_logits(c, a), temperature, top_k, u, p, q);
}

/// The cut meets no two logits with the same place in the order, for any token
/// of the run `out`. Without a cut this says nothing.
pub open spec fn tie_free_run<F: Single>(
    c: Config,
    params: Seq<F>,
    seed: Seq<u16>,
    temperature: F,
    top_k: Option<usize>,
    out: Seq<u16>,
) -> bool {
    forall|k: int|
        0 <= k < out.len() ==> tie_free_after(
            c,
            params,
            #[trigger] window(seed, out, k),
            temperature,
            top_k,
        )
}

proof fn lemma_token_unique<F: Single>(
    c: Config,
    params: Seq<F>,
    seed: Seq<u16>,
    temperature: F,
    top_k: Option<usize>,
    draws: Seq<F>,
    a: Seq<u16>,
    b: Seq<u16>,
    k: int,
)
    requires
        single_valued::<F>(),
        c.runs(),
        seed.len() == c.tokens(),
        tie_free_run(c, params, seed, temperature, top_k, a),
        generated_is(c, params, seed, temperature, top_k, draws, a),
        generated_is(c, params, seed, temperature, top_k, draws, b),
        0 <= k <= a.len(),
    ensures
        a.subrange(0, k) == b.subrange(0, k),
    decreases k,
{
    if k > 0 {
        let j = k - 1;
        lemma_token_unique(c, params, seed, temperature, top_k, draws, a, b, j);
        assert forall|i: int| 0 <= i < j implies a[i] == b[i] by {
            assert(a[i] == a.subrange(0, j)[i] && b[i] == b.subrange(0, j)[i]);
        }
        assert(window(seed, a, j) =~= window(seed, b, j));
        let ids = window(seed, a, j);
        assert(next_token_is(c, params, ids, temperature, top_k, draws[j], a[j]));
        assert(next_token_is(c, params, ids, temperature, top_k, draws[j], b[j]));
        lemma_next_token_unique(c, params, ids, temperature, top_k, draws[j], a[j], b[j]);
    }
    assert(a.subrange(0, k) =~= b.subrange(0, k));
}

/// The same draws generate the same tokens.
pub proof fn lemma_generated_unique<F: Single>(
    c: Config,
    params: Seq<F>,
    seed: Seq<u16>,
    temperature: F,
    top_k: Option<usize>,
    draws: Seq<F>,
    a: Seq<u16>,
    b: Seq<u16>,
)
    requires
        single_valued::<F>(),
        c.runs(),
        seed.len() == c.tokens(),
        tie_free_run(c, params, seed, temperature, top_k, a),
        generated_is(c, params, seed, temperature, top_k, draws, a),
        generated_is(c, params, seed, temperature, top_k, draws, b),
    ensures
        a == b,
{
    lemma_token_unique(c, params, seed, temperature, top_k, draws, a, b, a.len() as int);
    assert(a.subrange(0, a.len() as int) =~= a);
    assert(b.subrange(0, b.len() as int) =~= b);
}

/// One run of generation is two: `out` with its generator from `r0` on is `a`
/// from `r0` on, followed by `b`, which continues from the last window with the
/// generator that `a` left behind. The generators end in the same state.
pub proof fn lemma_one_run_is_two<F: Single>(
    c: Config,
    params: Seq<F>,
    seed: Seq<u16>,
    temperature: F,
    top_k: Option<usize>,
    r0: StdRng,
    d: Seq<F>,
    r1: StdRng,
    e: Seq<F>,
    r2: StdRng,
    f: Seq<F>,
    r3: StdRng,
    a: Seq<u16>,
    b: Seq<u16>,
    out: Seq<u16>,
)
    requires
        single_valued::<F>(),
        draws_single_valued::<F>(),
        c.runs(),
        seed.len() == c.tokens(),
        tie_free_run(c, params, seed, temperature, top_k, out),
        draws_are(r0, d, r1),
        generated_is(c, params, seed, temperature, top_k, d, a),
        draws_are(r1, e, r2),
        generated_is(
            c,
            params,
            window(seed, a, a.len() as int),
            temperature,
            top_k,
            e,
            b,
        ),
        draws_are(r0, f, r3),
        generated_is(c, params, seed, temperature, top_k, f, out),
        out.len() == a.len() + b.len(),
    ensures
        out == a + b,
        r3 == r2,
{
    lemma_draws_carry_on(r0, d, r1, e, r2);
    lemma_draws_unique(r0, f, r3, d + e, r2);
    lemma_generation_splits(c, params, seed, temperature, top_k, d, e, a, b);
    lemma_generated_unique(c, params, seed, temperature, top_k, f, out, a + b);
}

} // verus!
