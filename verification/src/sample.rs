//! Autoregressive sampling.
//!
//! The forward pass has a fixed shape, so generation slides a window of exactly
//! `block_size` tokens: run forward, read the logits at the last position,
//! sample the next token, drop the oldest, repeat.

use rand::rngs::StdRng;
use vstd::prelude::*;

use crate::arena::{copied, lemma_row_bounds, row};
use crate::layout::{act_layout, lemma_act_layout, lemma_act_sizes};
use crate::model::{Config, Gpt};
use crate::model::forward::{batch_ids, forward_is};
use crate::model::layer::lemma_shapes;
use crate::ops::loss::{ids_below, shifted_exps, shifted_exps_are};
use crate::rng::{draw, draw_is, draw_uniform, draws_are};
use crate::scalar::{
    at_least_is, is_neg_infinity, is_zero, largest, largest_is, order_key_is, product_is,
    quotient_is, sum_is, total, total_is, Scalar, Single,
};

verus! {

/// How many of the keys are `t` or more.
pub open spec fn count_from(keys: Seq<i64>, t: int) -> nat
    decreases keys.len(),
{
    if keys.len() == 0 {
        0
    } else {
        count_from(keys.drop_last(), t) + if keys.last() >= t {
            1nat
        } else {
            0
        }
    }
}

/// How many of the entries are kept.
pub open spec fn count_kept(kept: Seq<bool>) -> nat
    decreases kept.len(),
{
    if kept.len() == 0 {
        0
    } else {
        count_kept(kept.drop_last()) + if kept.last() {
            1nat
        } else {
            0
        }
    }
}

/// `kept` marks `k` of the keys, and none that is left out exceeds one that is
/// kept.
pub open spec fn selection_is(keys: Seq<i64>, k: nat, kept: Seq<bool>) -> bool {
    &&& kept.len() == keys.len()
    &&& count_kept(kept) == k
    &&& forall|i: int, j: int|
        0 <= i < keys.len() && 0 <= j < keys.len() && #[trigger] kept[i] && !#[trigger] kept[j]
            ==> keys[i] >= keys[j]
}

/// A higher bar is met by no more keys, and a bar below all keys by all.
proof fn lemma_count_bounds(keys: Seq<i64>, t: int, u: int)
    requires
        t <= u,
    ensures
        count_from(keys, u) <= count_from(keys, t),
        t <= i64::MIN ==> count_from(keys, t) == keys.len(),
        u > i64::MAX ==> count_from(keys, u) == 0,
        count_from(keys, t) <= keys.len(),
    decreases keys.len(),
{
    if keys.len() > 0 {
        lemma_count_bounds(keys.drop_last(), t, u);
    }
}

/// How many of the keys are `t` or more.
fn count_keys(keys: &[i64], t: i128) -> (n: usize)
    ensures
        n == count_from(keys@, t as int),
        n <= keys@.len(),
{
    let mut n: usize = 0;
    for i in 0..keys.len()
        invariant
            n <= i,
            n == count_from(keys@.subrange(0, i as int), t as int),
    {
        assert(keys@.subrange(0, i + 1).drop_last() =~= keys@.subrange(0, i as int));
        if keys[i] as i128 >= t {
            n = n + 1;
        }
    }
    assert(keys@.subrange(0, keys@.len() as int) =~= keys@);
    n
}

/// The largest bar that at least `k` of the keys meet.
fn threshold(keys: &[i64], k: usize) -> (t: i128)
    requires
        0 < k <= keys@.len(),
    ensures
        i64::MIN <= t <= i64::MAX,
        count_from(keys@, t as int) >= k,
        count_from(keys@, t + 1) < k,
{
    let mut lo: i128 = i64::MIN as i128;
    let mut hi: i128 = i64::MAX as i128 + 1;
    proof {
        lemma_count_bounds(keys@, lo as int, hi as int);
    }
    while hi - lo > 1
        invariant
            i64::MIN <= lo < hi <= i64::MAX + 1,
            count_from(keys@, lo as int) >= k,
            count_from(keys@, hi as int) < k,
        decreases hi - lo,
    {
        let mid: i128 = lo + (hi - lo) / 2;
        if count_keys(keys, mid) >= k {
            lo = mid;
        } else {
            hi = mid;
        }
    }
    lo
}

/// Mark the `k` largest keys.
pub fn keep_largest(keys: &[i64], k: usize) -> (kept: Vec<bool>)
    requires
        k <= keys@.len(),
    ensures
        selection_is(keys@, k as nat, kept@),
{
    let t: i128 = if k == 0 {
        i64::MAX as i128 + 1
    } else {
        threshold(keys, k)
    };
    let above = count_keys(keys, t + 1);
    proof {
        lemma_count_bounds(keys@, t as int, t + 1);
    }
    let mut room: usize = k - above;
    let mut kept: Vec<bool> = Vec::with_capacity(keys.len());
    proof {
        assert(keys@.subrange(0, keys@.len() as int) =~= keys@);
    }
    for i in 0..keys.len()
        invariant
            k <= keys@.len(),
            above == count_from(keys@, t + 1),
            above + room <= k,
            kept@.len() == i,
            count_kept(kept@) == count_from(keys@.subrange(0, i as int), t + 1) + (k - above
                - room),
            room > 0 ==> k - above - room == count_from(keys@.subrange(0, i as int), t as int)
                - count_from(keys@.subrange(0, i as int), t + 1),
            forall|j: int| 0 <= j < i && #[trigger] kept@[j] ==> keys@[j] >= t,
            forall|j: int| 0 <= j < i && !#[trigger] kept@[j] ==> keys@[j] <= t,
    {
        let key = keys[i] as i128;
        let ghost before = kept@;
        proof {
            assert(keys@.subrange(0, i + 1).drop_last() =~= keys@.subrange(0, i as int));
        }
        if key > t {
            kept.push(true);
        } else if key == t && room > 0 {
            room = room - 1;
            kept.push(true);
        } else {
            kept.push(false);
        }
        assert(kept@.drop_last() =~= before);
    }
    kept
}

/// Every entry is kept.
pub open spec fn all_kept(kept: Seq<bool>) -> bool {
    forall|i: int| 0 <= i < kept.len() ==> #[trigger] kept[i]
}

/// `y` is `x` with all but its `k` largest values, by the total order, made
/// negative infinity, and `kept` marks the places to choose from: those of the
/// `k` largest. With no more than `k` values, or without a `k`, `y` is `x` and
/// all places are open; with a `k` of zero no value stays, and all places are
/// open too. Which of two values with the same place in the order stays is open.
#[verifier::opaque]
pub open spec fn cut_is<F: Scalar>(
    x: Seq<F>,
    top_k: Option<usize>,
    kept: Seq<bool>,
    y: Seq<F>,
) -> bool {
    &&& kept.len() == x.len()
    &&& match top_k {
        Some(k) => if k == 0 {
            all_kept(kept) && masked_is(x, Seq::new(x.len(), |i: int| false), y)
        } else if k < x.len() {
            exists|keys: Seq<i64>| #[trigger]
                selection_is(keys, k as nat, kept) && keys_are(x, keys) && masked_is(x, kept, y)
        } else {
            all_kept(kept) && y == x
        },
        None => all_kept(kept) && y == x,
    }
}

/// Each key is the place of its value in the total order.
pub open spec fn keys_are<F: Scalar>(x: Seq<F>, keys: Seq<i64>) -> bool {
    &&& keys.len() == x.len()
    &&& forall|i: int| 0 <= i < x.len() ==> order_key_is(x[i], #[trigger] keys[i])
}

/// `y` is `x` where it is kept, else negative infinity.
pub open spec fn masked_is<F: Scalar>(x: Seq<F>, kept: Seq<bool>, y: Seq<F>) -> bool {
    &&& y.len() == x.len()
    &&& forall|i: int|
        0 <= i < x.len() ==> if kept[i] {
            #[trigger] y[i] == x[i]
        } else {
            is_neg_infinity(y[i])
        }
}

/// Each value divided by the temperature.
pub open spec fn tempered_is<F: Scalar>(logits: Seq<F>, temperature: F, x: Seq<F>) -> bool {
    &&& x.len() == logits.len()
    &&& forall|i: int|
        0 <= i < x.len() ==> quotient_is(logits[i], temperature, #[trigger] x[i])
}

/// `accs` are the running sums of `e` from `zero` on.
pub open spec fn running_sums_are<F: Scalar>(zero: F, e: Seq<F>, accs: Seq<F>) -> bool {
    &&& accs.len() <= e.len()
    &&& forall|k: int|
        0 <= k < accs.len() ==> sum_is(
            if k == 0 {
                zero
            } else {
                accs[k - 1]
            },
            e[k],
            #[trigger] accs[k],
        )
}

/// `i` is the first kept place at which the running sum of `e` reaches `r`, or
/// the last kept place where it reaches `r` at none.
#[verifier::opaque]
pub open spec fn picked_is<F: Scalar>(e: Seq<F>, kept: Seq<bool>, r: F, i: int) -> bool {
    exists|zero: F, accs: Seq<F>| #[trigger]
        is_zero(zero) && #[trigger] running_sums_are(zero, e, accs) && picked_from(
            e,
            kept,
            accs,
            r,
            i,
        )
}

/// The same from the running sums.
pub open spec fn picked_from<F: Scalar>(
    e: Seq<F>,
    kept: Seq<bool>,
    accs: Seq<F>,
    r: F,
    i: int,
) -> bool {
    &&& 0 <= i < accs.len()
    &&& kept[i]
    &&& forall|k: int| 0 <= k < i && kept[k] ==> at_least_is(#[trigger] accs[k], r, false)
    &&& at_least_is(accs[i], r, true) || {
        &&& accs.len() == e.len()
        &&& at_least_is(accs[i], r, false)
        &&& forall|k: int| i < k < e.len() ==> !#[trigger] kept[k]
    }
}

/// The place that the uniform draw `u` picks among the kept ones from the
/// cumulative distribution of the softmax of `x`.
pub open spec fn drawn_is<F: Scalar>(x: Seq<F>, kept: Seq<bool>, u: F, i: int) -> bool {
    exists|m: F, e: Seq<F>, sum: F, r: F| #[trigger] drawn_with(x, kept, u, i, m, e, sum, r)
}

/// The same by the largest value `m`, the exponentials `e`, their sum and the
/// point `r` that the draw marks below it.
pub open spec fn drawn_with<F: Scalar>(
    x: Seq<F>,
    kept: Seq<bool>,
    u: F,
    i: int,
    m: F,
    e: Seq<F>,
    sum: F,
    r: F,
) -> bool {
    &&& largest_is(x, m)
    &&& shifted_exps_are(x, m, e)
    &&& total_is(e, sum)
    &&& product_is(u, sum, r)
    &&& picked_is(e, kept, r, i)
}

/// `id` is the token that the uniform draw `u` samples from `logits` with a
/// temperature and an optional cut to the largest.
#[verifier::opaque]
pub open spec fn sampled_is<F: Scalar>(
    logits: Seq<F>,
    temperature: F,
    top_k: Option<usize>,
    u: F,
    id: u16,
) -> bool {
    exists|x: Seq<F>, kept: Seq<bool>, y: Seq<F>, i: int| #[trigger]
        sampled_with(logits, temperature, top_k, u, id, x, kept, y, i)
}

/// The same by the tempered values `x`, the kept places, the cut values `y` and
/// the place `i`.
pub open spec fn sampled_with<F: Scalar>(
    logits: Seq<F>,
    temperature: F,
    top_k: Option<usize>,
    u: F,
    id: u16,
    x: Seq<F>,
    kept: Seq<bool>,
    y: Seq<F>,
    i: int,
) -> bool {
    &&& tempered_is(logits, temperature, x)
    &&& cut_is(x, top_k, kept, y)
    &&& drawn_is(y, kept, u, i)
    &&& 0 <= i < logits.len()
    &&& id == i % 0x1_0000
}

/// How many keys exceed key `i`.
pub open spec fn count_above(keys: Seq<i64>, i: int) -> nat {
    count_from(keys, keys[i] + 1)
}

/// `id` is one of the `k` largest of `logits / temperature`, by the total order:
/// fewer than `k` exceed it.
pub open spec fn one_of_largest<F: Scalar>(
    logits: Seq<F>,
    temperature: F,
    k: usize,
    id: u16,
) -> bool {
    exists|x: Seq<F>, keys: Seq<i64>, i: int|
        #[trigger] tempered_is(logits, temperature, x) && #[trigger] keys_are(x, keys) && 0 <= i
            < x.len() && id == i % 0x1_0000 && #[trigger] count_above(keys, i) < k
}

/// Where there is a cut, `id` is one of those that it leaves.
pub open spec fn within_cut<F: Scalar>(
    logits: Seq<F>,
    temperature: F,
    top_k: Option<usize>,
    id: u16,
) -> bool {
    top_k matches Some(k) ==> (0 < k < logits.len() ==> one_of_largest(
        logits,
        temperature,
        k,
        id,
    ))
}

/// Where all keys from `t` on are kept, they are no more than the kept ones, and
/// fewer where a kept one lies below `t`.
proof fn lemma_kept_from(keys: Seq<i64>, kept: Seq<bool>, t: int)
    requires
        kept.len() == keys.len(),
        forall|j: int| 0 <= j < keys.len() && keys[j] >= t ==> #[trigger] kept[j],
    ensures
        count_from(keys, t) <= count_kept(kept),
        (exists|j: int| 0 <= j < keys.len() && #[trigger] kept[j] && keys[j] < t) ==> count_from(
            keys,
            t,
        ) < count_kept(kept),
    decreases keys.len(),
{
    if keys.len() > 0 {
        let n = keys.len() - 1;
        assert forall|j: int| 0 <= j < n && keys.drop_last()[j] >= t implies #[trigger]
            kept.drop_last()[j] by {
            assert(kept[j]);
        }
        lemma_kept_from(keys.drop_last(), kept.drop_last(), t);
        assert(keys[n] >= t ==> kept[n]);
        if exists|j: int| 0 <= j < keys.len() && #[trigger] kept[j] && keys[j] < t {
            let j = choose|j: int| 0 <= j < keys.len() && #[trigger] kept[j] && keys[j] < t;
            if j < n {
                assert(kept.drop_last()[j]);
            }
        }
    }
}

/// A cut to `k` leaves `k` places open, or all of them where there are no more or
/// `k` is zero. An open value is as it was, and no closed one stands above it in
/// the total order.
pub proof fn lemma_cut_leaves<F: Scalar>(
    x: Seq<F>,
    k: usize,
    kept: Seq<bool>,
    y: Seq<F>,
)
    requires
        cut_is(x, Some(k), kept, y),
    ensures
        kept.len() == x.len(),
        y.len() == x.len(),
        count_kept(kept) == if 0 < k < x.len() {
            k as nat
        } else {
            x.len()
        },
        0 < k ==> forall|i: int| 0 <= i < x.len() && kept[i] ==> #[trigger] y[i] == x[i],
        forall|i: int| 0 <= i < x.len() && !kept[i] ==> is_neg_infinity(#[trigger] y[i]),
        forall|i: int, j: int|
            0 <= i < x.len() && 0 <= j < x.len() && #[trigger] kept[i] && !#[trigger] kept[j]
                ==> ranked(x[j], x[i]),
{
    reveal(cut_is);
    if 0 < k < x.len() {
        let keys = choose|keys: Seq<i64>| #[trigger]
            selection_is(keys, k as nat, kept) && keys_are(x, keys) && masked_is(x, kept, y);
        assert forall|i: int, j: int|
            0 <= i < x.len() && 0 <= j < x.len() && #[trigger] kept[i] && !#[trigger] kept[
                j] implies ranked(x[j], x[i]) by {
            assert(order_key_is(x[i], keys[i]) && order_key_is(x[j], keys[j]));
        }
    } else {
        lemma_count_all(kept);
    }
}

/// `a` stands no higher than `b` in the total order.
pub open spec fn ranked<F: Scalar>(a: F, b: F) -> bool {
    exists|p: i64, q: i64| #[trigger] order_key_is(a, p) && #[trigger] order_key_is(b, q) && p <= q
}

/// Where all places are open, they are as many as there are.
proof fn lemma_count_all(kept: Seq<bool>)
    requires
        all_kept(kept),
    ensures
        count_kept(kept) == kept.len(),
    decreases kept.len(),
{
    if kept.len() > 0 {
        assert forall|i: int| 0 <= i < kept.len() - 1 implies #[trigger] kept.drop_last()[i] by {
            assert(kept[i]);
        }
        lemma_count_all(kept.drop_last());
        assert(kept[kept.len() - 1]);
    }
}

/// The draw `u` picks place `i` from the exponentials `e` of `y` alone, which is
/// the tempered values `x` at the `k` open places and negative infinity at the
/// others: it marks the point `r`, its share of their sum, and the first open place
/// at which the running sum reaches that point is picked.
pub open spec fn picked_after_cut<F: Scalar>(
    x: Seq<F>,
    k: usize,
    u: F,
    i: int,
    kept: Seq<bool>,
    y: Seq<F>,
    e: Seq<F>,
    r: F,
) -> bool {
    &&& count_kept(kept) == k
    &&& y.len() == x.len()
    &&& forall|j: int| 0 <= j < x.len() && kept[j] ==> #[trigger] y[j] == x[j]
    &&& forall|j: int| 0 <= j < x.len() && !kept[j] ==> is_neg_infinity(#[trigger] y[j])
    &&& exists|m: F| #[trigger] largest_is(y, m) && shifted_exps_are(y, m, e)
    &&& exists|sum: F| #[trigger] total_is(e, sum) && product_is(u, sum, r)
    &&& kept[i]
    &&& picked_is(e, kept, r, i)
}

/// What a cut takes away has no share in what is sampled.
pub proof fn lemma_sampled_after_cut<F: Scalar>(
    logits: Seq<F>,
    temperature: F,
    k: usize,
    u: F,
    id: u16,
)
    requires
        0 < k < logits.len() <= 0x1_0000,
        sampled_is(logits, temperature, Some(k), u, id),
    ensures
        id < logits.len(),
        exists|x: Seq<F>, kept: Seq<bool>, y: Seq<F>, e: Seq<F>, r: F| #[trigger]
            picked_after_cut(x, k, u, id as int, kept, y, e, r) && x.len() == logits.len()
                && forall|j: int|
                0 <= j < x.len() ==> quotient_is(logits[j], temperature, #[trigger] x[j]),
{
    reveal(sampled_is);
    let (x, kept, y, i) = choose|x: Seq<F>, kept: Seq<bool>, y: Seq<F>, i: int| #[trigger]
        sampled_with(logits, temperature, Some(k), u, id, x, kept, y, i);
    lemma_cut_leaves(x, k, kept, y);
    let (m, e, sum, r) = choose|m: F, e: Seq<F>, sum: F, r: F| #[trigger]
        drawn_with(y, kept, u, i, m, e, sum, r);
    assert(largest_is(y, m) && shifted_exps_are(y, m, e));
    assert(total_is(e, sum) && product_is(u, sum, r));
    assert(kept[i]) by {
        reveal(picked_is);
    }
    assert(picked_after_cut(x, k, u, i, kept, y, e, r));
}

/// A sample after a cut is one of those that the cut leaves, whatever was drawn.
pub proof fn lemma_sampled_within_cut<F: Scalar>(
    logits: Seq<F>,
    temperature: F,
    top_k: Option<usize>,
    u: F,
    id: u16,
)
    requires
        sampled_is(logits, temperature, top_k, u, id),
    ensures
        within_cut(logits, temperature, top_k, id),
{
    reveal(sampled_is);
    reveal(cut_is);
    reveal(picked_is);
    if let Some(k) = top_k {
        if 0 < k < logits.len() {
            let (x, kept, y, i) = choose|x: Seq<F>, kept: Seq<bool>, y: Seq<F>, i: int| #[trigger]
                sampled_with(logits, temperature, top_k, u, id, x, kept, y, i);
            assert(kept[i]);
            let keys = choose|keys: Seq<i64>| #[trigger]
                selection_is(keys, k as nat, kept) && keys_are(x, keys) && masked_is(x, kept, y);
            assert forall|j: int| 0 <= j < keys.len() && keys[j] >= keys[i] + 1 implies #[trigger]
                kept[j] by {}
            lemma_kept_from(keys, kept, keys[i] + 1);
            assert(count_above(keys, i) < k);
        }
    }
}

/// All places are kept.
fn keep_all(n: usize) -> (kept: Vec<bool>)
    ensures
        kept@.len() == n,
        all_kept(kept@),
{
    let mut kept: Vec<bool> = Vec::with_capacity(n);
    for i in 0..n
        invariant
            kept@.len() == i,
            all_kept(kept@),
    {
        kept.push(true);
    }
    kept
}

/// The place of each value in the total order.
fn order_keys<F: Scalar>(x: &[F]) -> (keys: Vec<i64>)
    ensures
        keys_are(x@, keys@),
{
    let mut keys: Vec<i64> = Vec::with_capacity(x.len());
    for i in 0..x.len()
        invariant
            keys@.len() == i,
            forall|j: int| 0 <= j < i ==> order_key_is(x@[j], #[trigger] keys@[j]),
    {
        keys.push(x[i].order_key());
    }
    keys
}

/// The values that are kept, and negative infinity for the others.
fn masked<F: Scalar>(x: &[F], kept: &[bool]) -> (y: Vec<F>)
    requires
        kept@.len() == x@.len(),
    ensures
        masked_is(x@, kept@, y@),
{
    let mut y: Vec<F> = Vec::with_capacity(x.len());
    for i in 0..x.len()
        invariant
            kept@.len() == x@.len(),
            y@.len() == i,
            forall|j: int|
                0 <= j < i ==> if kept@[j] {
                    #[trigger] y@[j] == x@[j]
                } else {
                    is_neg_infinity(y@[j])
                },
    {
        if kept[i] {
            y.push(x[i]);
        } else {
            y.push(F::neg_infinity());
        }
    }
    y
}

/// All but the `k` largest values become negative infinity. Gives back the
/// places to choose from too.
fn cut<F: Scalar>(x: Vec<F>, top_k: Option<usize>) -> (res: (Vec<bool>, Vec<F>))
    ensures
        res.0@.len() == x@.len(),
        res.1@.len() == x@.len(),
        0 < x@.len() ==> exists|i: int| 0 <= i < x@.len() && #[trigger] res.0@[i],
        cut_is(x@, top_k, res.0@, res.1@),
{
    proof {
        reveal(cut_is);
    }
    let v = x.len();
    match top_k {
        Some(k) => {
            if k < v {
                let keys = order_keys(x.as_slice());
                let kept = keep_largest(keys.as_slice(), k);
                let y = masked(x.as_slice(), kept.as_slice());
                proof {
                    lemma_some_kept(kept@);
                }
                if k == 0 {
                    let open = keep_all(v);
                    proof {
                        assert(kept@ =~= Seq::new(x@.len(), |i: int| false)) by {
                            lemma_none_kept(kept@);
                        }
                        assert(open@[0]);
                    }
                    (open, y)
                } else {
                    (kept, y)
                }
            } else {
                let open = keep_all(v);
                assert(0 < v ==> open@[0]);
                if k == 0 {
                    assert(x@ =~= Seq::empty());
                    assert(masked_is(x@, Seq::new(x@.len(), |i: int| false), x@));
                }
                (open, x)
            }
        },
        None => {
            let open = keep_all(v);
            assert(0 < v ==> open@[0]);
            (open, x)
        },
    }
}

/// Where some are kept, one of them is.
proof fn lemma_some_kept(kept: Seq<bool>)
    ensures
        count_kept(kept) > 0 ==> exists|i: int| 0 <= i < kept.len() && #[trigger] kept[i],
    decreases kept.len(),
{
    if kept.len() > 0 {
        lemma_some_kept(kept.drop_last());
        if kept.last() {
            assert(kept[kept.len() - 1]);
        } else if count_kept(kept) > 0 {
            let i = choose|i: int|
                0 <= i < kept.drop_last().len() && #[trigger] kept.drop_last()[i];
            assert(kept[i]);
        }
    }
}

/// Where none are kept, each is left out.
proof fn lemma_none_kept(kept: Seq<bool>)
    requires
        count_kept(kept) == 0,
    ensures
        forall|i: int| 0 <= i < kept.len() ==> !#[trigger] kept[i],
    decreases kept.len(),
{
    if kept.len() > 0 {
        lemma_none_kept(kept.drop_last());
        assert forall|i: int| 0 <= i < kept.len() implies !#[trigger] kept[i] by {
            if i < kept.len() - 1 {
                assert(kept[i] == kept.drop_last()[i]);
            }
        }
    }
}

/// The first kept place at which the running sum of `e` reaches `r`, or the last
/// kept place.
fn pick<F: Scalar>(e: &[F], kept: &[bool], r: F) -> (i: usize)
    requires
        kept@.len() == e@.len(),
        exists|i: int| 0 <= i < e@.len() && #[trigger] kept@[i],
    ensures
        i < e@.len(),
        picked_is(e@, kept@, r, i as int),
{
    let zero = F::zero();
    let mut acc = zero;
    let ghost mut accs: Seq<F> = Seq::empty();
    let n = e.len();
    let mut last: usize = 0;
    for i in 0..n
        invariant
            n == e@.len(),
            kept@.len() == n,
            is_zero(zero),
            accs.len() == i,
            running_sums_are(zero, e@, accs),
            acc == if i == 0 {
                zero
            } else {
                accs[i - 1]
            },
            forall|k: int| 0 <= k < i && kept@[k] ==> at_least_is(#[trigger] accs[k], r, false),
            (exists|k: int| 0 <= k < i && #[trigger] kept@[k]) ==> last < i && kept@[last as int],
            forall|k: int| last < k < i ==> !#[trigger] kept@[k],
    {
        let ghost before = accs;
        acc = acc.plus(e[i]);
        proof {
            accs = before.push(acc);
            assert forall|k: int| 0 <= k < accs.len() implies sum_is(
                if k == 0 {
                    zero
                } else {
                    accs[k - 1]
                },
                e@[k],
                #[trigger] accs[k],
            ) by {
                if k < i {
                    assert(accs[k] == before[k]);
                }
            }
            assert(running_sums_are(zero, e@, accs));
            assert forall|k: int| 0 <= k < i && kept@[k] implies at_least_is(
                #[trigger] accs[k],
                r,
                false,
            ) by {
                assert(accs[k] == before[k]);
            }
        }
        if kept[i] {
            if acc.at_least(r) {
                proof {
                    reveal(picked_is);
                    assert(picked_from(e@, kept@, accs, r, i as int));
                }
                return i;
            }
            last = i;
        }
    }
    proof {
        reveal(picked_is);
        assert(picked_from(e@, kept@, accs, r, last as int));
    }
    last
}

/// The token that the uniform draw `u` samples from `logits`.
pub fn sample_logits_from<F: Scalar>(
    logits: &[F],
    temperature: F,
    top_k: Option<usize>,
    u: F,
) -> (id: u16)
    requires
        0 < logits@.len(),
    ensures
        sampled_is(logits@, temperature, top_k, u, id),
        within_cut(logits@, temperature, top_k, id),
        id < logits@.len(),
{
    let v = logits.len();
    let mut x: Vec<F> = Vec::with_capacity(v);
    for i in 0..v
        invariant
            v == logits@.len(),
            x@.len() == i,
            forall|j: int|
                0 <= j < i ==> quotient_is(logits@[j], temperature, #[trigger] x@[j]),
    {
        x.push(logits[i].divide(temperature));
    }
    assert(tempered_is(logits@, temperature, x@));
    let ghost tempered = x@;
    let (kept, y) = cut(x, top_k);
    let m = largest(y.as_slice());
    let e = shifted_exps(y.as_slice(), m);
    let sum = total(e.as_slice());
    let r = u.times(sum);
    let i = pick(e.as_slice(), kept.as_slice(), r);
    let low: usize = i % 0x1_0000;
    let id = low as u16;
    proof {
        reveal(sampled_is);
        assert(drawn_with(y@, kept@, u, i as int, m, e@, sum, r));
        assert(sampled_with(
            logits@,
            temperature,
            top_k,
            u,
            id,
            tempered,
            kept@,
            y@,
            i as int,
        ));
        lemma_sampled_within_cut(logits@, temperature, top_k, u, id);
    }
    id
}

/// Sample one token from `logits` with a temperature and an optional cut to the
/// largest, with one draw.
pub fn sample_logits<F: Single>(
    logits: &[F],
    temperature: F,
    top_k: Option<usize>,
    rng: &mut StdRng,
) -> (id: u16)
    requires
        0 < logits@.len(),
    ensures
        exists|u: F|
            draw_is(*old(rng), u, *final(rng)) && #[trigger] sampled_is(
                logits@,
                temperature,
                top_k,
                u,
                id,
            ),
        within_cut(logits@, temperature, top_k, id),
        id < logits@.len(),
{
    let u = draw(rng);
    sample_logits_from(logits, temperature, top_k, u)
}

/// The window before new token `k`: the last `t` tokens of the seed and what was
/// generated before it.
pub open spec fn window(seed: Seq<u16>, out: Seq<u16>, k: int) -> Seq<u16> {
    (seed + out).subrange(k, k + seed.len())
}

/// The logits at the last position of the first row of the batch.
pub open spec fn last_logits<F>(c: Config, acts: Seq<F>) -> Seq<F> {
    row(act_layout(c).logits.of(acts), c.block_size - 1, c.vocab_size as int)
}

/// `id` is what the draw `u` samples from the logits at the last position of a
/// forward pass over the window `ids`, and one of those that the cut leaves.
pub open spec fn next_token_is<F: Single>(
    c: Config,
    params: Seq<F>,
    ids: Seq<u16>,
    temperature: F,
    top_k: Option<usize>,
    u: F,
    id: u16,
) -> bool {
    exists|acts: Seq<F>| #[trigger]
        forward_is(c, params, ids, None, acts) && sampled_is(
            last_logits(c, acts),
            temperature,
            top_k,
            u,
            id,
        ) && within_cut(last_logits(c, acts), temperature, top_k, id)
}

/// `out` continues `seed` by one token for each draw.
pub open spec fn generated_is<F: Single>(
    c: Config,
    params: Seq<F>,
    seed: Seq<u16>,
    temperature: F,
    top_k: Option<usize>,
    draws: Seq<F>,
    out: Seq<u16>,
) -> bool {
    &&& out.len() == draws.len()
    &&& forall|k: int|
        0 <= k < out.len() ==> next_token_is(
            c,
            params,
            window(seed, out, k),
            temperature,
            top_k,
            draws[k],
            #[trigger] out[k],
        )
}

/// Generate one token for each uniform draw, continuing `seed`.
pub fn generate_from<F: Single>(
    model: &mut Gpt<F>,
    seed: &[u16],
    temperature: F,
    top_k: Option<usize>,
    draws: &[F],
) -> (out: Vec<u16>)
    requires
        old(model).wf(),
        old(model).cfg.runs(),
        old(model).cfg.batch_size == 1,
        batch_ids(old(model).cfg, seed@),
    ensures
        final(model).wf(),
        *final(model) == (Gpt { acts: final(model).acts, ..*old(model) }),
        generated_is(
            old(model).cfg,
            old(model).params@,
            seed@,
            temperature,
            top_k,
            draws@,
            out@,
        ),
        ids_below(out@, old(model).cfg.vocab_size as int),
{
    let ghost start = *model;
    let t = model.cfg.block_size;
    let v = model.cfg.vocab_size;
    proof {
        lemma_shapes(model.cfg);
        lemma_act_layout(model.cfg);
        lemma_act_sizes(model.cfg);
        assert(model.cfg.tokens() == t);
    }
    let mut ids = copied(seed);
    let mut out: Vec<u16> = Vec::with_capacity(draws.len());
    assert(window(seed@, out@, 0) =~= seed@);
    for k in 0..draws.len()
        invariant
            *model == (Gpt { acts: model.acts, ..start }),
            model.wf(),
            start.cfg.runs(),
            start.cfg.batch_size == 1,
            start.cfg.tokens() == t,
            start.cfg.vocab_acts() == t * v,
            t == start.cfg.block_size,
            v == start.cfg.vocab_size,
            seed@.len() == t,
            ids_below(seed@, v as int),
            out@.len() == k,
            ids_below(out@, v as int),
            ids@ == window(seed@, out@, k as int),
            batch_ids(start.cfg, ids@),
            generated_is(
                start.cfg,
                start.params@,
                seed@,
                temperature,
                top_k,
                draws@.subrange(0, k as int),
                out@,
            ),
    {
        let _ = model.forward(ids.as_slice(), None);
        let logits = model.logits();
        let last = crate::arena::row_of(logits, t - 1, t, v);
        let next = sample_logits_from(last, temperature, top_k, draws[k]);
        proof {
            assert(forward_is(start.cfg, start.params@, ids@, None, model.acts@));
            assert(next_token_is(
                start.cfg,
                start.params@,
                ids@,
                temperature,
                top_k,
                draws@[k as int],
                next,
            ));
        }
        let ghost before = out@;
        out.push(next);
        let _ = ids.remove(0);
        ids.push(next);
        proof {
            assert(ids@ =~= window(seed@, out@, k + 1));
            assert forall|q: int| 0 <= q < k + 1 implies next_token_is(
                start.cfg,
                start.params@,
                window(seed@, out@, q),
                temperature,
                top_k,
                draws@.subrange(0, k + 1)[q],
                #[trigger] out@[q],
            ) by {
                assert(window(seed@, out@, q) =~= window(seed@, before, q));
                if q < k {
                    assert(out@[q] == before[q]);
                    assert(draws@.subrange(0, k + 1)[q] == draws@.subrange(0, k as int)[q]);
                }
            }
        }
    }
    assert(draws@.subrange(0, draws@.len() as int) =~= draws@);
    out
}

/// Generate `n_new` tokens that continue `seed`, which holds `block_size`
/// tokens, with a draw for each. The model has a batch size of one.
pub fn generate<F: Single>(
    model: &mut Gpt<F>,
    seed: &[u16],
    n_new: usize,
    temperature: F,
    top_k: Option<usize>,
    rng: &mut StdRng,
) -> (out: Vec<u16>)
    requires
        old(model).wf(),
        old(model).cfg.runs(),
        old(model).cfg.batch_size == 1,
        batch_ids(old(model).cfg, seed@),
    ensures
        final(model).wf(),
        *final(model) == (Gpt { acts: final(model).acts, ..*old(model) }),
        out@.len() == n_new,
        ids_below(out@, old(model).cfg.vocab_size as int),
        exists|draws: Seq<F>|
            draws_are(*old(rng), draws, *final(rng)) && #[trigger] generated_is(
                old(model).cfg,
                old(model).params@,
                seed@,
                temperature,
                top_k,
                draws,
                out@,
            ),
        n_new == 0 ==> *final(rng) == *old(rng),
{
    let draws = draw_uniform(n_new, rng);
    generate_from(model, seed, temperature, top_k, draws.as_slice())
}

/// The window slides by one token: the oldest one leaves, and the new one comes
/// in at the end. The first window is the seed.
pub proof fn lemma_window_slides(seed: Seq<u16>, out: Seq<u16>, k: int)
    requires
        0 <= k < out.len(),
        0 < seed.len(),
    ensures
        window(seed, out, 0) == seed,
        window(seed, out, k + 1) == window(seed, out, k).drop_first().push(out[k]),
{
    assert(window(seed, out, 0) =~= seed);
    assert(window(seed, out, k + 1) =~= window(seed, out, k).drop_first().push(out[k]));
}

/// A run of `n + m` tokens is a run of `n` tokens and then one of `m` that
/// continues from its last window: `a + b` is generated by the draws `d + e`
/// just where `a` is by `d` and `b` by `e`.
pub proof fn lemma_generation_splits<F: Single>(
    c: Config,
    params: Seq<F>,
    seed: Seq<u16>,
    temperature: F,
    top_k: Option<usize>,
    d: Seq<F>,
    e: Seq<F>,
    a: Seq<u16>,
    b: Seq<u16>,
)
    requires
        a.len() == d.len(),
        b.len() == e.len(),
    ensures
        generated_is(c, params, seed, temperature, top_k, d + e, a + b) <==> generated_is(
            c,
            params,
            seed,
            temperature,
            top_k,
            d,
            a,
        ) && generated_is(
            c,
            params,
            window(seed, a, a.len() as int),
            temperature,
            top_k,
            e,
            b,
        ),
{
    let n = a.len() as int;
    let next = window(seed, a, n);
    assert forall|k: int| 0 <= k < n implies window(seed, a + b, k) == #[trigger] window(
        seed,
        a,
        k,
    ) by {
        assert(window(seed, a + b, k) =~= window(seed, a, k));
    }
    assert forall|k: int| 0 <= k < b.len() implies window(seed, a + b, n + k) == #[trigger] window(
        next,
        b,
        k,
    ) by {
        assert(window(seed, a + b, n + k) =~= window(next, b, k));
    }
    if generated_is(c, params, seed, temperature, top_k, d + e, a + b) {
        assert forall|k: int| 0 <= k < n implies next_token_is(
            c,
            params,
            window(seed, a, k),
            temperature,
            top_k,
            d[k],
            #[trigger] a[k],
        ) by {
            assert(a[k] == (a + b)[k] && d[k] == (d + e)[k]);
        }
        assert forall|k: int| 0 <= k < b.len() implies next_token_is(
            c,
            params,
            window(next, b, k),
            temperature,
            top_k,
            e[k],
            #[trigger] b[k],
        ) by {
            assert(b[k] == (a + b)[n + k] && e[k] == (d + e)[n + k]);
        }
    }
    if generated_is(c, params, seed, temperature, top_k, d, a) && generated_is(
        c,
        params,
        next,
        temperature,
        top_k,
        e,
        b,
    ) {
        assert forall|k: int| 0 <= k < n + b.len() implies next_token_is(
            c,
            params,
            window(seed, a + b, k),
            temperature,
            top_k,
            (d + e)[k],
            #[trigger] (a + b)[k],
        ) by {
            if k < n {
                assert((a + b)[k] == a[k] && (d + e)[k] == d[k]);
                assert(window(seed, a + b, k) == window(seed, a, k));
            } else {
                assert((a + b)[k] == b[k - n] && (d + e)[k] == e[k - n]);
                assert(window(seed, a + b, n + (k - n)) == window(next, b, k - n));
            }
        }
    }
}

/// The logits to sample from are those behind the last token of the window: the
/// last of the `block_size` rows that stand at the front of the logits.
pub proof fn lemma_last_logits<F>(c: Config, acts: Seq<F>, j: int)
    requires
        c.runs(),
        0 < c.batch_size,
        0 < c.block_size,
        acts.len() == c.act_total(),
        0 <= j < c.vocab_size,
    ensures
        last_logits(c, acts).len() == c.vocab_size,
        last_logits(c, acts)[j] == acts[act_layout(c).logits.off + (c.block_size - 1) * c.vocab_size
            + j],
{
    let (n, t, v) = (c.tokens(), c.block_size as int, c.vocab_size as int);
    lemma_act_layout(c);
    lemma_act_sizes(c);
    assert(t <= n) by (nonlinear_arith)
        requires
            n == c.batch_size * t,
            0 < c.batch_size,
            0 < t,
    ;
    lemma_row_bounds(t - 1, n, v);
}

} // verus!
