//! Rotary position embedding on packed queries, keys and values, and its
//! backward pass.
//!
//! A row holds the queries of all heads, then the keys, then the values. Of
//! each head, value `j` and value `j + hs/2` are rotated together by the angle
//! `pos * 10000^(-2j/hs)`. The values of the third part stay as they are.

use vstd::prelude::*;

use crate::arena::{copied, flatten, only_changed, row, row_of, store, tensor};
use crate::layout::lemma_nonneg;
use crate::scalar::{difference_is, negation_is, product_is, ratio_is, sum_is, Scalar};

verus! {

/// `r` is `a` raised to `b`.
#[verifier::inline]
pub open spec fn power_is<F: Scalar>(a: F, b: F, r: F) -> bool {
    call_ensures(F::powf, (a, b), r)
}

/// `theta` is `pos * 10000^(-2j/hs)`.
pub open spec fn angle_is<F: Scalar>(pos: usize, j: int, hs: usize, theta: F) -> bool {
    exists|base: F, q: F, exponent: F, freq: F, p: F|
        #[trigger] ratio_is(10000, 1, base) && #[trigger] ratio_is((2 * j) as usize, hs, q)
            && #[trigger] negation_is(q, exponent) && #[trigger] power_is(base, exponent, freq)
            && #[trigger] ratio_is(pos, 1, p) && product_is(p, freq, theta)
}

/// `sc` is the sine and the cosine of the angle for frequency `j` at `pos`.
pub open spec fn turn_is<F: Scalar>(pos: usize, j: int, hs: usize, sc: (F, F)) -> bool {
    exists|theta: F|
        angle_is(pos, j, hs, theta) && #[trigger] call_ensures(F::sin, (theta,), sc.0)
            && call_ensures(F::cos, (theta,), sc.1)
}

/// `turns` holds the sines and cosines for position `pos`.
pub open spec fn turns_are<F: Scalar>(pos: usize, hs: usize, turns: Seq<(F, F)>) -> bool {
    &&& turns.len() == hs as int / 2
    &&& forall|j: int| 0 <= j < turns.len() ==> turn_is(pos, j, hs, #[trigger] turns[j])
}

/// `(y1, y2)` is `(x1, x2)` rotated by the angle of `sc`:
/// `(x1 * cos - x2 * sin, x1 * sin + x2 * cos)`.
pub open spec fn rotated_is<F: Scalar>(x1: F, x2: F, sc: (F, F), y1: F, y2: F) -> bool {
    exists|p1: F, p2: F, p3: F, p4: F|
        #[trigger] product_is(x1, sc.1, p1) && #[trigger] product_is(x2, sc.0, p2)
            && #[trigger] product_is(x1, sc.0, p3) && #[trigger] product_is(x2, sc.1, p4)
            && difference_is(p1, p2, y1) && sum_is(p3, p4, y2)
}

/// `(y1, y2)` is `(x1, x2)` rotated back by the angle of `sc`:
/// `(x1 * cos + x2 * sin, -x1 * sin + x2 * cos)`.
pub open spec fn rotated_back_is<F: Scalar>(x1: F, x2: F, sc: (F, F), y1: F, y2: F) -> bool {
    exists|p1: F, p2: F, neg: F, p3: F, p4: F|
        #[trigger] product_is(x1, sc.1, p1) && #[trigger] product_is(x2, sc.0, p2)
            && #[trigger] negation_is(x1, neg) && #[trigger] product_is(neg, sc.0, p3)
            && #[trigger] product_is(x2, sc.1, p4) && sum_is(p1, p2, y1) && sum_is(p3, p4, y2)
}

/// `y` is the head `x`, each of its pairs rotated (or rotated `back`) by its
/// turn.
pub open spec fn head_turned_is<F: Scalar>(
    back: bool,
    turns: Seq<(F, F)>,
    x: Seq<F>,
    y: Seq<F>,
) -> bool {
    &&& y.len() == x.len()
    &&& forall|j: int|
        0 <= j < turns.len() ==> {
            let k = j + turns.len();
            if back {
                rotated_back_is(x[j], x[k], #[trigger] turns[j], y[j], y[k])
            } else {
                rotated_is(x[j], x[k], turns[j], y[j], y[k])
            }
        }
}

/// `y` is the row `x` of one token at `pos`: the `2 * nh` heads of queries and
/// keys turned, the `nh` heads of values as they were.
pub open spec fn rope_row_is<F: Scalar>(
    back: bool,
    pos: usize,
    nh: int,
    hs: usize,
    x: Seq<F>,
    y: Seq<F>,
) -> bool {
    exists|turns: Seq<(F, F)>| #[trigger]
        turns_are(pos, hs, turns) && heads_turned_are(back, turns, nh, hs as int, x, y)
}

/// The heads of queries and keys are turned, those of values stay.
pub open spec fn heads_turned_are<F: Scalar>(
    back: bool,
    turns: Seq<(F, F)>,
    nh: int,
    hs: int,
    x: Seq<F>,
    y: Seq<F>,
) -> bool {
    &&& y.len() == (3 * nh) * hs
    &&& forall|m: int|
        0 <= m < 3 * nh ==> if m < 2 * nh {
            head_turned_is(back, turns, row(x, m, hs), #[trigger] row(y, m, hs))
        } else {
            row(y, m, hs) == row(x, m, hs)
        }
}

/// `y` is `x` with every row turned; row `k` of the `n` stands at position
/// `k % t`.
#[verifier::opaque]
pub open spec fn rope_is<F: Scalar>(
    back: bool,
    n: int,
    t: int,
    nh: int,
    hs: usize,
    x: Seq<F>,
    y: Seq<F>,
) -> bool {
    let c3 = (3 * nh) * hs;
    &&& y.len() == n * c3
    &&& forall|k: int|
        0 <= k < n ==> rope_row_is(
            back,
            (k % t) as usize,
            nh,
            hs,
            row(x, k, c3),
            #[trigger] row(y, k, c3),
        )
}

/// The sines and cosines for position `pos`.
fn turns_at<F: Scalar>(pos: usize, hs: usize) -> (turns: Vec<(F, F)>)
    ensures
        turns_are(pos, hs, turns@),
{
    let mut turns: Vec<(F, F)> = Vec::with_capacity(hs / 2);
    for j in 0..hs / 2
        invariant
            turns@.len() == j,
            forall|i: int| 0 <= i < j ==> turn_is(pos, i, hs, #[trigger] turns@[i]),
    {
        let base = F::from_ratio(10000, 1);
        let freq = base.powf(F::from_ratio(2 * j, hs).negate());
        let theta = F::from_ratio(pos, 1).times(freq);
        assert(angle_is(pos, j as int, hs, theta));
        let s = theta.sin();
        let co = theta.cos();
        let sc = (s, co);
        assert(call_ensures(F::sin, (theta,), sc.0));
        assert(turn_is(pos, j as int, hs, sc));
        turns.push(sc);
    }
    turns
}

/// One head turned.
fn head_turned<F: Scalar>(back: bool, turns: &Vec<(F, F)>, x: &[F]) -> (y: Vec<F>)
    requires
        x@.len() == 2 * turns@.len(),
    ensures
        head_turned_is(back, turns@, x@, y@),
{
    let half = turns.len();
    let mut y = copied(x);
    for j in 0..half
        invariant
            half == turns@.len(),
            x@.len() == 2 * half,
            y@.len() == 2 * half,
            forall|i: int|
                0 <= i < j ==> {
                    let k = i + half;
                    if back {
                        rotated_back_is(x@[i], x@[k], #[trigger] turns@[i], y@[i], y@[k])
                    } else {
                        rotated_is(x@[i], x@[k], turns@[i], y@[i], y@[k])
                    }
                },
    {
        let (s, co) = turns[j];
        let x1 = x[j];
        let x2 = x[j + half];
        if back {
            let y1 = x1.times(co).plus(x2.times(s));
            let y2 = x1.negate().times(s).plus(x2.times(co));
            assert(rotated_back_is(x1, x2, (s, co), y1, y2));
            y[j] = y1;
            y[j + half] = y2;
        } else {
            let y1 = x1.times(co).minus(x2.times(s));
            let y2 = x1.times(s).plus(x2.times(co));
            assert(rotated_is(x1, x2, (s, co), y1, y2));
            y[j] = y1;
            y[j + half] = y2;
        }
    }
    y
}

/// One token's row turned.
fn rope_row<F: Scalar>(back: bool, pos: usize, nh: usize, hs: usize, x: &[F]) -> (y: Vec<F>)
    requires
        hs % 2 == 0,
        3 * nh <= usize::MAX,
        x@.len() == (3 * nh) * hs,
    ensures
        rope_row_is(back, pos, nh as int, hs, x@, y@),
        y@.len() == x@.len(),
{
    let turns = turns_at(pos, hs);
    let mut heads: Vec<Vec<F>> = Vec::with_capacity(3 * nh);
    for m in 0..3 * nh
        invariant
            hs % 2 == 0,
            3 * nh <= usize::MAX,
            x@.len() == (3 * nh) * hs,
            turns@.len() == hs as int / 2,
            heads@.len() == m,
            forall|q: int|
                0 <= q < m ==> (#[trigger] heads@[q])@.len() == hs && if q < 2 * nh {
                    head_turned_is(back, turns@, row(x@, q, hs as int), heads@[q]@)
                } else {
                    heads@[q]@ == row(x@, q, hs as int)
                },
    {
        let head = row_of(x, m, 3 * nh, hs);
        if m < 2 * nh {
            heads.push(head_turned(back, &turns, head));
        } else {
            heads.push(copied(head));
        }
    }
    let y = flatten(&heads, hs);
    assert(heads_turned_are(back, turns@, nh as int, hs as int, x@, y@));
    y
}

/// Turn the rows of the `(b, t, 3c)` tensor at `off`.
fn rope<F: Scalar>(
    back: bool,
    acts: &mut [F],
    off: usize,
    b: usize,
    t: usize,
    nh: usize,
    hs: usize,
)
    requires
        0 < t,
        hs % 2 == 0,
        b * t <= usize::MAX,
        3 * nh <= usize::MAX,
        (3 * nh) * hs <= usize::MAX,
        (b * t) * ((3 * nh) * hs) <= usize::MAX,
        off + (b * t) * ((3 * nh) * hs) <= old(acts).len(),
    ensures
        only_changed(old(acts)@, final(acts)@, off as int, (b * t) * ((3 * nh) * hs)),
        rope_is(
            back,
            b * t,
            t as int,
            nh as int,
            hs,
            tensor(old(acts)@, off as int, (b * t) * ((3 * nh) * hs)),
            tensor(final(acts)@, off as int, (b * t) * ((3 * nh) * hs)),
        ),
{
    proof {
        reveal(rope_is);
        lemma_nonneg(b as int, t as int);
        lemma_nonneg(3 * nh, hs as int);
        lemma_nonneg(b * t, (3 * nh) * hs);
    }
    let n = b * t;
    let c3 = (3 * nh) * hs;
    let x: &[F] = &acts[off..off + n * c3];
    let mut rows: Vec<Vec<F>> = Vec::with_capacity(n);
    for k in 0..n
        invariant
            0 < t,
            hs % 2 == 0,
            3 * nh <= usize::MAX,
            c3 == (3 * nh) * hs,
            x@.len() == n * c3,
            rows@.len() == k,
            forall|q: int|
                0 <= q < k ==> (#[trigger] rows@[q])@.len() == c3 && rope_row_is(
                    back,
                    (q % (t as int)) as usize,
                    nh as int,
                    hs,
                    row(x@, q, c3 as int),
                    rows@[q]@,
                ),
    {
        rows.push(rope_row(back, k % t, nh, hs, row_of(x, k, n, c3)));
    }
    let flat = flatten(&rows, c3);
    store(acts, off, flat.as_slice());
}

/// Rotary position embedding, in place on the `(b, t, 3c)` tensor at `qkv_off`.
pub fn rope_forward<F: Scalar>(
    acts: &mut [F],
    qkv_off: usize,
    b: usize,
    t: usize,
    nh: usize,
    hs: usize,
)
    requires
        0 < t,
        hs % 2 == 0,
        b * t <= usize::MAX,
        3 * nh <= usize::MAX,
        (3 * nh) * hs <= usize::MAX,
        (b * t) * ((3 * nh) * hs) <= usize::MAX,
        qkv_off + (b * t) * ((3 * nh) * hs) <= old(acts).len(),
    ensures
        only_changed(old(acts)@, final(acts)@, qkv_off as int, (b * t) * ((3 * nh) * hs)),
        rope_is(
            false,
            b * t,
            t as int,
            nh as int,
            hs,
            tensor(old(acts)@, qkv_off as int, (b * t) * ((3 * nh) * hs)),
            tensor(final(acts)@, qkv_off as int, (b * t) * ((3 * nh) * hs)),
        ),
{
    proof {
        reveal(rope_is);
    }
    rope(false, acts, qkv_off, b, t, nh, hs);
}

/// Backward of the rotary position embedding: the gradients at `qkv_off` are
/// rotated back, in place.
pub fn rope_backward<F: Scalar>(
    gacts: &mut [F],
    qkv_off: usize,
    b: usize,
    t: usize,
    nh: usize,
    hs: usize,
)
    requires
        0 < t,
        hs % 2 == 0,
        b * t <= usize::MAX,
        3 * nh <= usize::MAX,
        (3 * nh) * hs <= usize::MAX,
        (b * t) * ((3 * nh) * hs) <= usize::MAX,
        qkv_off + (b * t) * ((3 * nh) * hs) <= old(gacts).len(),
    ensures
        only_changed(old(gacts)@, final(gacts)@, qkv_off as int, (b * t) * ((3 * nh) * hs)),
        rope_is(
            true,
            b * t,
            t as int,
            nh as int,
            hs,
            tensor(old(gacts)@, qkv_off as int, (b * t) * ((3 * nh) * hs)),
            tensor(final(gacts)@, qkv_off as int, (b * t) * ((3 * nh) * hs)),
        ),
{
    proof {
        reveal(rope_is);
    }
    rope(true, gacts, qkv_off, b, t, nh, hs);
}

/// The rotary embedding leaves the values alone: of row `k`, the heads behind
/// those of the queries and the keys are what they were.
pub proof fn lemma_rope_keeps_values<F: Scalar>(
    back: bool,
    n: int,
    t: int,
    nh: int,
    hs: usize,
    x: Seq<F>,
    y: Seq<F>,
    k: int,
    m: int,
)
    requires
        rope_is(back, n, t, nh, hs, x, y),
        0 <= k < n,
        2 * nh <= m < 3 * nh,
    ensures
        row(row(y, k, (3 * nh) * hs), m, hs as int) == row(
            row(x, k, (3 * nh) * hs),
            m,
            hs as int,
        ),
{
    reveal(rope_is);
    let a = row(x, k, (3 * nh) * hs);
    let b = row(y, k, (3 * nh) * hs);
    assert(rope_row_is(back, (k % t) as usize, nh, hs, a, b));
    let turns = choose|turns: Seq<(F, F)>| #[trigger]
        turns_are((k % t) as usize, hs, turns) && heads_turned_are(
            back,
            turns,
            nh,
            hs as int,
            a,
            b,
        );
}

} // verus!
