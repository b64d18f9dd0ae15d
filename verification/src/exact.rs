//! What holds where the arithmetic is exact.
//!
//! Floating-point numbers round, so of them these laws hold up to rounding
//! alone.

use vstd::prelude::*;

use crate::arena::{lemma_row_bounds, row};
use crate::gradcheck::{magnitude_is, rel_error_is, tiny_is};
use crate::layout::lemma_nonneg;
use crate::model::backward::all_zero;
use crate::model::unique::{lemma_rows_join, lemma_turns_unique, single_valued};
use crate::ops::loss::{
    ids_below, logit_gradient_at, logit_gradient_is, logit_gradient_row_is, peak_is, reciprocal_is,
    shifted_exp_is, shifted_exps_are, softmax_is, softmax_row_is,
};
use crate::ops::pointwise::each_times_is;
use crate::ops::rope::{
    head_turned_is, heads_turned_are, rope_is, rope_row_is, rotated_back_is, rotated_is, turn_is,
    turns_are,
};
use crate::scalar::{
    abs_is, difference_is, exceeds_is, exp_is, is_one, is_zero, larger_is, negation_is, product_is,
    quotient_is, ratio_is, sum_is, total_is, Scalar,
};
use crate::sums::{
    lemma_sum_add, lemma_sum_one, lemma_sum_positive, lemma_sum_same, lemma_sum_scale,
    lemma_sum_zero, lemma_total_value, times, total_of,
};

pub mod attention;
pub mod back_pass;
pub mod gate;
pub mod gradcheck;
pub mod head_gradients;
pub mod heads;
pub mod init;
pub mod losses;
pub mod norm;
pub mod ops;
pub mod optim;
pub mod pass;
pub mod power;
pub mod rope;
pub mod sampling;

verus! {

/// The magnitude of `x`.
pub open spec fn magnitude(x: real) -> real {
    if x < 0 as real {
        -x
    } else {
        x
    }
}

/// `val` gives the number that a value stands for: each stands for one of its
/// own, and the operations compute exactly.
pub open spec fn exact<F: Scalar>(val: spec_fn(F) -> real) -> bool {
    &&& forall|a: F, b: F| #[trigger] val(a) == #[trigger] val(b) ==> a == b
    &&& forall|r: F| #[trigger] is_zero(r) ==> val(r) == 0 as real
    &&& forall|r: F| #[trigger] is_one(r) ==> val(r) == 1 as real
    &&& forall|a: F, r: F| #[trigger] exp_is(a, r) ==> val(r) > 0 as real
    &&& forall|n: usize, d: usize, r: F| #[trigger]
        ratio_is(n, d, r) && d > 0 ==> val(r) * (d as int as real) == n as int as real
    &&& forall|a: F, b: F, r: F| #[trigger] sum_is(a, b, r) ==> val(r) == val(a) + val(b)
    &&& forall|a: F, b: F, r: F| #[trigger] difference_is(a, b, r) ==> val(r) == val(a) - val(b)
    &&& forall|a: F, b: F, r: F| #[trigger] product_is(a, b, r) ==> val(r) == val(a) * val(b)
    &&& forall|a: F, b: F, r: F| #[trigger]
        quotient_is(a, b, r) && val(b) != 0 as real ==> val(r) * val(b) == val(a)
    &&& forall|a: F, r: F| #[trigger] negation_is(a, r) ==> val(r) == -val(a)
    &&& forall|a: F, r: F| #[trigger] abs_is(a, r) ==> val(r) == magnitude(val(a))
    &&& forall|a: F, b: F, r: F| #[trigger]
        larger_is(a, b, r) ==> val(r) == if val(a) < val(b) {
            val(b)
        } else {
            val(a)
        }
    &&& forall|a: F, b: F, r: bool| #[trigger] exceeds_is(a, b, r) ==> r == (val(a) > val(b))
    &&& forall|t: F, s: F, c: F| #[trigger]
        call_ensures(F::sin, (t,), s) && #[trigger] call_ensures(F::cos, (t,), c) ==> val(s) * val(
            s,
        ) + val(c) * val(c) == 1 as real
}

/// A turn and the turn back are the identity, in either order.
proof fn lemma_turn_undone(x: real, y: real, s: real, c: real)
    requires
        s * s + c * c == 1 as real,
    ensures
        (x * c - y * s) * c + (x * s + y * c) * s == x,
        (-(x * c - y * s)) * s + (x * s + y * c) * c == y,
        (x * c + y * s) * c - ((-x) * s + y * c) * s == x,
        (x * c + y * s) * s + ((-x) * s + y * c) * c == y,
{
    assert((x * c - y * s) * c + (x * s + y * c) * s == x * (s * s + c * c)) by (nonlinear_arith);
    assert((-(x * c - y * s)) * s + (x * s + y * c) * c == y * (s * s + c * c))
        by (nonlinear_arith);
    assert((x * c + y * s) * c - ((-x) * s + y * c) * s == x * (s * s + c * c))
        by (nonlinear_arith);
    assert((x * c + y * s) * s + ((-x) * s + y * c) * c == y * (s * s + c * c))
        by (nonlinear_arith);
    assert(x * 1 as real == x) by (nonlinear_arith);
    assert(y * 1 as real == y) by (nonlinear_arith);
}

proof fn lemma_pair_undone<F: Scalar>(
    val: spec_fn(F) -> real,
    back: bool,
    sc: (F, F),
    x1: F,
    x2: F,
    y1: F,
    y2: F,
    z1: F,
    z2: F,
)
    requires
        exact(val),
        val(sc.0) * val(sc.0) + val(sc.1) * val(sc.1) == 1 as real,
        if back {
            rotated_back_is(x1, x2, sc, y1, y2) && rotated_is(y1, y2, sc, z1, z2)
        } else {
            rotated_is(x1, x2, sc, y1, y2) && rotated_back_is(y1, y2, sc, z1, z2)
        },
    ensures
        z1 == x1,
        z2 == x2,
{
    lemma_turn_undone(val(x1), val(x2), val(sc.0), val(sc.1));
    assert(val(z1) == val(x1));
    assert(val(z2) == val(x2));
}

proof fn lemma_head_undone<F: Scalar>(
    val: spec_fn(F) -> real,
    back: bool,
    pos: usize,
    hs: usize,
    turns: Seq<(F, F)>,
    x: Seq<F>,
    y: Seq<F>,
    z: Seq<F>,
)
    requires
        exact(val),
        turns_are(pos, hs, turns),
        x.len() == 2 * turns.len(),
        head_turned_is(back, turns, x, y),
        head_turned_is(!back, turns, y, z),
    ensures
        z == x,
{
    let n = turns.len() as int;
    assert forall|k: int| 0 <= k < z.len() implies z[k] == x[k] by {
        let j = if k < n {
            k
        } else {
            k - n
        };
        let sc = turns[j];
        assert(turn_is(pos, j, hs, sc));
        lemma_pair_undone(val, back, sc, x[j], x[j + n], y[j], y[j + n], z[j], z[j + n]);
    }
    assert(z =~= x);
}

proof fn lemma_row_undone<F: Scalar>(
    val: spec_fn(F) -> real,
    back: bool,
    pos: usize,
    nh: int,
    hs: usize,
    x: Seq<F>,
    y: Seq<F>,
    z: Seq<F>,
)
    requires
        exact(val),
        single_valued::<F>(),
        0 <= nh,
        hs % 2 == 0,
        x.len() == (3 * nh) * hs,
        rope_row_is(back, pos, nh, hs, x, y),
        rope_row_is(!back, pos, nh, hs, y, z),
    ensures
        z == x,
{
    let h = hs as int;
    let a = choose|a: Seq<(F, F)>| #[trigger]
        turns_are(pos, hs, a) && heads_turned_are(back, a, nh, h, x, y);
    let b = choose|b: Seq<(F, F)>| #[trigger]
        turns_are(pos, hs, b) && heads_turned_are(!back, b, nh, h, y, z);
    lemma_turns_unique(pos, hs, a, b);
    assert forall|m: int| 0 <= m < 3 * nh implies #[trigger] row(z, m, h) == row(x, m, h) by {
        lemma_row_bounds(m, 3 * nh, h);
        let r = row(y, m, h);
        if m < 2 * nh {
            assert(head_turned_is(back, a, row(x, m, h), r));
            assert(head_turned_is(!back, a, r, row(z, m, h)));
            lemma_head_undone(val, back, pos, hs, a, row(x, m, h), r, row(z, m, h));
        } else {
            assert(r == row(x, m, h));
        }
    }
    lemma_rows_join(z, x, 3 * nh, h);
}

/// The backward of the rotary embedding undoes it, and it undoes its backward:
/// in exact arithmetic the tensor is what it was.
pub proof fn lemma_rope_undone<F: Scalar>(
    val: spec_fn(F) -> real,
    back: bool,
    n: int,
    t: int,
    nh: int,
    hs: usize,
    x: Seq<F>,
    y: Seq<F>,
    z: Seq<F>,
)
    requires
        exact(val),
        single_valued::<F>(),
        0 <= n,
        0 <= nh,
        hs % 2 == 0,
        x.len() == n * ((3 * nh) * hs),
        rope_is(back, n, t, nh, hs, x, y),
        rope_is(!back, n, t, nh, hs, y, z),
    ensures
        z == x,
{
    reveal(rope_is);
    let c3 = (3 * nh) * hs;
    lemma_nonneg(3 * nh, hs as int);
    assert forall|k: int| 0 <= k < n implies #[trigger] row(z, k, c3) == row(x, k, c3) by {
        lemma_row_bounds(k, n, c3);
        let pos = (k % t) as usize;
        let r = row(y, k, c3);
        assert(rope_row_is(back, pos, nh, hs, row(x, k, c3), r));
        assert(rope_row_is(!back, pos, nh, hs, r, row(z, k, c3)));
        lemma_row_undone(val, back, pos, nh, hs, row(x, k, c3), r, row(z, k, c3));
    }
    lemma_rows_join(z, x, n, c3);
}

/// The larger of two numbers.
pub open spec fn larger_of(x: real, y: real) -> real {
    if x < y {
        y
    } else {
        x
    }
}

proof fn lemma_magnitude_value<F: Scalar>(val: spec_fn(F) -> real, a: F, b: F, r: F)
    requires
        exact(val),
        magnitude_is(a, b, r),
    ensures
        val(r) > 0 as real,
        exists|tiny: F| #[trigger] tiny_is(tiny) && val(tiny) > 0 as real && val(r) == larger_of(
            larger_of(magnitude(val(a)), magnitude(val(b))),
            val(tiny),
        ),
{
    let (x, y, m, tiny) = choose|x: F, y: F, m: F, tiny: F| #[trigger]
        abs_is(a, x) && #[trigger] abs_is(b, y) && #[trigger] larger_is(x, y, m) && #[trigger]
        tiny_is(tiny) && larger_is(m, tiny, r);
    let micro = choose|micro: F| #[trigger]
        ratio_is(1, 1_000_000, micro) && product_is(micro, micro, tiny);
    let v = val(micro);
    assert(v * (1_000_000int as real) == 1int as real);
    assert(v * v > 0 as real) by (nonlinear_arith)
        requires
            v * (1_000_000int as real) == 1int as real,
    ;
    assert(val(tiny) > 0 as real);
}

/// In exact arithmetic the relative error lies between 0 and 2, is zero for
/// equal values alone, and is the same for the values the other way round and
/// for their negatives.
pub proof fn lemma_rel_error_exact<F: Scalar>(
    val: spec_fn(F) -> real,
    a: F,
    b: F,
    na: F,
    nb: F,
    r: F,
    s: F,
    t: F,
)
    requires
        exact(val),
        negation_is(a, na),
        negation_is(b, nb),
        rel_error_is(a, b, r),
        rel_error_is(b, a, s),
        rel_error_is(na, nb, t),
    ensures
        0 as real <= val(r) <= 2 as real,
        val(r) == 0 as real <==> a == b,
        r == s,
        r == t,
{
    let (den1, d1, num1) = choose|den: F, d: F, num: F| #[trigger]
        magnitude_is(a, b, den) && #[trigger] difference_is(a, b, d) && #[trigger] abs_is(d, num)
            && quotient_is(num, den, r);
    let (den2, d2, num2) = choose|den: F, d: F, num: F| #[trigger]
        magnitude_is(b, a, den) && #[trigger] difference_is(b, a, d) && #[trigger] abs_is(d, num)
            && quotient_is(num, den, s);
    let (den3, d3, num3) = choose|den: F, d: F, num: F| #[trigger]
        magnitude_is(na, nb, den) && #[trigger] difference_is(na, nb, d) && #[trigger] abs_is(
            d,
            num,
        ) && quotient_is(num, den, t);
    lemma_magnitude_value(val, a, b, den1);
    lemma_magnitude_value(val, b, a, den2);
    lemma_magnitude_value(val, na, nb, den3);
    assert forall|x: F, y: F| #[trigger] tiny_is(x) && #[trigger] tiny_is(y) implies val(x) == val(
        y,
    ) by {
        lemma_tiny_value(val, x, y);
    }
    assert(val(den1) == val(den2) && val(den1) == val(den3));
    assert(val(num1) == val(num2) && val(num1) == val(num3));
    let d = val(den1);
    let n = val(num1);
    lemma_quotient(val(r), val(s), d, n);
    lemma_quotient(val(r), val(t), d, n);
    assert(n <= 2 as real * d);
    assert(0 as real <= n);
    assert(val(a) - val(b) == 0 as real ==> val(a) == val(b));
}

proof fn lemma_tiny_value<F: Scalar>(val: spec_fn(F) -> real, x: F, y: F)
    requires
        exact(val),
        tiny_is(x),
        tiny_is(y),
    ensures
        val(x) == val(y),
{
    let p = choose|micro: F| #[trigger]
        ratio_is(1, 1_000_000, micro) && product_is(micro, micro, x);
    let q = choose|micro: F| #[trigger]
        ratio_is(1, 1_000_000, micro) && product_is(micro, micro, y);
    assert(val(p) * (1_000_000int as real) == 1int as real);
    assert(val(q) * (1_000_000int as real) == 1int as real);
    assert(val(p) == val(q));
}

/// A quotient by a positive number is known by its product with it.
proof fn lemma_quotient(q: real, p: real, d: real, n: real)
    requires
        d > 0 as real,
        q * d == n,
        p * d == n,
    ensures
        q == p,
        0 as real <= n ==> 0 as real <= q,
        n <= 2 as real * d ==> q <= 2 as real,
        q == 0 as real <==> n == 0 as real,
{
    assert(q == p) by (nonlinear_arith)
        requires
            d > 0 as real,
            q * d == p * d,
    ;
    assert(0 as real <= n ==> 0 as real <= q) by (nonlinear_arith)
        requires
            d > 0 as real,
            q * d == n,
    ;
    assert(n <= 2 as real * d ==> q <= 2 as real) by (nonlinear_arith)
        requires
            d > 0 as real,
            q * d == n,
    ;
    assert(q == 0 as real <==> n == 0 as real) by (nonlinear_arith)
        requires
            d > 0 as real,
            q * d == n,
    ;
}

/// Exponentials, each times the reciprocal of their sum, sum to one.
pub(crate) proof fn lemma_normalised<F: Scalar>(
    val: spec_fn(F) -> real,
    x: Seq<F>,
    m: F,
    e: Seq<F>,
    s: F,
    inv: F,
    y: Seq<F>,
)
    requires
        exact(val),
        0 < x.len(),
        shifted_exps_are(x, m, e),
        total_is(e, s),
        val(s) > 0 as real ==> reciprocal_is(s, inv),
        each_times_is(e, inv, y),
    ensures
        y.len() == x.len(),
        total_of(val, y) == 1 as real,
{
    let n = x.len();
    let ef = |i: int| val(e[i]);
    assert forall|i: int| 0 <= i < n implies #[trigger] ef(i) > 0 as real by {
        assert(shifted_exp_is(x[i], m, e[i]));
    }
    lemma_sum_positive(n, ef);
    lemma_total_value(val, e, s);
    lemma_sum_same(n, ef, |i: int| val(e[i]));
    assert(val(inv) * val(s) == 1 as real);
    let yf = |i: int| val(y[i]);
    assert forall|i: int| 0 <= i < n implies #[trigger] yf(i) == times(val(inv), ef(i)) by {
        assert(product_is(e[i], inv, y[i]));
        let (p, q) = (val(e[i]), val(inv));
        assert(p * q == q * p) by (nonlinear_arith);
    }
    lemma_sum_scale(n, val(inv), ef, yf);
    lemma_sum_same(n, yf, |i: int| val(y[i]));
}

/// In exact arithmetic a softmax row sums to one.
pub proof fn lemma_softmax_sums_to_one<F: Scalar>(val: spec_fn(F) -> real, x: Seq<F>, y: Seq<F>)
    requires
        exact(val),
        0 < x.len(),
        softmax_row_is(x, y),
    ensures
        y.len() == x.len(),
        total_of(val, y) == 1 as real,
{
    let (m, e, s, inv) = choose|m: F, e: Seq<F>, s: F, inv: F|
        #[trigger] peak_is(x, m) && #[trigger] shifted_exps_are(x, m, e) && #[trigger] total_is(
            e,
            s,
        ) && #[trigger] reciprocal_is(s, inv) && each_times_is(e, inv, y);
    lemma_normalised(val, x, m, e, s, inv, y);
}

/// In exact arithmetic the gradient of a token's loss by its logits sums to
/// zero: what is added to a row adds up to nothing.
pub proof fn lemma_logit_gradient_sums_to_zero<F: Scalar>(
    val: spec_fn(F) -> real,
    x: Seq<F>,
    p: Seq<F>,
    target: int,
    dmean: F,
    old_d: Seq<F>,
    new_d: Seq<F>,
)
    requires
        exact(val),
        0 <= target < x.len(),
        softmax_row_is(x, p),
        old_d.len() == x.len(),
        logit_gradient_row_is(p, target, dmean, old_d, new_d),
    ensures
        new_d.len() == old_d.len(),
        total_of(val, new_d) == total_of(val, old_d),
        all_zero(old_d) ==> total_of(val, new_d) == 0 as real,
{
    let n = x.len();
    lemma_softmax_sums_to_one(val, x, p);
    let k = val(dmean);
    let pf = |i: int| val(p[i]);
    let hit = |i: int|
        if i == target {
            -(1 as real)
        } else {
            0 as real
        };
    let diff = |i: int| pf(i) + hit(i);
    lemma_sum_add(n, pf, hit, diff);
    lemma_sum_one(n, target, hit);
    lemma_sum_same(n, pf, |i: int| val(p[i]));
    let step = |i: int| times(k, diff(i));
    lemma_sum_scale(n, k, diff, step);
    assert(k * 0 as real == 0 as real) by (nonlinear_arith);
    let of = |i: int| val(old_d[i]);
    let nf = |i: int| val(new_d[i]);
    assert forall|i: int| 0 <= i < n implies #[trigger] nf(i) == of(i) + step(i) by {
        assert(logit_gradient_at(p[i], i == target, dmean, old_d[i], new_d[i]));
        let a = diff(i);
        assert(a * k == k * a) by (nonlinear_arith);
    }
    lemma_sum_add(n, of, step, nf);
    lemma_sum_same(n, of, |i: int| val(old_d[i]));
    lemma_sum_same(n, nf, |i: int| val(new_d[i]));
    if all_zero(old_d) {
        assert forall|i: int| 0 <= i < n implies #[trigger] of(i) == 0 as real by {
            assert(is_zero(old_d[i]));
        }
        lemma_sum_zero(n, of);
    }
}

/// So it is of every row of probabilities.
pub proof fn lemma_probs_sum_to_one<F: Scalar>(
    val: spec_fn(F) -> real,
    logits: Seq<F>,
    n: int,
    v: int,
    probs: Seq<F>,
    r: int,
)
    requires
        exact(val),
        0 <= r < n,
        0 < v,
        logits.len() == n * v,
        softmax_is(logits, n, v, probs),
    ensures
        total_of(val, row(probs, r, v)) == 1 as real,
{
    reveal(softmax_is);
    lemma_row_bounds(r, n, v);
    assert(softmax_row_is(row(logits, r, v), row(probs, r, v)));
    lemma_softmax_sums_to_one(val, row(logits, r, v), row(probs, r, v));
}

/// And so it is of every row of the logit gradient: the row keeps its sum,
/// which is zero where the gradient starts from zero.
pub proof fn lemma_logit_rows_sum_to_zero<F: Scalar>(
    val: spec_fn(F) -> real,
    logits: Seq<F>,
    probs: Seq<F>,
    targets: Seq<u16>,
    n: int,
    v: int,
    dmean: F,
    old_d: Seq<F>,
    new_d: Seq<F>,
    r: int,
)
    requires
        exact(val),
        0 <= r < n,
        0 <= v,
        logits.len() == n * v,
        old_d.len() == n * v,
        targets.len() == n,
        ids_below(targets, v),
        softmax_is(logits, n, v, probs),
        logit_gradient_is(probs, targets, n, v, dmean, old_d, new_d),
    ensures
        total_of(val, row(new_d, r, v)) == total_of(val, row(old_d, r, v)),
        all_zero(old_d) ==> total_of(val, row(new_d, r, v)) == 0 as real,
{
    reveal(softmax_is);
    reveal(logit_gradient_is);
    lemma_row_bounds(r, n, v);
    let x = row(logits, r, v);
    let p = row(probs, r, v);
    let d = row(old_d, r, v);
    assert(softmax_row_is(x, p));
    assert(targets[r] < v);
    assert(logit_gradient_row_is(p, targets[r] as int, dmean, d, row(new_d, r, v)));
    lemma_logit_gradient_sums_to_zero(
        val,
        x,
        p,
        targets[r] as int,
        dmean,
        d,
        row(new_d, r, v),
    );
    if all_zero(old_d) {
        assert forall|i: int| 0 <= i < d.len() implies #[trigger] is_zero(d[i]) by {
            assert(is_zero(old_d[r * v + i]));
        }
    }
}

} // verus!
