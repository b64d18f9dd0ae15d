//! What the rotary embedding does where the arithmetic is exact.

use vstd::prelude::*;

use crate::arena::{lemma_row_bounds, row};
use crate::exact::exact;
use crate::exact::power::{
    exact_powers, lemma_power_add, lemma_power_positive, lemma_power_unique, real_power,
};
use crate::layout::lemma_nonneg;
use crate::ops::rope::{
    angle_is, head_turned_is, heads_turned_are, power_is, rope_is, rope_row_is, rotated_back_is,
    rotated_is, turn_is, turns_are,
};
use crate::scalar::{cos_is, negation_is, product_is, ratio_is, Scalar};

verus! {

/// `f` is the positive number whose `hs`-th power is `10000` to the power
/// `-2 * j`.
pub open spec fn frequency_is(f: real, j: nat, hs: nat) -> bool {
    &&& f > 0 as real
    &&& real_power(f, hs) * real_power(10000 as real, 2 * j) == 1 as real
}

/// There is one such number.
pub proof fn lemma_frequency_unique(f: real, g: real, j: nat, hs: nat)
    requires
        0 < hs,
        frequency_is(f, j, hs),
        frequency_is(g, j, hs),
    ensures
        f == g,
{
    let b = real_power(10000 as real, 2 * j);
    let p = real_power(f, hs);
    let q = real_power(g, hs);
    lemma_power_positive(10000 as real, 2 * j);
    assert(p == q) by (nonlinear_arith)
        requires
            b > 0 as real,
            p * b == 1 as real,
            q * b == 1 as real,
    ;
    lemma_power_unique(f, g, hs);
}

/// The frequency of pair `j` in a head of `hs` is that of pair `2 * j` in a head
/// of twice the size.
pub proof fn lemma_frequency_doubled(f: real, j: nat, hs: nat)
    requires
        frequency_is(f, j, hs),
    ensures
        frequency_is(f, 2 * j, 2 * hs),
{
    lemma_power_add(f, hs, hs);
    lemma_power_add(10000 as real, 2 * j, 2 * j);
    let p = real_power(f, hs);
    let b = real_power(10000 as real, 2 * j);
    assert((p * p) * (b * b) == (p * b) * (p * b)) by (nonlinear_arith);
    assert(1 as real * 1 as real == 1 as real) by (nonlinear_arith);
    assert(hs + hs == 2 * hs && 2 * j + 2 * j == 2 * (2 * j));
}

/// The frequencies of a head fall in a geometric progression that starts from
/// one: each pair's frequency is the last one's times the first one's.
pub proof fn lemma_frequency_progression(f: real, first: real, j: nat, hs: nat)
    requires
        frequency_is(f, j, hs),
        frequency_is(first, 1, hs),
    ensures
        frequency_is(1 as real, 0, hs),
        frequency_is(f * first, j + 1, hs),
{
    lemma_power_of_one(hs);
    lemma_power_of_product(f, first, hs);
    lemma_power_add(10000 as real, 2 * j, 2);
    assert(2 * (j + 1) == 2 * j + 2);
    assert(f * first > 0 as real) by (nonlinear_arith)
        requires
            f > 0 as real,
            first > 0 as real,
    ;
    let (p, q) = (real_power(f, hs), real_power(first, hs));
    let (b, c) = (real_power(10000 as real, 2 * j), real_power(10000 as real, 2));
    assert((p * q) * (b * c) == (p * b) * (q * c)) by (nonlinear_arith);
    assert(1 as real * 1 as real == 1 as real) by (nonlinear_arith);
}

/// One to any power is one.
proof fn lemma_power_of_one(n: nat)
    ensures
        real_power(1 as real, n) == 1 as real,
    decreases n,
{
    if n > 0 {
        lemma_power_of_one((n - 1) as nat);
    }
}

/// The power of a product is the product of the powers.
proof fn lemma_power_of_product(x: real, y: real, n: nat)
    ensures
        real_power(x * y, n) == real_power(x, n) * real_power(y, n),
    decreases n,
{
    if n > 0 {
        lemma_power_of_product(x, y, (n - 1) as nat);
        let p = real_power(x, (n - 1) as nat);
        let q = real_power(y, (n - 1) as nat);
        assert((x * y) * (p * q) == (x * p) * (y * q)) by (nonlinear_arith);
    } else {
        assert(1 as real * 1 as real == 1 as real) by (nonlinear_arith);
    }
}

/// The angle of a pair is the position times the frequency of the pair.
pub proof fn lemma_angle<F: Scalar>(
    val: spec_fn(F) -> real,
    pos: usize,
    j: nat,
    hs: usize,
    theta: F,
)
    requires
        exact(val),
        exact_powers(val),
        0 < hs,
        2 * j < hs,
        angle_is(pos, j as int, hs, theta),
    ensures
        exists|f: real| #[trigger]
            frequency_is(f, j, hs as nat) && val(theta) == (pos as int as real) * f,
{
    let (base, q, exponent, freq, p) = choose|base: F, q: F, exponent: F, freq: F, p: F|
        #[trigger] ratio_is(10000, 1, base) && #[trigger] ratio_is((2 * j) as usize, hs, q)
            && #[trigger] negation_is(q, exponent) && #[trigger] power_is(base, exponent, freq)
            && #[trigger] ratio_is(pos, 1, p) && product_is(p, freq, theta);
    let (x, y, z) = (val(base), val(p), val(q));
    assert(x * (1 as int as real) == 10000 as int as real);
    assert(x * 1 as real == x && y * 1 as real == y) by (nonlinear_arith);
    assert(x == 10000 as real);
    assert(z * (hs as int as real) == (2 * j) as int as real);
    let h = hs as nat as int as real;
    assert((-z) * h == -(z * h)) by (nonlinear_arith);
    assert(val(exponent) * h == -((2 * j) as nat as int as real));
    assert(real_power(val(freq), hs as nat) * real_power(val(base), 2 * j) == 1 as real);
    assert(frequency_is(val(freq), j, hs as nat));
}

/// Pair `j` of a head of `hs` and pair `2 * j` of a head of twice the size turn
/// by the same angle at the same position.
pub proof fn lemma_angles_agree<F: Scalar>(
    val: spec_fn(F) -> real,
    pos: usize,
    j: nat,
    hs: usize,
    theta: F,
    twice: usize,
    phi: F,
)
    requires
        exact(val),
        exact_powers(val),
        0 < hs,
        2 * j < hs,
        twice == 2 * hs,
        angle_is(pos, j as int, hs, theta),
        angle_is(pos, 2 * j as int, twice, phi),
    ensures
        theta == phi,
{
    lemma_angle(val, pos, j, hs, theta);
    lemma_angle(val, pos, 2 * j, twice, phi);
    let f = choose|f: real| #[trigger]
        frequency_is(f, j, hs as nat) && val(theta) == (pos as int as real) * f;
    let g = choose|g: real| #[trigger]
        frequency_is(g, 2 * j, twice as nat) && val(phi) == (pos as int as real) * g;
    lemma_frequency_doubled(f, j, hs as nat);
    lemma_frequency_unique(f, g, 2 * j, twice as nat);
    assert(val(theta) == val(phi));
}

/// In exact arithmetic `(y1, y2)` is `(x1, x2)` turned by the angle
/// `pos * f`, where `f` is the frequency of pair `j` in a head of `hs`; turned
/// the other way where it is turned `back`.
pub open spec fn pair_turned<F: Scalar>(
    val: spec_fn(F) -> real,
    back: bool,
    pos: nat,
    j: nat,
    hs: nat,
    x1: F,
    x2: F,
    y1: F,
    y2: F,
) -> bool {
    exists|f: real, theta: F, s: F, c: F|
        #![trigger frequency_is(f, j, hs), call_ensures(F::sin, (theta,), s), cos_is(theta, c)]
        frequency_is(f, j, hs) && call_ensures(F::sin, (theta,), s) && cos_is(theta, c) && val(
            theta,
        ) == (pos as int as real) * f && if back {
            &&& val(y1) == val(x1) * val(c) + val(x2) * val(s)
            &&& val(y2) == val(x2) * val(c) - val(x1) * val(s)
        } else {
            &&& val(y1) == val(x1) * val(c) - val(x2) * val(s)
            &&& val(y2) == val(x1) * val(s) + val(x2) * val(c)
        }
}

/// One pair of one head.
proof fn lemma_pair_turned<F: Scalar>(
    val: spec_fn(F) -> real,
    back: bool,
    pos: usize,
    j: nat,
    hs: usize,
    sc: (F, F),
    x1: F,
    x2: F,
    y1: F,
    y2: F,
)
    requires
        exact(val),
        exact_powers(val),
        2 * j < hs,
        turn_is(pos, j as int, hs, sc),
        if back {
            rotated_back_is(x1, x2, sc, y1, y2)
        } else {
            rotated_is(x1, x2, sc, y1, y2)
        },
    ensures
        pair_turned(val, back, pos as nat, j, hs as nat, x1, x2, y1, y2),
{
    let theta = choose|theta: F|
        angle_is(pos, j as int, hs, theta) && #[trigger] call_ensures(F::sin, (theta,), sc.0)
            && call_ensures(F::cos, (theta,), sc.1);
    lemma_angle(val, pos, j, hs, theta);
    let f = choose|f: real| #[trigger]
        frequency_is(f, j, hs as nat) && val(theta) == (pos as int as real) * f;
    let (a, b) = (val(x1), val(sc.0));
    assert((-a) * b == -(a * b)) by (nonlinear_arith);
    assert(frequency_is(f, j, hs as nat) && call_ensures(F::sin, (theta,), sc.0) && cos_is(
        theta,
        sc.1,
    ));
}

/// What the rotary embedding does to a tensor of `n` rows: the token of row `k`
/// stands at position `k % t`, and of each of the `2 * nh` heads of queries and
/// keys every pair `(j, j + hs / 2)` is turned by the position times its
/// frequency; the `nh` heads of values stay.
pub proof fn lemma_rope_turns<F: Scalar>(
    val: spec_fn(F) -> real,
    back: bool,
    n: int,
    t: int,
    nh: int,
    hs: usize,
    x: Seq<F>,
    y: Seq<F>,
    k: int,
    m: int,
    j: nat,
)
    requires
        exact(val),
        exact_powers(val),
        0 <= k < n,
        0 < t <= usize::MAX,
        0 <= m < 3 * nh,
        hs % 2 == 0,
        2 * j < hs,
        x.len() == n * ((3 * nh) * hs),
        rope_is(back, n, t, nh, hs, x, y),
    ensures
        y.len() == x.len(),
        ({
            let at = k * ((3 * nh) * hs) + m * hs + j;
            let half = hs as int / 2;
            if m < 2 * nh {
                pair_turned(
                    val,
                    back,
                    (k % t) as nat,
                    j,
                    hs as nat,
                    x[at],
                    x[at + half],
                    y[at],
                    y[at + half],
                )
            } else {
                y[at] == x[at] && y[at + half] == x[at + half]
            }
        }),
{
    reveal(rope_is);
    let h = hs as int;
    let half = h / 2;
    let c3 = (3 * nh) * hs;
    lemma_nonneg(3 * nh, h);
    lemma_row_bounds(k, n, c3);
    lemma_row_bounds(m, 3 * nh, h);
    let pos = (k % t) as usize;
    let a = row(x, k, c3);
    let b = row(y, k, c3);
    assert(rope_row_is(back, pos, nh, hs, a, b));
    let turns = choose|turns: Seq<(F, F)>| #[trigger]
        turns_are(pos, hs, turns) && heads_turned_are(back, turns, nh, h, a, b);
    let u = row(a, m, h);
    let v = row(b, m, h);
    let at = k * c3 + m * hs + j;
    assert(u[j as int] == x[at] && u[j + half] == x[at + half]);
    assert(v[j as int] == y[at] && v[j + half] == y[at + half]);
    if m < 2 * nh {
        assert(head_turned_is(back, turns, u, v));
        let sc = turns[j as int];
        assert(turn_is(pos, j as int, hs, sc));
        lemma_pair_turned(
            val,
            back,
            pos,
            j,
            hs,
            sc,
            u[j as int],
            u[j + half],
            v[j as int],
            v[j + half],
        );
    } else {
        assert(v == u);
    }
}

} // verus!
