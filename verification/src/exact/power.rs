//! Powers and roots where the arithmetic is exact.

use vstd::prelude::*;

use crate::ops::rope::power_is;
use crate::scalar::{integer_power_is, sqrt_is, Scalar};

verus! {

/// `x` multiplied by itself `n` times.
pub open spec fn real_power(x: real, n: nat) -> real
    decreases n,
{
    if n == 0 {
        1 as real
    } else {
        x * real_power(x, (n - 1) as nat)
    }
}

/// A power with a negative rational exponent `-k / m` of a positive number is
/// the positive number whose `m`-th power is the reciprocal of the `k`-th power
/// of the base.
pub open spec fn exact_powers<F: Scalar>(val: spec_fn(F) -> real) -> bool {
    forall|a: F, b: F, r: F, m: nat, k: nat|
        #![trigger power_is(a, b, r), real_power(val(r), m), real_power(val(a), k)]
        power_is(a, b, r) && val(a) > 0 as real && m > 0 && val(b) * (m as int as real) == -(
        k as int as real) ==> val(r) > 0 as real && real_power(val(r), m) * real_power(val(a), k)
            == 1 as real
}

/// A power with a natural exponent is a repeated product.
pub open spec fn exact_integer_powers<F: Scalar>(val: spec_fn(F) -> real) -> bool {
    forall|a: F, n: i32, r: F| #[trigger]
        integer_power_is(a, n, r) && n >= 0 ==> val(r) == real_power(val(a), n as nat)
}

/// The root of a number that is not negative is the number, not negative itself,
/// whose square it is.
pub open spec fn exact_roots<F: Scalar>(val: spec_fn(F) -> real) -> bool {
    forall|a: F, r: F| #[trigger]
        sqrt_is(a, r) && val(a) >= 0 as real ==> val(r) >= 0 as real && val(r) * val(r) == val(a)
}

/// Powers of a positive number are positive.
pub proof fn lemma_power_positive(x: real, n: nat)
    requires
        x > 0 as real,
    ensures
        real_power(x, n) > 0 as real,
    decreases n,
{
    if n > 0 {
        lemma_power_positive(x, (n - 1) as nat);
        let p = real_power(x, (n - 1) as nat);
        assert(x * p > 0 as real) by (nonlinear_arith)
            requires
                x > 0 as real,
                p > 0 as real,
        ;
    }
}

/// Exponents add up.
pub proof fn lemma_power_add(x: real, a: nat, b: nat)
    ensures
        real_power(x, a + b) == real_power(x, a) * real_power(x, b),
    decreases a,
{
    let q = real_power(x, b);
    if a == 0 {
        assert(1 as real * q == q) by (nonlinear_arith);
    } else {
        lemma_power_add(x, (a - 1) as nat, b);
        let p = real_power(x, (a - 1) as nat);
        assert(x * (p * q) == (x * p) * q) by (nonlinear_arith);
    }
}

/// The larger number has the larger powers.
pub proof fn lemma_power_grows(x: real, y: real, n: nat)
    requires
        0 as real <= x < y,
        0 < n,
    ensures
        0 as real <= real_power(x, n) < real_power(y, n),
    decreases n,
{
    let p = real_power(x, (n - 1) as nat);
    let q = real_power(y, (n - 1) as nat);
    if n > 1 {
        lemma_power_grows(x, y, (n - 1) as nat);
    }
    lemma_power_positive(y, (n - 1) as nat);
    assert(0 as real <= x * p < y * q) by (nonlinear_arith)
        requires
            0 as real <= x < y,
            0 as real <= p <= q,
            q > 0 as real,
    ;
}

/// A positive number is determined by each of its powers.
pub proof fn lemma_power_unique(x: real, y: real, n: nat)
    requires
        x >= 0 as real,
        y >= 0 as real,
        0 < n,
        real_power(x, n) == real_power(y, n),
    ensures
        x == y,
{
    if x < y {
        lemma_power_grows(x, y, n);
    } else if y < x {
        lemma_power_grows(y, x, n);
    }
}

/// Powers of a number below one stay below one.
pub proof fn lemma_power_below_one(x: real, n: nat)
    requires
        0 as real <= x < 1 as real,
        0 < n,
    ensures
        0 as real <= real_power(x, n) < 1 as real,
    decreases n,
{
    let p = real_power(x, (n - 1) as nat);
    if n > 1 {
        lemma_power_below_one(x, (n - 1) as nat);
    }
    assert(0 as real <= x * p < 1 as real) by (nonlinear_arith)
        requires
            0 as real <= x < 1 as real,
            0 as real <= p <= 1 as real,
    ;
}

} // verus!
