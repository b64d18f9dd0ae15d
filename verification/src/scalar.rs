//! The number type that the tensors are made of, and how a value is said to
//! come out of its operations.
//!
//! Every tensor operation is generic over [`Scalar`]. Nothing is assumed of the
//! arithmetic behind the trait (rounding, infinities and not-a-numbers are its
//! own affair): a statement such as `sum_is(a, b, r)` says that `r` is what
//! [`Scalar::plus`] gave back for `a` and `b`.

use rand::rngs::StdRng;
use vstd::prelude::*;

verus! {

/// A floating-point number type.
pub trait Scalar: Copy + Send + Sync {
    /// Zero.
    fn zero() -> Self;

    /// One.
    fn one() -> Self;

    /// Negative infinity.
    fn neg_infinity() -> Self;

    /// The ratio of a circle's circumference to its diameter.
    fn pi() -> Self;

    /// The quotient `num / den`, taken in double precision and then rounded to
    /// this type.
    fn from_ratio(num: usize, den: usize) -> Self;

    /// `self + other`.
    fn plus(self, other: Self) -> Self;

    /// `self - other`.
    fn minus(self, other: Self) -> Self;

    /// `self * other`.
    fn times(self, other: Self) -> Self;

    /// `self / other`.
    fn divide(self, other: Self) -> Self;

    /// `-self`.
    fn negate(self) -> Self;

    /// `e` raised to `self`.
    fn exp(self) -> Self;

    /// The natural logarithm.
    fn ln(self) -> Self;

    /// The square root.
    fn sqrt(self) -> Self;

    /// The sine.
    fn sin(self) -> Self;

    /// The cosine.
    fn cos(self) -> Self;

    /// The absolute value.
    fn abs(self) -> Self;

    /// `self` raised to a power of its own type.
    fn powf(self, exponent: Self) -> Self;

    /// `self` raised to an integer power.
    fn powi(self, exponent: i32) -> Self;

    /// The larger of the two.
    fn larger(self, other: Self) -> Self;

    /// Whether `self > other`.
    fn exceeds(self, other: Self) -> bool;

    /// Whether `self >= other`.
    fn at_least(self, other: Self) -> bool;

    /// The place of `self` in the total order of the type, as an integer.
    fn order_key(self) -> i64;
}

/// The single-precision type that parameters are held in.
pub trait Single: Scalar {
    /// The double-precision type.
    type Wide: Scalar;

    /// The same value in double precision.
    fn widen(self) -> Self::Wide;

    /// The 32 bits of the value.
    fn to_bits(self) -> u32;

    /// The value that has these 32 bits.
    fn from_bits(bits: u32) -> Self;

    /// A draw from the uniform distribution on `[0, 1)`.
    fn uniform(rng: &mut StdRng) -> Self;
}

/// `r` is a zero.
#[verifier::inline]
pub open spec fn is_zero<F: Scalar>(r: F) -> bool {
    call_ensures(F::zero, (), r)
}

/// `r` is a one.
#[verifier::inline]
pub open spec fn is_one<F: Scalar>(r: F) -> bool {
    call_ensures(F::one, (), r)
}

/// `r` is a negative infinity.
#[verifier::inline]
pub open spec fn is_neg_infinity<F: Scalar>(r: F) -> bool {
    call_ensures(F::neg_infinity, (), r)
}

/// `r` is `num / den`.
#[verifier::inline]
pub open spec fn ratio_is<F: Scalar>(num: usize, den: usize, r: F) -> bool {
    call_ensures(F::from_ratio, (num, den), r)
}

/// `r` is `a + b`.
#[verifier::inline]
pub open spec fn sum_is<F: Scalar>(a: F, b: F, r: F) -> bool {
    call_ensures(F::plus, (a, b), r)
}

/// `r` is `a - b`.
#[verifier::inline]
pub open spec fn difference_is<F: Scalar>(a: F, b: F, r: F) -> bool {
    call_ensures(F::minus, (a, b), r)
}

/// `r` is `a * b`.
#[verifier::inline]
pub open spec fn product_is<F: Scalar>(a: F, b: F, r: F) -> bool {
    call_ensures(F::times, (a, b), r)
}

/// `r` is `a / b`.
#[verifier::inline]
pub open spec fn quotient_is<F: Scalar>(a: F, b: F, r: F) -> bool {
    call_ensures(F::divide, (a, b), r)
}

/// `r` is `-a`.
#[verifier::inline]
pub open spec fn negation_is<F: Scalar>(a: F, r: F) -> bool {
    call_ensures(F::negate, (a,), r)
}

/// `r` is `pi`.
#[verifier::inline]
pub open spec fn is_pi<F: Scalar>(r: F) -> bool {
    call_ensures(F::pi, (), r)
}

/// `r` is the larger of `a` and `b`.
#[verifier::inline]
pub open spec fn larger_is<F: Scalar>(a: F, b: F, r: F) -> bool {
    call_ensures(F::larger, (a, b), r)
}

/// `r` is the cosine of `a`.
#[verifier::inline]
pub open spec fn cos_is<F: Scalar>(a: F, r: F) -> bool {
    call_ensures(F::cos, (a,), r)
}

/// `r` is the absolute value of `a`.
#[verifier::inline]
pub open spec fn abs_is<F: Scalar>(a: F, r: F) -> bool {
    call_ensures(F::abs, (a,), r)
}

/// `r` is `a` to the power `n`.
#[verifier::inline]
pub open spec fn integer_power_is<F: Scalar>(a: F, n: i32, r: F) -> bool {
    call_ensures(F::powi, (a, n), r)
}

/// `k` is the place of `a` in the total order.
#[verifier::inline]
pub open spec fn order_key_is<F: Scalar>(a: F, k: i64) -> bool {
    call_ensures(F::order_key, (a,), k)
}

/// `w` is `a` in double precision.
#[verifier::inline]
pub open spec fn widened_is<F: Single>(a: F, w: F::Wide) -> bool {
    call_ensures(F::widen, (a,), w)
}

/// The bits of `a` are `bits`.
#[verifier::inline]
pub open spec fn bits_are<F: Single>(a: F, bits: u32) -> bool {
    call_ensures(F::to_bits, (a,), bits)
}

/// `r` is the value with these bits.
#[verifier::inline]
pub open spec fn from_bits_is<F: Single>(bits: u32, r: F) -> bool {
    call_ensures(F::from_bits, (bits,), r)
}

/// `r` is the exponential of `a`.
#[verifier::inline]
pub open spec fn exp_is<F: Scalar>(a: F, r: F) -> bool {
    call_ensures(F::exp, (a,), r)
}

/// `r` is the natural logarithm of `a`.
#[verifier::inline]
pub open spec fn ln_is<F: Scalar>(a: F, r: F) -> bool {
    call_ensures(F::ln, (a,), r)
}

/// `r` is the square root of `a`.
#[verifier::inline]
pub open spec fn sqrt_is<F: Scalar>(a: F, r: F) -> bool {
    call_ensures(F::sqrt, (a,), r)
}

/// `r` is the answer to `a > b`.
#[verifier::inline]
pub open spec fn exceeds_is<F: Scalar>(a: F, b: F, r: bool) -> bool {
    call_ensures(F::exceeds, (a, b), r)
}

/// `r` is the answer to `a >= b`.
#[verifier::inline]
pub open spec fn at_least_is<F: Scalar>(a: F, b: F, r: bool) -> bool {
    call_ensures(F::at_least, (a, b), r)
}

/// `r` is `acc + x * y`.
pub open spec fn mul_add_is<F: Scalar>(acc: F, x: F, y: F, r: F) -> bool {
    exists|p: F| #[trigger] product_is(x, y, p) && sum_is(acc, p, r)
}

/// `r` is `x` where `x > m`, else `m`.
pub open spec fn running_max_is<F: Scalar>(m: F, x: F, r: F) -> bool {
    ||| exceeds_is(x, m, true) && r == x
    ||| exceeds_is(x, m, false) && r == m
}

/// `r` comes out of `init` by the steps `0, 1, .., n - 1` in this order, where
/// `step(i, a, b)` says that step `i` may lead from `a` to `b`.
pub open spec fn fold_is<A>(n: nat, init: A, step: spec_fn(nat, A, A) -> bool, r: A) -> bool
    decreases n,
{
    if n == 0 {
        r == init
    } else {
        exists|prev: A|
            fold_is((n - 1) as nat, init, step, prev) && #[trigger] step((n - 1) as nat, prev, r)
    }
}

/// One step more.
pub proof fn lemma_fold_push<A>(n: nat, init: A, step: spec_fn(nat, A, A) -> bool, prev: A, r: A)
    requires
        fold_is(n, init, step, prev),
        step(n, prev, r),
    ensures
        fold_is(n + 1, init, step, r),
{
    assert(step(((n + 1) - 1) as nat, prev, r));
}

/// The steps of a dot product: `acc + x[i] * y[i]`.
pub open spec fn dot_steps<F: Scalar>(x: Seq<F>, y: Seq<F>) -> spec_fn(nat, F, F) -> bool {
    |i: nat, acc: F, r: F| mul_add_is(acc, x[i as int], y[i as int], r)
}

/// `r` is `init + x[0] * y[0] + .. `, summed from the left.
pub open spec fn dot_from_is<F: Scalar>(init: F, x: Seq<F>, y: Seq<F>, r: F) -> bool {
    fold_is(x.len(), init, dot_steps(x, y), r)
}

/// The dot product of `x` and `y` on top of `init`.
pub fn dot_from<F: Scalar>(init: F, x: &[F], y: &[F]) -> (r: F)
    requires
        x.len() == y.len(),
    ensures
        dot_from_is(init, x@, y@, r),
{
    let mut acc = init;
    for i in 0..x.len()
        invariant
            x.len() == y.len(),
            fold_is(i as nat, init, dot_steps(x@, y@), acc),
    {
        let p = x[i].times(y[i]);
        let next = acc.plus(p);
        proof {
            lemma_fold_push(i as nat, init, dot_steps(x@, y@), acc, next);
        }
        acc = next;
    }
    acc
}

/// The steps of a sum: `acc + x[i]`.
pub open spec fn sum_steps<F: Scalar>(x: Seq<F>) -> spec_fn(nat, F, F) -> bool {
    |i: nat, acc: F, r: F| sum_is(acc, x[i as int], r)
}

/// `r` is the sum of `x` from the left, starting from zero.
pub open spec fn total_is<F: Scalar>(x: Seq<F>, r: F) -> bool {
    exists|z: F| #[trigger] is_zero(z) && fold_is(x.len(), z, sum_steps(x), r)
}

/// The sum of `x` from the left.
pub fn total<F: Scalar>(x: &[F]) -> (r: F)
    ensures
        total_is(x@, r),
{
    let zero = F::zero();
    let mut acc = zero;
    for i in 0..x.len()
        invariant
            fold_is(i as nat, zero, sum_steps(x@), acc),
    {
        let next = acc.plus(x[i]);
        proof {
            lemma_fold_push(i as nat, zero, sum_steps(x@), acc, next);
        }
        acc = next;
    }
    assert(is_zero(zero));
    acc
}

/// The steps of a maximum: the larger of what was seen and `x[i]`.
pub open spec fn larger_steps<F: Scalar>(x: Seq<F>) -> spec_fn(nat, F, F) -> bool {
    |i: nat, m: F, r: F| larger_is(m, x[i as int], r)
}

/// `r` is the largest value of `x`, from negative infinity on.
pub open spec fn largest_is<F: Scalar>(x: Seq<F>, r: F) -> bool {
    exists|bottom: F|
        #[trigger] is_neg_infinity(bottom) && fold_is(x.len(), bottom, larger_steps(x), r)
}

/// The largest value of `x`.
pub fn largest<F: Scalar>(x: &[F]) -> (r: F)
    ensures
        largest_is(x@, r),
{
    let bottom = F::neg_infinity();
    let mut m = bottom;
    for i in 0..x.len()
        invariant
            fold_is(i as nat, bottom, larger_steps(x@), m),
    {
        let next = m.larger(x[i]);
        proof {
            lemma_fold_push(i as nat, bottom, larger_steps(x@), m, next);
        }
        m = next;
    }
    assert(is_neg_infinity(bottom));
    m
}

} // verus!
