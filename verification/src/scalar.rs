//! Scalars: the operators the numerical code needs, the elementary functions it
//! calls, and what a caller promises of both.
use vstd::prelude::*;
use vstd::std_specs::cmp::{PartialEqIs, PartialEqSpec, PartialOrdIs, PartialOrdSpec};
use vstd::std_specs::convert::FromSpec;
use vstd::std_specs::ops::{AddSpec, DivSpec, MulSpec, NegSpec, SubSpec};
use core::ops::{Add, Div, Mul, Neg, Sub};

verus! {

/// A type with the four operators, negation and the small whole numbers.
pub trait Scalar:
    Copy + Send + Sync + Add<Output = Self> + Sub<Output = Self> + Mul<Output = Self> + Div<
    Output = Self,
> + Neg<Output = Self> + From<i32> {

}

impl<T> Scalar for T where
    T: Copy + Send + Sync + Add<Output = T> + Sub<Output = T> + Mul<Output = T> + Div<
        Output = T,
    > + Neg<Output = T> + From<i32>,
 {

}

/// A scalar that is also compared: the measurements (positions, angles, levels).
pub trait Real: Scalar + PartialOrd {

}

impl<T> Real for T where T: Scalar + PartialOrd {

}

/// `a + b`.
pub open spec fn plus<T: Scalar>(a: T, b: T) -> T {
    a.add_spec(b)
}

/// `a - b`.
pub open spec fn minus<T: Scalar>(a: T, b: T) -> T {
    a.sub_spec(b)
}

/// `a * b`.
pub open spec fn times<T: Scalar>(a: T, b: T) -> T {
    a.mul_spec(b)
}

/// `a / b`.
pub open spec fn over<T: Scalar>(a: T, b: T) -> T {
    a.div_spec(b)
}

/// `-a`.
pub open spec fn negated<T: Scalar>(a: T) -> T {
    a.neg_spec()
}

/// The scalar that stands for the whole number `n`.
pub open spec fn whole<T: Scalar>(n: int) -> T {
    T::from_spec(n as i32)
}

/// `n / d`.
pub open spec fn ratio<T: Scalar>(n: int, d: int) -> T {
    over(whole(n), whole(d))
}

/// `a < b`.
pub open spec fn less<R: Real>(a: R, b: R) -> bool {
    a.is_lt(&b)
}

/// `a == b`, as the scalar type compares.
pub open spec fn equals<R: Real>(a: R, b: R) -> bool {
    a.is_eq(&b)
}

/// `a` compares with nothing, not even with itself.
pub open spec fn unordered<R: Real>(a: R) -> bool {
    !a.is_le(&a)
}

/// `a` and `b` stand in some order to each other.
pub open spec fn comparable<R: Real>(a: R, b: R) -> bool {
    a.partial_cmp_spec(&b) is Some
}

/// The larger of two scalars; one that compares with nothing gives way.
pub open spec fn larger<R: Real>(a: R, b: R) -> R {
    if less(a, b) || unordered(a) {
        b
    } else {
        a
    }
}

/// The smaller of two scalars; one that compares with nothing gives way.
pub open spec fn smaller<R: Real>(a: R, b: R) -> R {
    if less(b, a) || unordered(a) {
        b
    } else {
        a
    }
}

/// `a`, moved to the nearer end of `low..=high` where it lies outside.
pub open spec fn clamped<R: Real>(a: R, low: R, high: R) -> R {
    if less(a, low) {
        low
    } else if less(high, a) {
        high
    } else {
        a
    }
}

/// The scalar that stands for the count `n`, put together from digits of 30 bits
/// once `n` no longer fits an `i32`.
pub open spec fn count<T: Scalar>(n: int) -> T
    decreases n,
{
    if n <= 0x7fff_ffff {
        whole(n)
    } else {
        plus(times(count(n / 0x4000_0000), whole(0x4000_0000)), whole(n % 0x4000_0000))
    }
}

/// `zero + term(0) + .. + term(n - 1)`, added from the left.
pub open spec fn total<T: Scalar>(zero: T, term: spec_fn(int) -> T, n: nat) -> T
    decreases n,
{
    if n == 0 {
        zero
    } else {
        plus(total(zero, term, (n - 1) as nat), term(n - 1))
    }
}

/// Equal terms add up to the same total.
pub proof fn equal_terms<T: Scalar>(
    zero: T,
    f: spec_fn(int) -> T,
    g: spec_fn(int) -> T,
    n: nat,
)
    requires
        forall|k: int| 0 <= k < n ==> #[trigger] f(k) == g(k),
    ensures
        total(zero, f, n) == total(zero, g, n),
    decreases n,
{
    if n > 0 {
        equal_terms(zero, f, g, (n - 1) as nat);
        assert(f(n - 1) == g(n - 1));
    }
}

/// Whole numbers turn into scalars by a function.
pub open spec fn wholes_obey<T: Scalar>() -> bool {
    <T as FromSpec<i32>>::obeys_from_spec()
}

/// The operators of `T` are total functions of their operands.
pub open spec fn operators<T: Scalar>() -> bool {
    &&& T::obeys_add_spec()
    &&& T::obeys_sub_spec()
    &&& T::obeys_mul_spec()
    &&& T::obeys_div_spec()
    &&& T::obeys_neg_spec()
    &&& wholes_obey::<T>()
    &&& forall|a: T, b: T| #[trigger] a.add_req(b)
    &&& forall|a: T, b: T| #[trigger] a.sub_req(b)
    &&& forall|a: T, b: T| #[trigger] a.mul_req(b)
    &&& forall|a: T, b: T| #[trigger] a.div_req(b)
    &&& forall|a: T| #[trigger] a.neg_req()
}

/// The comparisons of `R` are functions of their operands.
pub open spec fn comparisons<R: Real>() -> bool {
    &&& R::obeys_partial_cmp_spec()
    &&& R::obeys_eq_spec()
}

/// The operators and the comparisons of `R` are total functions of their operands.
pub open spec fn arithmetic<R: Real>() -> bool {
    &&& operators::<R>()
    &&& comparisons::<R>()
}

/// The comparisons of `R` order whatever they compare.
pub open spec fn ordering<R: Real>() -> bool {
    &&& forall|a: R, b: R| #[trigger] less(a, b) ==> comparable(a, b) && !less(b, a)
    &&& forall|a: R, b: R| #[trigger] comparable(a, b) ==> comparable(b, a)
    &&& forall|a: R, b: R, c: R|
        #![trigger less(b, a), less(c, b)]
        comparable(a, b) && comparable(b, c) && comparable(a, c) && !less(b, a) && !less(c, b)
            ==> !less(c, a)
}

/// An elementary function applied to its operands.
#[derive(Clone, Copy, Debug)]
pub enum Elementary<R> {
    /// The circle constant.
    Pi,
    Sin(R),
    Cos(R),
    Asin(R),
    /// The angle of the point with this ordinate and this abscissa.
    Atan2(R, R),
    Acosh(R),
    Sqrt(R),
    /// The length of the hypotenuse over these two legs.
    Hypot(R, R),
    Exp(R),
    Log10(R),
    /// The first operand raised to the second.
    Pow(R, R),
    Abs(R),
    /// The nearest whole number.
    Round(R),
    ToRadians(R),
    ToDegrees(R),
}

/// What `f` answers to `a`.
pub open spec fn answer<A, B, F: Fn(A) -> B>(f: F, a: A) -> B {
    choose|b: B| call_ensures(f, (a,), b)
}

/// `f` answers everything, and always with the same value.
pub open spec fn answers<A, B, F: Fn(A) -> B>(f: F) -> bool {
    &&& forall|a: A| #[trigger] call_requires(f, (a,))
    &&& forall|a: A, b: B| #[trigger] call_ensures(f, (a,), b) ==> b == answer(f, a)
}

/// The value that `math` gives an elementary function.
pub open spec fn value<R, M: Fn(Elementary<R>) -> R>(math: M, e: Elementary<R>) -> R {
    answer(math, e)
}

/// `math` gives every elementary function a value.
pub open spec fn evaluates<R, M: Fn(Elementary<R>) -> R>(math: M) -> bool {
    answers::<Elementary<R>, R, M>(math)
}

/// The scalar `n / d`.
pub fn fraction<T: Scalar>(n: i32, d: i32) -> (r: T)
    requires
        operators::<T>(),
    ensures
        r == ratio::<T>(n as int, d as int),
{
    T::from(n) / T::from(d)
}

/// The scalar that stands for the count `n`.
pub fn counted<T: Scalar>(n: u64) -> (r: T)
    requires
        operators::<T>(),
    ensures
        r == count::<T>(n as int),
    decreases n,
{
    if n <= 0x7fff_ffff {
        T::from(n as i32)
    } else {
        counted::<T>(n / 0x4000_0000) * T::from(0x4000_0000) + T::from((n % 0x4000_0000) as i32)
    }
}

/// Whether `a` and `b` stand in some order to each other.
pub fn in_order<R: Real>(a: R, b: R) -> (r: bool)
    requires
        arithmetic::<R>(),
    ensures
        r == comparable(a, b),
{
    a.partial_cmp(&b).is_some()
}

/// The larger of two scalars; one that compares with nothing gives way.
pub fn max_of<R: Real>(a: R, b: R) -> (r: R)
    requires
        arithmetic::<R>(),
    ensures
        r == larger(a, b),
{
    if a < b || !(a <= a) {
        b
    } else {
        a
    }
}

/// The smaller of two scalars; one that compares with nothing gives way.
pub fn min_of<R: Real>(a: R, b: R) -> (r: R)
    requires
        arithmetic::<R>(),
    ensures
        r == smaller(a, b),
{
    if b < a || !(a <= a) {
        b
    } else {
        a
    }
}

/// `a`, moved to the nearer end of `low..=high` where it lies outside.
pub fn clamp_to<R: Real>(a: R, low: R, high: R) -> (r: R)
    requires
        arithmetic::<R>(),
    ensures
        r == clamped(a, low, high),
{
    if a < low {
        low
    } else if high < a {
        high
    } else {
        a
    }
}

} // verus!
