//! Complex numbers over a real scalar.
use vstd::prelude::*;
use vstd::std_specs::convert::FromSpecImpl;
use vstd::std_specs::ops::{AddSpecImpl, DivSpecImpl, MulSpecImpl, NegSpecImpl, SubSpecImpl};
use core::ops::{Add, Div, Mul, Neg, Sub};
use crate::scalar::{
    arithmetic, evaluates, minus, negated, operators, over, plus, times, value, whole, Elementary,
    Real,
};

verus! {

/// A complex number.
#[derive(Clone, Copy, Debug)]
pub struct Complex<R> {
    pub re: R,
    pub im: R,
}

impl<R: Real> AddSpecImpl for Complex<R> {
    open spec fn obeys_add_spec() -> bool {
        true
    }

    open spec fn add_req(self, rhs: Self) -> bool {
        arithmetic::<R>()
    }

    open spec fn add_spec(self, rhs: Self) -> Self {
        Complex { re: plus(self.re, rhs.re), im: plus(self.im, rhs.im) }
    }
}

impl<R: Real> Add for Complex<R> {
    type Output = Self;

    fn add(self, rhs: Self) -> (r: Self) {
        Complex { re: self.re + rhs.re, im: self.im + rhs.im }
    }
}

impl<R: Real> SubSpecImpl for Complex<R> {
    open spec fn obeys_sub_spec() -> bool {
        true
    }

    open spec fn sub_req(self, rhs: Self) -> bool {
        arithmetic::<R>()
    }

    open spec fn sub_spec(self, rhs: Self) -> Self {
        Complex { re: minus(self.re, rhs.re), im: minus(self.im, rhs.im) }
    }
}

impl<R: Real> Sub for Complex<R> {
    type Output = Self;

    fn sub(self, rhs: Self) -> (r: Self) {
        Complex { re: self.re - rhs.re, im: self.im - rhs.im }
    }
}

impl<R: Real> MulSpecImpl for Complex<R> {
    open spec fn obeys_mul_spec() -> bool {
        true
    }

    open spec fn mul_req(self, rhs: Self) -> bool {
        arithmetic::<R>()
    }

    open spec fn mul_spec(self, rhs: Self) -> Self {
        Complex {
            re: minus(times(self.re, rhs.re), times(self.im, rhs.im)),
            im: plus(times(self.re, rhs.im), times(self.im, rhs.re)),
        }
    }
}

impl<R: Real> Mul for Complex<R> {
    type Output = Self;

    fn mul(self, rhs: Self) -> (r: Self) {
        Complex {
            re: self.re * rhs.re - self.im * rhs.im,
            im: self.re * rhs.im + self.im * rhs.re,
        }
    }
}

impl<R: Real> DivSpecImpl for Complex<R> {
    open spec fn obeys_div_spec() -> bool {
        true
    }

    open spec fn div_req(self, rhs: Self) -> bool {
        arithmetic::<R>()
    }

    open spec fn div_spec(self, rhs: Self) -> Self {
        let d = power(rhs);
        Complex {
            re: over(plus(times(self.re, rhs.re), times(self.im, rhs.im)), d),
            im: over(minus(times(self.im, rhs.re), times(self.re, rhs.im)), d),
        }
    }
}

impl<R: Real> Div for Complex<R> {
    type Output = Self;

    fn div(self, rhs: Self) -> (r: Self) {
        let d = rhs.norm_sqr();
        Complex {
            re: (self.re * rhs.re + self.im * rhs.im) / d,
            im: (self.im * rhs.re - self.re * rhs.im) / d,
        }
    }
}

impl<R: Real> NegSpecImpl for Complex<R> {
    open spec fn obeys_neg_spec() -> bool {
        true
    }

    open spec fn neg_req(self) -> bool {
        arithmetic::<R>()
    }

    open spec fn neg_spec(self) -> Self {
        Complex { re: negated(self.re), im: negated(self.im) }
    }
}

impl<R: Real> Neg for Complex<R> {
    type Output = Self;

    fn neg(self) -> (r: Self) {
        Complex { re: self.re.neg(), im: self.im.neg() }
    }
}

impl<R: Real> FromSpecImpl<i32> for Complex<R> {
    open spec fn obeys_from_spec() -> bool {
        arithmetic::<R>()
    }

    open spec fn from_spec(n: i32) -> Self {
        Complex { re: whole(n as int), im: whole(0) }
    }
}

impl<R: Real> From<i32> for Complex<R> {
    fn from(n: i32) -> (r: Self) {
        Complex { re: R::from(n), im: R::from(0) }
    }
}

/// The squared modulus of `z`.
pub open spec fn power<R: Real>(z: Complex<R>) -> R {
    plus(times(z.re, z.re), times(z.im, z.im))
}

/// The conjugate of `z`.
pub open spec fn conjugate<R: Real>(z: Complex<R>) -> Complex<R> {
    Complex { re: z.re, im: negated(z.im) }
}

/// `z` times the real `t`.
pub open spec fn scaled<R: Real>(z: Complex<R>, t: R) -> Complex<R> {
    Complex { re: times(z.re, t), im: times(z.im, t) }
}

/// `z` divided by the real `t`.
pub open spec fn divided<R: Real>(z: Complex<R>, t: R) -> Complex<R> {
    Complex { re: over(z.re, t), im: over(z.im, t) }
}

/// The modulus of `z`.
pub open spec fn modulus<R: Real, M: Fn(Elementary<R>) -> R>(math: M, z: Complex<R>) -> R {
    value(math, Elementary::Hypot(z.re, z.im))
}

/// The angle of `z`.
pub open spec fn angle<R: Real, M: Fn(Elementary<R>) -> R>(math: M, z: Complex<R>) -> R {
    value(math, Elementary::Atan2(z.im, z.re))
}

/// The point at angle `phase` on the circle of radius `amplitude`.
pub open spec fn polar<R: Real, M: Fn(Elementary<R>) -> R>(
    math: M,
    amplitude: R,
    phase: R,
) -> Complex<R> {
    Complex {
        re: times(amplitude, value(math, Elementary::Cos(phase))),
        im: times(amplitude, value(math, Elementary::Sin(phase))),
    }
}

/// The point at angle `phase` on the unit circle.
pub open spec fn phasor<R: Real, M: Fn(Elementary<R>) -> R>(math: M, phase: R) -> Complex<R> {
    Complex {
        re: value(math, Elementary::Cos(phase)),
        im: value(math, Elementary::Sin(phase)),
    }
}

impl<R: Real> Complex<R> {
    /// The squared modulus.
    pub fn norm_sqr(self) -> (r: R)
        requires
            arithmetic::<R>(),
        ensures
            r == power(self),
    {
        self.re * self.re + self.im * self.im
    }

    /// The conjugate.
    pub fn conj(self) -> (r: Self)
        requires
            arithmetic::<R>(),
        ensures
            r == conjugate(self),
    {
        Complex { re: self.re, im: self.im.neg() }
    }

    /// The product with a real.
    pub fn scale(self, t: R) -> (r: Self)
        requires
            arithmetic::<R>(),
        ensures
            r == scaled(self, t),
    {
        Complex { re: self.re * t, im: self.im * t }
    }

    /// The quotient by a real.
    pub fn unscale(self, t: R) -> (r: Self)
        requires
            arithmetic::<R>(),
        ensures
            r == divided(self, t),
    {
        Complex { re: self.re / t, im: self.im / t }
    }

    /// The modulus.
    pub fn norm<M: Fn(Elementary<R>) -> R>(self, math: &M) -> (r: R)
        requires
            evaluates(*math),
        ensures
            r == modulus(*math, self),
    {
        math(Elementary::Hypot(self.re, self.im))
    }

    /// The angle.
    pub fn arg<M: Fn(Elementary<R>) -> R>(self, math: &M) -> (r: R)
        requires
            evaluates(*math),
        ensures
            r == angle(*math, self),
    {
        math(Elementary::Atan2(self.im, self.re))
    }

    /// The point at angle `phase` on the circle of radius `amplitude`.
    pub fn from_polar<M: Fn(Elementary<R>) -> R>(amplitude: R, phase: R, math: &M) -> (r: Self)
        requires
            arithmetic::<R>(),
            evaluates(*math),
        ensures
            r == polar(*math, amplitude, phase),
    {
        Complex {
            re: amplitude * math(Elementary::Cos(phase)),
            im: amplitude * math(Elementary::Sin(phase)),
        }
    }

    /// The point at angle `phase` on the unit circle.
    pub fn cis<M: Fn(Elementary<R>) -> R>(phase: R, math: &M) -> (r: Self)
        requires
            evaluates(*math),
        ensures
            r == phasor(*math, phase),
    {
        Complex { re: math(Elementary::Cos(phase)), im: math(Elementary::Sin(phase)) }
    }
}

/// The complex operators are total functions where the real ones are.
pub proof fn complex_operators<R: Real>()
    requires
        arithmetic::<R>(),
    ensures
        operators::<Complex<R>>(),
{
}

} // verus!
