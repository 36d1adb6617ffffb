//! Exact arithmetic: the laws of a field, stated of the operators of a scalar type, and what
//! follows from them for sums.
//!
//! Rounding breaks these laws, so they are never asked of the scalars that the numerical
//! code runs on. They say what that code computes where nothing is rounded.
use vstd::prelude::*;
use crate::complex::{conjugate, phasor, power, scaled, Complex};
use crate::scalar::{
    comparable, count, less, minus, negated, ordering, over, plus, times, total, unordered, value,
    whole, Elementary, Real, Scalar,
};

verus! {

/// The operators of `T` are those of a field.
#[verifier::opaque]
pub open spec fn field<T: Scalar>() -> bool {
    &&& forall|a: T, b: T| #[trigger] plus(a, b) == plus(b, a)
    &&& forall|a: T, b: T, c: T| #[trigger] plus(plus(a, b), c) == plus(a, plus(b, c))
    &&& forall|a: T| #[trigger] plus(a, whole(0)) == a
    &&& forall|a: T| plus(a, #[trigger] negated(a)) == whole::<T>(0)
    &&& forall|a: T, b: T| #[trigger] minus(a, b) == plus(a, negated(b))
    &&& forall|a: T, b: T| #[trigger] times(a, b) == times(b, a)
    &&& forall|a: T, b: T, c: T| #[trigger] times(times(a, b), c) == times(a, times(b, c))
    &&& forall|a: T| #[trigger] times(a, whole(1)) == a
    &&& forall|a: T, b: T, c: T| #[trigger] times(a, plus(b, c)) == plus(times(a, b), times(a, c))
    &&& forall|a: T, b: T| b != whole::<T>(0) ==> times(#[trigger] over(a, b), b) == a
    &&& whole::<T>(0) != whole::<T>(1)
}

// ---- single operations ------------------------------------------------------

/// Sums do not depend on the order of their terms.
pub proof fn plus_commutes<T: Scalar>(a: T, b: T)
    requires
        field::<T>(),
    ensures
        plus(a, b) == plus(b, a),
{
    reveal(field);
}

/// Sums do not depend on how their terms are grouped.
pub proof fn plus_regroups<T: Scalar>(a: T, b: T, c: T)
    requires
        field::<T>(),
    ensures
        plus(plus(a, b), c) == plus(a, plus(b, c)),
{
    reveal(field);
}

/// Nothing changes a sum.
pub proof fn plus_nothing<T: Scalar>(a: T)
    requires
        field::<T>(),
    ensures
        plus(a, whole(0)) == a,
        plus(whole(0), a) == a,
{
    reveal(field);
    assert(plus(whole(0), a) == plus(a, whole(0)));
}

/// A value and its opposite cancel.
pub proof fn opposites_cancel<T: Scalar>(a: T)
    requires
        field::<T>(),
    ensures
        plus(a, negated(a)) == whole::<T>(0),
        plus(negated(a), a) == whole::<T>(0),
        minus(a, a) == whole::<T>(0),
{
    reveal(field);
    assert(plus(negated(a), a) == plus(a, negated(a)));
}

/// To subtract is to add the opposite.
pub proof fn minus_adds_opposite<T: Scalar>(a: T, b: T)
    requires
        field::<T>(),
    ensures
        minus(a, b) == plus(a, negated(b)),
{
    reveal(field);
}

/// Products do not depend on the order of their factors.
pub proof fn times_commutes<T: Scalar>(a: T, b: T)
    requires
        field::<T>(),
    ensures
        times(a, b) == times(b, a),
{
    reveal(field);
}

/// Products do not depend on how their factors are grouped.
pub proof fn times_regroups<T: Scalar>(a: T, b: T, c: T)
    requires
        field::<T>(),
    ensures
        times(times(a, b), c) == times(a, times(b, c)),
{
    reveal(field);
}

/// One changes no product.
pub proof fn times_one<T: Scalar>(a: T)
    requires
        field::<T>(),
    ensures
        times(a, whole(1)) == a,
        times(whole(1), a) == a,
{
    reveal(field);
    assert(times(whole(1), a) == times(a, whole(1)));
}

/// A product with a sum is the sum of the products.
pub proof fn times_distributes<T: Scalar>(a: T, b: T, c: T)
    requires
        field::<T>(),
    ensures
        times(a, plus(b, c)) == plus(times(a, b), times(a, c)),
        times(plus(b, c), a) == plus(times(b, a), times(c, a)),
{
    reveal(field);
    assert(times(plus(b, c), a) == times(a, plus(b, c)));
    assert(times(b, a) == times(a, b));
    assert(times(c, a) == times(a, c));
}

/// A quotient times its divisor is the dividend.
pub proof fn over_undoes_times<T: Scalar>(a: T, b: T)
    requires
        field::<T>(),
        b != whole::<T>(0),
    ensures
        times(over(a, b), b) == a,
{
    reveal(field);
}

/// One is not nothing.
pub proof fn one_is_something<T: Scalar>()
    requires
        field::<T>(),
    ensures
        whole::<T>(0) != whole::<T>(1),
{
    reveal(field);
}

// ---- consequences -----------------------------------------------------------

/// Equal terms can be taken away from both sides.
pub proof fn plus_cancels<T: Scalar>(a: T, b: T, c: T)
    requires
        field::<T>(),
        plus(a, c) == plus(b, c),
    ensures
        a == b,
{
    plus_regroups(a, c, negated(c));
    plus_regroups(b, c, negated(c));
    opposites_cancel(c);
    plus_nothing(a);
    plus_nothing(b);
}

/// Nothing times anything is nothing.
pub proof fn times_nothing<T: Scalar>(a: T)
    requires
        field::<T>(),
    ensures
        times(a, whole(0)) == whole::<T>(0),
        times(whole(0), a) == whole::<T>(0),
{
    let z = times(a, whole(0));
    plus_nothing(whole::<T>(0));
    times_distributes(a, whole(0), whole(0));
    plus_nothing(z);
    plus_cancels(z, whole(0), z);
    times_commutes(a, whole(0));
}

/// The value whose sum with `a` is nothing is the opposite of `a`.
pub proof fn opposite_is_unique<T: Scalar>(a: T, b: T)
    requires
        field::<T>(),
        plus(a, b) == whole::<T>(0),
    ensures
        b == negated(a),
{
    opposites_cancel(a);
    plus_commutes(a, b);
    plus_commutes(a, negated(a));
    plus_cancels(b, negated(a), a);
}

/// The opposite of a product is the product with one opposite factor.
pub proof fn opposite_of_product<T: Scalar>(a: T, b: T)
    requires
        field::<T>(),
    ensures
        negated(times(a, b)) == times(negated(a), b),
        negated(times(a, b)) == times(a, negated(b)),
{
    times_distributes(b, a, negated(a));
    opposites_cancel(a);
    times_nothing(b);
    opposite_is_unique(times(a, b), times(negated(a), b));
    times_distributes(a, b, negated(b));
    opposites_cancel(b);
    times_nothing(a);
    opposite_is_unique(times(a, b), times(a, negated(b)));
}

/// The opposite of the opposite is the value itself.
pub proof fn opposite_twice<T: Scalar>(a: T)
    requires
        field::<T>(),
    ensures
        negated(negated(a)) == a,
{
    opposites_cancel(a);
    opposite_is_unique(negated(a), a);
}

/// The opposite of a sum is the sum of the opposites.
pub proof fn opposite_of_sum<T: Scalar>(a: T, b: T)
    requires
        field::<T>(),
    ensures
        negated(plus(a, b)) == plus(negated(a), negated(b)),
{
    plus_exchanges(a, b, negated(a), negated(b));
    opposites_cancel(a);
    opposites_cancel(b);
    plus_nothing(whole::<T>(0));
    opposite_is_unique(plus(a, b), plus(negated(a), negated(b)));
}

/// The opposite of nothing is nothing.
pub proof fn opposite_of_nothing<T: Scalar>()
    requires
        field::<T>(),
    ensures
        negated(whole::<T>(0)) == whole::<T>(0),
{
    plus_nothing(whole::<T>(0));
    opposite_is_unique(whole::<T>(0), whole::<T>(0));
}

/// The inner terms of two sums can be exchanged.
pub proof fn plus_exchanges<T: Scalar>(a: T, b: T, c: T, d: T)
    requires
        field::<T>(),
    ensures
        plus(plus(a, b), plus(c, d)) == plus(plus(a, c), plus(b, d)),
{
    plus_regroups(a, b, plus(c, d));
    plus_regroups(b, c, d);
    plus_commutes(b, c);
    plus_regroups(c, b, d);
    plus_regroups(a, c, plus(b, d));
}

/// Factors of two products can be exchanged.
pub proof fn times_exchanges<T: Scalar>(a: T, b: T, c: T, d: T)
    requires
        field::<T>(),
    ensures
        times(times(a, b), times(c, d)) == times(times(a, c), times(b, d)),
{
    times_regroups(a, b, times(c, d));
    times_regroups(b, c, d);
    times_commutes(b, c);
    times_regroups(c, b, d);
    times_regroups(a, c, times(b, d));
}

/// A product with a difference is the difference of the products.
pub proof fn times_distributes_minus<T: Scalar>(a: T, b: T, c: T)
    requires
        field::<T>(),
    ensures
        times(minus(b, c), a) == minus(times(b, a), times(c, a)),
{
    minus_adds_opposite(b, c);
    times_distributes(a, b, negated(c));
    opposite_of_product(c, a);
    minus_adds_opposite(times(b, a), times(c, a));
}

/// A product of two sums.
pub proof fn sums_multiply<T: Scalar>(p: T, q: T, r: T, s: T)
    requires
        field::<T>(),
    ensures
        times(plus(p, q), plus(r, s)) == plus(
            plus(times(p, r), times(p, s)),
            plus(times(q, r), times(q, s)),
        ),
{
    let t = plus(r, s);
    times_commutes(plus(p, q), t);
    times_distributes(t, p, q);
    times_commutes(t, p);
    times_commutes(t, q);
    times_distributes(p, r, s);
    times_distributes(q, r, s);
}

/// Quotients are decided by their product with the divisor.
pub proof fn quotient_is_unique<T: Scalar>(q: T, a: T, b: T)
    requires
        field::<T>(),
        b != whole::<T>(0),
        times(q, b) == a,
    ensures
        q == over(a, b),
{
    let r = over(whole(1), b);
    let p = over(a, b);
    over_undoes_times(whole::<T>(1), b);
    over_undoes_times(a, b);
    times_commutes(r, b);
    times_regroups(q, b, r);
    times_regroups(p, b, r);
    times_one(q);
    times_one(p);
}

/// A quotient of a product is the product with the quotient.
pub proof fn over_of_product<T: Scalar>(a: T, b: T, c: T)
    requires
        field::<T>(),
        c != whole::<T>(0),
    ensures
        over(times(a, b), c) == times(a, over(b, c)),
        over(times(a, b), c) == times(over(a, c), b),
{
    over_undoes_times(b, c);
    times_regroups(a, over(b, c), c);
    quotient_is_unique(times(a, over(b, c)), times(a, b), c);
    over_undoes_times(a, c);
    times_regroups(over(a, c), b, c);
    times_commutes(b, c);
    times_regroups(over(a, c), c, b);
    quotient_is_unique(times(over(a, c), b), times(a, b), c);
}

/// A value over itself is one.
pub proof fn over_itself<T: Scalar>(a: T)
    requires
        field::<T>(),
        a != whole::<T>(0),
    ensures
        over(a, a) == whole::<T>(1),
{
    times_one(a);
    quotient_is_unique(whole(1), a, a);
}

/// Nothing over anything is nothing.
pub proof fn nothing_over<T: Scalar>(a: T)
    requires
        field::<T>(),
        a != whole::<T>(0),
    ensures
        over(whole(0), a) == whole::<T>(0),
{
    times_nothing(a);
    quotient_is_unique(whole(0), whole(0), a);
}

// ---- sums -------------------------------------------------------------------

/// A factor of every term is a factor of the sum.
pub proof fn total_of_multiples<T: Scalar>(c: T, f: spec_fn(int) -> T, g: spec_fn(int) -> T, n: nat)
    requires
        field::<T>(),
        forall|k: int| 0 <= k < n ==> #[trigger] g(k) == times(c, f(k)),
    ensures
        total(whole(0), g, n) == times(c, total(whole(0), f, n)),
    decreases n,
{
    if n == 0 {
        times_nothing(c);
    } else {
        total_of_multiples(c, f, g, (n - 1) as nat);
        assert(g(n - 1) == times(c, f(n - 1)));
        times_distributes(c, total(whole(0), f, (n - 1) as nat), f(n - 1));
    }
}

/// The sum of sums is the sum of the totals.
pub proof fn total_of_sums<T: Scalar>(
    f: spec_fn(int) -> T,
    g: spec_fn(int) -> T,
    h: spec_fn(int) -> T,
    n: nat,
)
    requires
        field::<T>(),
        forall|k: int| 0 <= k < n ==> #[trigger] h(k) == plus(f(k), g(k)),
    ensures
        total(whole(0), h, n) == plus(total(whole(0), f, n), total(whole(0), g, n)),
    decreases n,
{
    if n == 0 {
        plus_nothing(whole::<T>(0));
    } else {
        let m = (n - 1) as nat;
        total_of_sums(f, g, h, m);
        assert(h(n - 1) == plus(f(n - 1), g(n - 1)));
        plus_exchanges(total(whole(0), f, m), total(whole(0), g, m), f(n - 1), g(n - 1));
    }
}

/// Terms that are all nothing add up to nothing.
pub proof fn total_of_nothing<T: Scalar>(f: spec_fn(int) -> T, n: nat)
    requires
        field::<T>(),
        forall|k: int| 0 <= k < n ==> #[trigger] f(k) == whole::<T>(0),
    ensures
        total(whole(0), f, n) == whole::<T>(0),
    decreases n,
{
    if n > 0 {
        total_of_nothing(f, (n - 1) as nat);
        assert(f(n - 1) == whole::<T>(0));
        plus_nothing(whole::<T>(0));
    }
}

/// A sum with one term other than nothing is that term.
pub proof fn total_of_one<T: Scalar>(f: spec_fn(int) -> T, i: int, n: nat)
    requires
        field::<T>(),
        0 <= i < n,
        forall|k: int| 0 <= k < n && k != i ==> #[trigger] f(k) == whole::<T>(0),
    ensures
        total(whole(0), f, n) == f(i),
    decreases n,
{
    if i == n - 1 {
        total_of_nothing(f, (n - 1) as nat);
        plus_nothing(f(i));
    } else {
        total_of_one(f, i, (n - 1) as nat);
        assert(f(n - 1) == whole::<T>(0));
        plus_nothing(f(i));
    }
}

// ---- complex numbers --------------------------------------------------------

/// Only nothing has no power: a sum of two squares is nothing where both are.
pub open spec fn powers_tell<R: Real>() -> bool {
    forall|z: Complex<R>| #[trigger] power(z) == whole::<R>(0) ==> z == whole::<Complex<R>>(0)
}

/// The sum of quotients is the quotient of the sum.
pub proof fn over_of_sum<T: Scalar>(a: T, b: T, c: T)
    requires
        field::<T>(),
        c != whole::<T>(0),
    ensures
        over(plus(a, b), c) == plus(over(a, c), over(b, c)),
        over(minus(a, b), c) == minus(over(a, c), over(b, c)),
{
    let (p, q) = (over(a, c), over(b, c));
    over_undoes_times(a, c);
    over_undoes_times(b, c);
    times_distributes(c, p, q);
    quotient_is_unique(plus(p, q), plus(a, b), c);
    times_distributes_minus(c, p, q);
    quotient_is_unique(minus(p, q), minus(a, b), c);
}

/// A term that is added and taken away again leaves the rest.
pub proof fn middle_cancels<T: Scalar>(x: T, t: T, y: T)
    requires
        field::<T>(),
    ensures
        plus(plus(x, t), plus(negated(t), y)) == plus(x, y),
        plus(plus(t, x), plus(y, negated(t))) == plus(x, y),
{
    plus_commutes(negated(t), y);
    plus_exchanges(x, t, y, negated(t));
    opposites_cancel(t);
    plus_nothing(plus(x, y));
    plus_commutes(t, x);
}

proof fn complex_products_regroup<R: Real>(a: Complex<R>, b: Complex<R>, c: Complex<R>)
    requires
        field::<R>(),
    ensures
        times(times(a, b), c) == times(a, times(b, c)),
{
    let (p, q) = (times(a.re, b.re), times(a.im, b.im));
    let (s, t) = (times(a.re, b.im), times(a.im, b.re));
    minus_adds_opposite(p, q);
    // The real part.
    let (w1, w2) = (times(p, c.re), times(q, c.re));
    let (w3, w4) = (times(s, c.im), times(t, c.im));
    times_distributes_minus(c.re, p, q);
    times_distributes(c.im, s, t);
    minus_adds_opposite(w1, w2);
    minus_adds_opposite(minus(w1, w2), plus(w3, w4));
    opposite_of_sum(w3, w4);
    times_regroups(a.re, b.re, c.re);
    times_regroups(a.im, b.im, c.re);
    times_regroups(a.re, b.im, c.im);
    times_regroups(a.im, b.re, c.im);
    let (x, y) = (times(b.re, c.re), times(b.im, c.im));
    let (u, v) = (times(b.re, c.im), times(b.im, c.re));
    minus_adds_opposite(x, y);
    times_distributes(a.re, x, negated(y));
    opposite_of_product(a.re, y);
    times_distributes(a.im, u, v);
    minus_adds_opposite(times(a.re, minus(x, y)), times(a.im, plus(u, v)));
    opposite_of_sum(w4, w2);
    plus_exchanges(w1, negated(w2), negated(w3), negated(w4));
    plus_commutes(negated(w2), negated(w4));
    assert(times(times(a, b), c).re == times(a, times(b, c)).re);
    // The imaginary part.
    let (u1, u2) = (times(p, c.im), times(q, c.im));
    let (u3, u4) = (times(s, c.re), times(t, c.re));
    times_distributes_minus(c.im, p, q);
    times_distributes(c.re, s, t);
    minus_adds_opposite(u1, u2);
    times_regroups(a.re, b.re, c.im);
    times_regroups(a.im, b.im, c.im);
    times_regroups(a.re, b.im, c.re);
    times_regroups(a.im, b.re, c.re);
    times_distributes(a.re, u, v);
    times_distributes(a.im, x, negated(y));
    opposite_of_product(a.im, y);
    plus_exchanges(u1, negated(u2), u3, u4);
    plus_commutes(negated(u2), u4);
    assert(times(times(a, b), c).im == times(a, times(b, c)).im);
}

proof fn complex_products_distribute<R: Real>(a: Complex<R>, b: Complex<R>, c: Complex<R>)
    requires
        field::<R>(),
    ensures
        times(a, plus(b, c)) == plus(times(a, b), times(a, c)),
{
    let (x, y) = (times(a.re, b.re), times(a.re, c.re));
    let (u, v) = (times(a.im, b.im), times(a.im, c.im));
    times_distributes(a.re, b.re, c.re);
    times_distributes(a.im, b.im, c.im);
    minus_adds_opposite(plus(x, y), plus(u, v));
    opposite_of_sum(u, v);
    plus_exchanges(x, y, negated(u), negated(v));
    minus_adds_opposite(x, u);
    minus_adds_opposite(y, v);
    times_distributes(a.re, b.im, c.im);
    times_distributes(a.im, b.re, c.re);
    plus_exchanges(
        times(a.re, b.im),
        times(a.re, c.im),
        times(a.im, b.re),
        times(a.im, c.re),
    );
}

proof fn complex_quotients<R: Real>(a: Complex<R>, b: Complex<R>)
    requires
        field::<R>(),
        powers_tell::<R>(),
        b != whole::<Complex<R>>(0),
    ensures
        times(over(a, b), b) == a,
{
    let d = power(b);
    let (rr, ii) = (times(b.re, b.re), times(b.im, b.im));
    let n = plus(times(a.re, b.re), times(a.im, b.im));
    let m = minus(times(a.im, b.re), times(a.re, b.im));
    times_one(a.re);
    times_one(a.im);
    over_itself(d);
    // The real part: n * b.re - m * b.im is a.re * d.
    let t = times(a.im, times(b.im, b.re));
    times_distributes(b.re, times(a.re, b.re), times(a.im, b.im));
    times_regroups(a.re, b.re, b.re);
    times_regroups(a.im, b.im, b.re);
    times_distributes_minus(b.im, times(a.im, b.re), times(a.re, b.im));
    times_regroups(a.im, b.re, b.im);
    times_commutes(b.re, b.im);
    times_regroups(a.re, b.im, b.im);
    let (x, y) = (times(a.re, rr), times(a.re, ii));
    minus_adds_opposite(t, y);
    minus_adds_opposite(times(n, b.re), times(m, b.im));
    opposite_of_sum(t, negated(y));
    opposite_twice(y);
    middle_cancels(x, t, y);
    times_distributes(a.re, rr, ii);
    over_of_product(n, b.re, d);
    over_of_product(m, b.im, d);
    over_of_sum(times(n, b.re), times(m, b.im), d);
    over_of_product(a.re, d, d);
    assert(times(over(a, b), b).re == a.re);
    // The imaginary part: n * b.im + m * b.re is a.im * d.
    let t = times(a.re, times(b.re, b.im));
    times_distributes(b.im, times(a.re, b.re), times(a.im, b.im));
    times_regroups(a.re, b.re, b.im);
    times_regroups(a.im, b.im, b.im);
    times_distributes_minus(b.re, times(a.im, b.re), times(a.re, b.im));
    times_regroups(a.im, b.re, b.re);
    times_regroups(a.re, b.im, b.re);
    let (x, y) = (times(a.im, ii), times(a.im, rr));
    minus_adds_opposite(y, t);
    middle_cancels(x, t, y);
    plus_commutes(x, y);
    times_distributes(a.im, rr, ii);
    over_of_product(n, b.im, d);
    over_of_product(m, b.re, d);
    over_of_sum(times(n, b.im), times(m, b.re), d);
    over_of_product(a.im, d, d);
    assert(times(over(a, b), b).im == a.im);
}

/// The complex numbers over a field in which sums of squares tell are a field.
pub proof fn complex_field<R: Real>()
    requires
        field::<R>(),
        powers_tell::<R>(),
    ensures
        field::<Complex<R>>(),
{
    one_is_something::<R>();
    assert forall|a: Complex<R>, b: Complex<R>| #[trigger] plus(a, b) == plus(b, a) by {
        plus_commutes(a.re, b.re);
        plus_commutes(a.im, b.im);
    }
    assert forall|a: Complex<R>, b: Complex<R>, c: Complex<R>| #[trigger]
        plus(plus(a, b), c) == plus(a, plus(b, c)) by {
        plus_regroups(a.re, b.re, c.re);
        plus_regroups(a.im, b.im, c.im);
    }
    assert forall|a: Complex<R>| #[trigger] plus(a, whole(0)) == a by {
        plus_nothing(a.re);
        plus_nothing(a.im);
    }
    assert forall|a: Complex<R>| plus(a, #[trigger] negated(a)) == whole::<Complex<R>>(0) by {
        opposites_cancel(a.re);
        opposites_cancel(a.im);
    }
    assert forall|a: Complex<R>, b: Complex<R>| #[trigger] minus(a, b) == plus(a, negated(b)) by {
        minus_adds_opposite(a.re, b.re);
        minus_adds_opposite(a.im, b.im);
    }
    assert forall|a: Complex<R>, b: Complex<R>| #[trigger] times(a, b) == times(b, a) by {
        times_commutes(a.re, b.re);
        times_commutes(a.im, b.im);
        times_commutes(a.re, b.im);
        times_commutes(a.im, b.re);
        plus_commutes(times(a.re, b.im), times(a.im, b.re));
    }
    assert forall|a: Complex<R>, b: Complex<R>, c: Complex<R>| #[trigger]
        times(times(a, b), c) == times(a, times(b, c)) by {
        complex_products_regroup(a, b, c);
    }
    assert forall|a: Complex<R>| #[trigger] times(a, whole(1)) == a by {
        times_one(a.re);
        times_one(a.im);
        times_nothing(a.re);
        times_nothing(a.im);
        minus_adds_opposite(a.re, whole(0));
        opposite_of_nothing::<R>();
        plus_nothing(a.re);
        plus_nothing(a.im);
    }
    assert forall|a: Complex<R>, b: Complex<R>, c: Complex<R>| #[trigger]
        times(a, plus(b, c)) == plus(times(a, b), times(a, c)) by {
        complex_products_distribute(a, b, c);
    }
    assert forall|a: Complex<R>, b: Complex<R>|
        b != whole::<Complex<R>>(0) implies times(#[trigger] over(a, b), b) == a by {
        complex_quotients(a, b);
    }
    reveal(field);
}

/// The real `t` as a complex number.
pub open spec fn on_axis<R: Real>(t: R) -> Complex<R> {
    Complex { re: t, im: whole(0) }
}

/// Scaling is multiplication by a real number.
pub proof fn scaling_is_product<R: Real>(z: Complex<R>, t: R)
    requires
        field::<R>(),
    ensures
        scaled(z, t) == times(on_axis(t), z),
        scaled(z, t) == times(z, on_axis(t)),
{
    times_nothing(z.re);
    times_nothing(z.im);
    times_commutes(z.re, t);
    times_commutes(z.im, t);
    opposite_of_nothing::<R>();
    minus_adds_opposite(times(t, z.re), whole(0));
    plus_nothing(times(t, z.re));
    plus_nothing(times(t, z.im));
}

/// Conjugation keeps sums.
pub proof fn conjugate_of_sum<R: Real>(a: Complex<R>, b: Complex<R>)
    requires
        field::<R>(),
    ensures
        conjugate(plus(a, b)) == plus(conjugate(a), conjugate(b)),
{
    opposite_of_sum(a.im, b.im);
}

/// Conjugation keeps products.
pub proof fn conjugate_of_product<R: Real>(a: Complex<R>, b: Complex<R>)
    requires
        field::<R>(),
    ensures
        conjugate(times(a, b)) == times(conjugate(a), conjugate(b)),
{
    opposite_of_product(a.im, negated(b.im));
    opposite_of_product(a.im, b.im);
    opposite_twice(times(a.im, b.im));
    opposite_of_sum(times(a.re, b.im), times(a.im, b.re));
    opposite_of_product(a.re, b.im);
    opposite_of_product(a.im, b.re);
}

/// Conjugation undoes itself.
pub proof fn conjugate_twice<R: Real>(a: Complex<R>)
    requires
        field::<R>(),
    ensures
        conjugate(conjugate(a)) == a,
{
    opposite_twice(a.im);
}

/// A real number is its own conjugate.
pub proof fn conjugate_of_real<R: Real>(t: R)
    requires
        field::<R>(),
    ensures
        conjugate(on_axis(t)) == on_axis(t),
{
    opposite_of_nothing::<R>();
}

/// Arithmetic on the real axis stays there.
pub proof fn arithmetic_on_axis<R: Real>(a: R, b: R)
    requires
        field::<R>(),
    ensures
        plus(on_axis(a), on_axis(b)) == on_axis(plus(a, b)),
        times(on_axis(a), on_axis(b)) == on_axis(times(a, b)),
        scaled(on_axis(a), b) == on_axis(times(a, b)),
        negated(on_axis(a)) == on_axis(negated(a)),
        conjugate(on_axis(a)) == on_axis(a),
{
    plus_nothing(whole::<R>(0));
    times_nothing(a);
    times_nothing(b);
    times_nothing(whole::<R>(0));
    opposite_of_nothing::<R>();
    minus_adds_opposite(times(a, b), whole(0));
    plus_nothing(times(a, b));
}

/// Two is one and one.
pub open spec fn two_is_one_and_one<R: Real>() -> bool {
    whole::<R>(2) == plus(whole::<R>(1), whole::<R>(1))
}

/// A complex number times its conjugate is its power.
pub proof fn power_is_product<R: Real>(z: Complex<R>)
    requires
        field::<R>(),
    ensures
        times(z, conjugate(z)) == on_axis(power(z)),
        power(conjugate(z)) == power(z),
{
    opposite_of_product(z.im, z.im);
    minus_adds_opposite(times(z.re, z.re), times(z.im, negated(z.im)));
    opposite_twice(times(z.im, z.im));
    opposite_of_product(z.re, z.im);
    times_commutes(z.im, z.re);
    opposites_cancel(times(z.re, z.im));
    opposite_of_product(z.im, negated(z.im));
}

/// The power of a product is the product of the powers.
pub proof fn power_of_product<R: Real>(a: Complex<R>, b: Complex<R>)
    requires
        field::<R>(),
        powers_tell::<R>(),
    ensures
        power(times(a, b)) == times(power(a), power(b)),
{
    complex_field::<R>();
    power_is_product(times(a, b));
    power_is_product(a);
    power_is_product(b);
    conjugate_of_product(a, b);
    times_exchanges(a, b, conjugate(a), conjugate(b));
    arithmetic_on_axis(power(a), power(b));
}

/// The opposite of a quotient is the quotient of the opposite.
pub proof fn negative_quotient<T: Scalar>(a: T, c: T)
    requires
        field::<T>(),
        c != whole::<T>(0),
    ensures
        over(negated(a), c) == negated(over(a, c)),
{
    over_undoes_times(a, c);
    opposite_of_product(over(a, c), c);
    quotient_is_unique(negated(over(a, c)), negated(a), c);
}

// ---- the unit circle --------------------------------------------------------

/// The cosine and the sine of `t` are the coordinates of a point on the unit circle.
pub open spec fn on_circle<R: Real, M: Fn(Elementary<R>) -> R>(math: M, t: R) -> bool {
    let (s, c) = (value(math, Elementary::Sin(t)), value(math, Elementary::Cos(t)));
    plus(times(c, c), times(s, s)) == whole::<R>(1)
}

/// A point on the unit circle has power one.
pub proof fn phasors_have_power_one<R: Real, M: Fn(Elementary<R>) -> R>(math: M, t: R)
    requires
        field::<R>(),
        on_circle(math, t),
    ensures
        power(phasor(math, t)) == whole::<R>(1),
        power(conjugate(phasor(math, t))) == whole::<R>(1),
{
    power_is_product(phasor(math, t));
}

/// Sine and the measure of angles are odd, and cosine is even.
pub open spec fn mirrored<R: Real, M: Fn(Elementary<R>) -> R>(math: M, t: R) -> bool {
    &&& value(math, Elementary::Sin(negated(t))) == negated(value(math, Elementary::Sin(t)))
    &&& value(math, Elementary::Cos(negated(t))) == value(math, Elementary::Cos(t))
    &&& value(math, Elementary::ToRadians(negated(t))) == negated(
        value(math, Elementary::ToRadians(t)),
    )
}

/// Cosine and sine of a sum of two angles.
pub open spec fn angles_add<R: Real, M: Fn(Elementary<R>) -> R>(math: M, a: R, b: R) -> bool {
    let (ca, sa) = (value(math, Elementary::Cos(a)), value(math, Elementary::Sin(a)));
    let (cb, sb) = (value(math, Elementary::Cos(b)), value(math, Elementary::Sin(b)));
    &&& value(math, Elementary::Cos(plus(a, b))) == minus(times(ca, cb), times(sa, sb))
    &&& value(math, Elementary::Sin(plus(a, b))) == plus(times(sa, cb), times(ca, sb))
}

/// The angle of nothing points along the axis.
pub open spec fn nothing_points_ahead<R: Real, M: Fn(Elementary<R>) -> R>(math: M) -> bool {
    &&& value(math, Elementary::Cos(whole(0))) == whole::<R>(1)
    &&& value(math, Elementary::Sin(whole(0))) == whole::<R>(0)
}

// ---- order ------------------------------------------------------------------

/// `a` is not above `b`.
pub open spec fn at_most<R: Real>(a: R, b: R) -> bool {
    !less(b, a)
}

/// The operators and comparisons of `R` are those of an ordered field.
#[verifier::opaque]
pub open spec fn ordered_field<R: Real>() -> bool {
    &&& field::<R>()
    &&& ordering::<R>()
    &&& forall|a: R, b: R| #[trigger] comparable(a, b)
    &&& forall|a: R| !#[trigger] unordered(a)
    &&& forall|a: R, b: R|
        #![trigger less(a, b), less(b, a)]
        !less(a, b) && !less(b, a) ==> a == b
    &&& forall|a: R, b: R, c: R| less(a, b) ==> #[trigger] less(plus(a, c), plus(b, c))
    &&& forall|a: R, b: R|
        less(whole(0), a) && less(whole(0), b) ==> less(whole(0), #[trigger] times(a, b))
}

/// An ordered field is a field, and its order is total.
pub proof fn order_is_total<R: Real>()
    requires
        ordered_field::<R>(),
    ensures
        field::<R>(),
        ordering::<R>(),
        forall|a: R, b: R| #[trigger] comparable(a, b),
        forall|a: R| !#[trigger] unordered(a),
{
    reveal(ordered_field);
}

/// Of two values one is at most the other, and both are only where they are equal.
pub proof fn order_decides<R: Real>(a: R, b: R)
    requires
        ordered_field::<R>(),
    ensures
        at_most(a, a),
        at_most(a, b) || at_most(b, a),
        at_most(a, b) && at_most(b, a) ==> a == b,
        less(a, b) <==> at_most(a, b) && a != b,
        less(a, b) ==> at_most(a, b),
{
    reveal(ordered_field);
    assert(less(a, a) ==> !less(a, a));
    assert(less(a, b) ==> !less(b, a));
    assert(!less(a, b) && !less(b, a) ==> a == b);
}

/// The order is transitive.
pub proof fn order_chains<R: Real>(a: R, b: R, c: R)
    requires
        ordered_field::<R>(),
    ensures
        at_most(a, b) && at_most(b, c) ==> at_most(a, c),
        less(a, b) && at_most(b, c) ==> less(a, c),
        at_most(a, b) && less(b, c) ==> less(a, c),
{
    reveal(ordered_field);
    order_decides(a, b);
    order_decides(b, c);
    order_decides(a, c);
    order_decides(b, a);
    order_decides(c, b);
    assert(comparable(a, b) && comparable(b, c) && comparable(a, c));
}

/// Adding the same to both sides keeps the order.
pub proof fn plus_keeps_order<R: Real>(a: R, b: R, c: R)
    requires
        ordered_field::<R>(),
    ensures
        at_most(a, b) <==> at_most(plus(a, c), plus(b, c)),
        less(a, b) <==> less(plus(a, c), plus(b, c)),
{
    reveal(ordered_field);
    order_decides(a, b);
    order_decides(b, a);
    order_decides(plus(a, c), plus(b, c));
    order_decides(plus(b, c), plus(a, c));
    assert(less(a, b) ==> less(plus(a, c), plus(b, c)));
    assert(less(b, a) ==> less(plus(b, c), plus(a, c)));
    order_is_total::<R>();
    if plus(a, c) == plus(b, c) {
        plus_cancels(a, b, c);
    }
}

/// Sums keep the order of their terms.
pub proof fn sums_keep_order<R: Real>(a: R, b: R, c: R, d: R)
    requires
        ordered_field::<R>(),
        at_most(a, b),
        at_most(c, d),
    ensures
        at_most(plus(a, c), plus(b, d)),
{
    order_is_total::<R>();
    plus_keeps_order(a, b, c);
    plus_keeps_order(c, d, b);
    plus_commutes(c, b);
    plus_commutes(d, b);
    order_chains(plus(a, c), plus(b, c), plus(b, d));
}

/// What is at most another leaves a difference of at least nothing.
pub proof fn differences_have_signs<R: Real>(a: R, b: R)
    requires
        ordered_field::<R>(),
    ensures
        at_most(a, b) <==> at_most(whole(0), minus(b, a)),
        less(a, b) <==> less(whole(0), minus(b, a)),
        at_most(a, b) <==> at_most(minus(a, b), whole(0)),
{
    order_is_total::<R>();
    plus_keeps_order(a, b, negated(a));
    opposites_cancel(a);
    minus_adds_opposite(b, a);
    plus_keeps_order(a, b, negated(b));
    opposites_cancel(b);
    minus_adds_opposite(a, b);
}

/// Products of what is at least nothing are at least nothing.
pub proof fn products_have_signs<R: Real>(a: R, b: R)
    requires
        ordered_field::<R>(),
        at_most(whole(0), a),
        at_most(whole(0), b),
    ensures
        at_most(whole(0), times(a, b)),
        less(whole(0), a) && less(whole(0), b) ==> less(whole(0), times(a, b)),
{
    reveal(ordered_field);
    order_is_total::<R>();
    order_decides(whole(0), a);
    order_decides(whole(0), b);
    order_decides(whole(0), times(a, b));
    times_nothing(a);
    times_nothing(b);
}

/// Quotients of what is above nothing are above nothing.
pub proof fn quotients_have_signs<R: Real>(a: R, b: R)
    requires
        ordered_field::<R>(),
        less(whole(0), a),
        less(whole(0), b),
    ensures
        less(whole(0), over(a, b)),
{
    order_is_total::<R>();
    order_decides(whole(0), b);
    order_decides(whole(0), a);
    let q = over(a, b);
    over_undoes_times(a, b);
    order_decides(q, whole(0));
    if at_most(q, whole(0)) {
        times_keeps_order(q, whole(0), b);
        times_commutes(whole(0), b);
        times_nothing(b);
        order_chains(a, whole(0), a);
    }
    order_decides(whole(0), q);
}

/// A factor that is at least nothing keeps the order.
pub proof fn times_keeps_order<R: Real>(a: R, b: R, c: R)
    requires
        ordered_field::<R>(),
        at_most(whole(0), c),
        at_most(a, b),
    ensures
        at_most(times(a, c), times(b, c)),
        less(a, b) && less(whole(0), c) ==> less(times(a, c), times(b, c)),
{
    order_is_total::<R>();
    differences_have_signs(a, b);
    products_have_signs(minus(b, a), c);
    times_distributes_minus(c, b, a);
    differences_have_signs(times(a, c), times(b, c));
}

/// Squares are at least nothing.
pub proof fn squares_are_positive<R: Real>(a: R)
    requires
        ordered_field::<R>(),
    ensures
        at_most(whole(0), times(a, a)),
        a != whole::<R>(0) ==> less(whole(0), times(a, a)),
{
    order_is_total::<R>();
    order_decides(whole(0), a);
    if at_most(whole(0), a) {
        products_have_signs(a, a);
    } else {
        differences_have_signs(a, whole(0));
        minus_adds_opposite(whole(0), a);
        plus_nothing(negated(a));
        order_decides(whole(0), negated(a));
        order_decides(a, whole(0));
        products_have_signs(negated(a), negated(a));
        opposite_of_product(a, negated(a));
        opposite_of_product(a, a);
        opposite_twice(times(a, a));
        order_decides(whole(0), times(a, a));
    }
}

/// One is above nothing.
pub proof fn one_is_positive<R: Real>()
    requires
        ordered_field::<R>(),
    ensures
        less(whole::<R>(0), whole(1)),
{
    order_is_total::<R>();
    one_is_something::<R>();
    squares_are_positive(whole::<R>(1));
    times_one(whole::<R>(1));
}

/// What has at most the square of `k`, where `k` is at least nothing, is at most `k`.
pub proof fn squares_tell<R: Real>(x: R, k: R)
    requires
        ordered_field::<R>(),
        at_most(whole(0), k),
        at_most(times(x, x), times(k, k)),
    ensures
        at_most(x, k),
{
    order_is_total::<R>();
    order_decides(x, k);
    order_decides(k, x);
    if less(k, x) {
        order_chains(whole(0), k, x);
        order_decides(whole(0), x);
        times_keeps_order(k, x, x);
        times_keeps_order(k, x, k);
        times_commutes(k, x);
        order_chains(times(k, k), times(k, x), times(x, x));
        order_decides(times(k, k), times(x, x));
    }
}

/// In an ordered field sums of squares tell.
pub proof fn ordered_powers_tell<R: Real>()
    requires
        ordered_field::<R>(),
    ensures
        powers_tell::<R>(),
{
    order_is_total::<R>();
    assert forall|z: Complex<R>| #[trigger] power(z) == whole::<R>(0) implies z == whole::<
        Complex<R>,
    >(0) by {
        let (a, b) = (times(z.re, z.re), times(z.im, z.im));
        squares_are_positive(z.re);
        squares_are_positive(z.im);
        plus_nothing(whole::<R>(0));
        plus_keeps_order(whole(0), a, b);
        plus_nothing(b);
        order_decides(b, whole(0));
        order_decides(whole(0), b);
        plus_nothing(a);
        order_decides(whole(0), a);
    }
}

/// Adding counts adds what they stand for.
pub open spec fn counts_add<R: Real>() -> bool {
    forall|i: int, j: int|
        0 <= i && 0 <= j ==> #[trigger] count::<R>(i + j) == plus(count::<R>(i), count::<R>(j))
}

/// The sum of two counts.
pub proof fn sum_of_counts<R: Real>(i: int, j: int)
    requires
        counts_add::<R>(),
        0 <= i,
        0 <= j,
    ensures
        count::<R>(i + j) == plus(count::<R>(i), count::<R>(j)),
{
}

/// Larger counts stand for larger values.
pub proof fn counts_keep_order<R: Real>(i: int, j: int)
    requires
        ordered_field::<R>(),
        counts_add::<R>(),
        0 <= i <= j,
    ensures
        at_most(count::<R>(i), count(j)),
        i < j ==> less(count::<R>(i), count(j)),
        at_most(whole(0), count::<R>(i)),
    decreases j,
{
    order_is_total::<R>();
    one_is_positive::<R>();
    assert(count::<R>(0) == whole::<R>(0));
    assert(count::<R>(1) == whole::<R>(1));
    order_decides(count::<R>(i), count(j));
    if i > 0 {
        counts_keep_order::<R>(0, i - 1);
        assert(count::<R>((i - 1) + 1) == plus(count::<R>(i - 1), count::<R>(1)));
        plus_keeps_order(whole(0), whole(1), count::<R>(i - 1));
        plus_nothing(count::<R>(i - 1));
        plus_commutes(whole(1), count::<R>(i - 1));
        order_decides(count::<R>(i - 1), count(i));
        order_chains(whole(0), count::<R>(i - 1), count(i));
    } else {
        order_decides(whole::<R>(0), whole(0));
    }
    if i < j {
        counts_keep_order::<R>(i, j - 1);
        assert(count::<R>((j - 1) + 1) == plus(count::<R>(j - 1), count::<R>(1)));
        plus_keeps_order(whole(0), whole(1), count::<R>(j - 1));
        plus_nothing(count::<R>(j - 1));
        plus_commutes(whole(1), count::<R>(j - 1));
        order_chains(count::<R>(i), count(j - 1), count(j));
        order_decides(count::<R>(i), count(j));
    }
}

// ---- counts -----------------------------------------------------------------

/// The whole numbers are made of ones, one by one.
pub open spec fn wholes_count<R: Real>() -> bool {
    forall|k: int|
        0 <= k < 0x7fff_ffff ==> #[trigger] whole::<R>(k + 1) == plus(whole::<R>(k), whole::<R>(1))
}

/// The sum of `n` ones.
pub open spec fn ones<R: Real>(n: nat) -> R
    decreases n,
{
    if n == 0 {
        whole(0)
    } else {
        plus(ones((n - 1) as nat), whole(1))
    }
}

/// Ones and ones are all the ones.
proof fn ones_add<R: Real>(a: nat, b: nat)
    requires
        field::<R>(),
    ensures
        ones::<R>(a + b) == plus(ones::<R>(a), ones::<R>(b)),
    decreases b,
{
    if b == 0 {
        plus_nothing(ones::<R>(a));
    } else {
        let c = (b - 1) as nat;
        ones_add::<R>(a, c);
        plus_regroups(ones::<R>(a), ones::<R>(c), whole(1));
        assert((a + b - 1) as nat == a + c);
    }
}

/// Ones times ones are as many ones as the product says.
proof fn ones_multiply<R: Real>(a: nat, b: nat)
    requires
        field::<R>(),
    ensures
        ones::<R>(a * b) == times(ones::<R>(a), ones::<R>(b)),
    decreases b,
{
    if b == 0 {
        times_nothing(ones::<R>(a));
        assert(a * b == 0) by (nonlinear_arith)
            requires
                b == 0,
        ;
    } else {
        let c = (b - 1) as nat;
        ones_multiply::<R>(a, c);
        times_distributes(ones::<R>(a), ones::<R>(c), whole(1));
        times_one(ones::<R>(a));
        assert(a * b == a * c + a) by (nonlinear_arith)
            requires
                c == b - 1,
        ;
        ones_add::<R>(a * c, a);
    }
}

/// Small whole numbers are as many ones.
proof fn wholes_are_ones<R: Real>(n: nat)
    requires
        wholes_count::<R>(),
        n <= 0x7fff_ffff,
    ensures
        whole::<R>(n as int) == ones::<R>(n),
    decreases n,
{
    if n > 0 {
        wholes_are_ones::<R>((n - 1) as nat);
        let k = n - 1;
        assert(whole::<R>(k + 1) == plus(whole::<R>(k), whole::<R>(1)));
    }
}

/// A count stands for as many ones, where nothing is rounded and the whole numbers of the
/// scalar type are made of ones.
pub proof fn counts_are_ones<R: Real>(n: nat)
    requires
        field::<R>(),
        wholes_count::<R>(),
    ensures
        count::<R>(n as int) == ones::<R>(n),
    decreases n,
{
    if n <= 0x7fff_ffff {
        wholes_are_ones::<R>(n);
    } else {
        let base: nat = 0x4000_0000;
        let (q, r) = (n / base, n % base);
        counts_are_ones::<R>(q);
        wholes_are_ones::<R>(base);
        wholes_are_ones::<R>(r);
        ones_multiply::<R>(q, base);
        ones_add::<R>(q * base, r);
        assert(q * base + r == n) by (nonlinear_arith)
            requires
                q == n / base,
                r == n % base,
                base == 0x4000_0000,
        ;
    }
}

/// Counts add up, where nothing is rounded and the whole numbers of the scalar type are made
/// of ones.
pub proof fn counts_add_up<R: Real>()
    requires
        field::<R>(),
        wholes_count::<R>(),
    ensures
        counts_add::<R>(),
{
    assert forall|i: int, j: int| 0 <= i && 0 <= j implies #[trigger] count::<R>(i + j) == plus(
        count::<R>(i),
        count::<R>(j),
    ) by {
        counts_are_ones::<R>(i as nat);
        counts_are_ones::<R>(j as nat);
        counts_are_ones::<R>((i + j) as nat);
        ones_add::<R>(i as nat, j as nat);
    }
}

} // verus!
