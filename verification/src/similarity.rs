//! What Jacobi rotations keep where nothing is rounded: the columns of the accumulated
//! rotations stay orthonormal, and the matrix takes them to their products with what the
//! rotations have made of it.
use vstd::prelude::*;
use crate::complex::{conjugate, modulus, power, scaled, Complex};
use crate::eigen::{
    arranged, best_above, best_in_row, columns_arranged, cross_part, diagonalized,
    eigenvalues_descend, rotated, rotation, spectrum, tolerance, turned, turned_p, turned_q, Pivot,
    Rotation,
};
use crate::exact::{
    arithmetic_on_axis, complex_field, conjugate_of_product, conjugate_of_real, conjugate_of_sum,
    conjugate_twice, field, minus_adds_opposite, on_axis, on_circle, opposite_of_nothing,
    opposite_of_product, opposite_of_sum, opposite_twice, opposites_cancel, over_itself,
    over_of_product, over_undoes_times, plus_commutes, plus_exchanges, plus_nothing, powers_tell,
    quotient_is_unique, scaling_is_product, times_commutes, times_distributes,
    times_distributes_minus, times_exchanges, times_nothing, times_one, times_regroups,
    total_of_multiples, total_of_nothing, total_of_one, total_of_sums, two_is_one_and_one,
};
use crate::levels::faintest;
use crate::linalg::{column, identity, image, image_terms, inner_terms};
use crate::ranking::{rankable, ranking, ranking_is_of_indices};
use crate::scalar::{
    comparable, equal_terms, larger, less, minus, negated, ordering, over, plus, ratio, times,
    total, unordered, value, whole, Elementary, Real, Scalar,
};

verus! {

// ---- inner products ---------------------------------------------------------

/// The inner product of `a` and `b`.
pub open spec fn inner<R: Real>(
    a: spec_fn(int) -> Complex<R>,
    b: spec_fn(int) -> Complex<R>,
    n: nat,
) -> Complex<R> {
    total(whole(0), inner_terms(a, b), n)
}

/// `x` is the sum of `u` and `w`, taken `a` times and `b` times.
pub open spec fn combines<T: Scalar>(
    x: spec_fn(int) -> T,
    a: T,
    u: spec_fn(int) -> T,
    b: T,
    w: spec_fn(int) -> T,
    n: nat,
) -> bool {
    forall|k: int| 0 <= k < n ==> #[trigger] x(k) == plus(times(a, u(k)), times(b, w(k)))
}

/// The image of a combination is the combination of the images.
pub proof fn image_of_combination<T: Scalar>(
    m: spec_fn(int, int) -> T,
    x: spec_fn(int) -> T,
    a: T,
    u: spec_fn(int) -> T,
    b: T,
    w: spec_fn(int) -> T,
    n: nat,
    i: int,
)
    requires
        field::<T>(),
        combines(x, a, u, b, w, n),
    ensures
        image(m, x, n)(i) == plus(times(a, image(m, u, n)(i)), times(b, image(m, w, n)(i))),
{
    let fu = image_terms(m, u, i);
    let fw = image_terms(m, w, i);
    let fx = image_terms(m, x, i);
    let gu = |k: int| times(a, fu(k));
    let gw = |k: int| times(b, fw(k));
    assert forall|k: int| 0 <= k < n implies #[trigger] fx(k) == plus(gu(k), gw(k)) by {
        assert(x(k) == plus(times(a, u(k)), times(b, w(k))));
        times_distributes(m(i, k), times(a, u(k)), times(b, w(k)));
        moves_out(m(i, k), a, u(k));
        moves_out(m(i, k), b, w(k));
    }
    total_of_sums(gu, gw, fx, n);
    total_of_multiples(a, fu, gu, n);
    total_of_multiples(b, fw, gw, n);
}

/// The outer factor of an inner product can be moved out.
proof fn moves_out<T: Scalar>(m: T, a: T, u: T)
    requires
        field::<T>(),
    ensures
        times(m, times(a, u)) == times(a, times(m, u)),
{
    times_regroups(m, a, u);
    times_commutes(m, a);
    times_regroups(a, m, u);
}

/// The inner product is linear in its second operand.
pub proof fn inner_with_combination<R: Real>(
    z: spec_fn(int) -> Complex<R>,
    x: spec_fn(int) -> Complex<R>,
    a: Complex<R>,
    u: spec_fn(int) -> Complex<R>,
    b: Complex<R>,
    w: spec_fn(int) -> Complex<R>,
    n: nat,
)
    requires
        field::<R>(),
        powers_tell::<R>(),
        combines(x, a, u, b, w, n),
    ensures
        inner(z, x, n) == plus(times(a, inner(z, u, n)), times(b, inner(z, w, n))),
{
    complex_field::<R>();
    let m = |i: int, k: int| conjugate(z(k));
    image_of_combination(m, x, a, u, b, w, n, 0);
    assert(image_terms(m, x, 0) =~= inner_terms(z, x));
    assert(image_terms(m, u, 0) =~= inner_terms(z, u));
    assert(image_terms(m, w, 0) =~= inner_terms(z, w));
}

/// The inner product turns into its conjugate where its operands change places.
pub proof fn inner_is_hermitian<R: Real>(
    x: spec_fn(int) -> Complex<R>,
    z: spec_fn(int) -> Complex<R>,
    n: nat,
)
    requires
        field::<R>(),
        powers_tell::<R>(),
    ensures
        inner(x, z, n) == conjugate(inner(z, x, n)),
    decreases n,
{
    complex_field::<R>();
    if n == 0 {
        opposite_of_nothing::<R>();
    } else {
        let k = n - 1;
        inner_is_hermitian(x, z, k as nat);
        conjugate_of_sum(inner(z, x, k as nat), times(conjugate(z(k)), x(k)));
        conjugate_of_product(conjugate(z(k)), x(k));
        conjugate_twice(z(k));
        times_commutes(z(k), conjugate(x(k)));
    }
}

/// The inner product is conjugate-linear in its first operand.
pub proof fn inner_of_combination<R: Real>(
    z: spec_fn(int) -> Complex<R>,
    x: spec_fn(int) -> Complex<R>,
    a: Complex<R>,
    u: spec_fn(int) -> Complex<R>,
    b: Complex<R>,
    w: spec_fn(int) -> Complex<R>,
    n: nat,
)
    requires
        field::<R>(),
        powers_tell::<R>(),
        combines(x, a, u, b, w, n),
    ensures
        inner(x, z, n) == plus(
            times(conjugate(a), inner(u, z, n)),
            times(conjugate(b), inner(w, z, n)),
        ),
{
    inner_with_combination(z, x, a, u, b, w, n);
    inner_is_hermitian(x, z, n);
    inner_is_hermitian(u, z, n);
    inner_is_hermitian(w, z, n);
    conjugate_of_sum(times(a, inner(z, u, n)), times(b, inner(z, w, n)));
    conjugate_of_product(a, inner(z, u, n));
    conjugate_of_product(b, inner(z, w, n));
}

// ---- orthonormal columns ----------------------------------------------------

/// The first `n` columns of `v`, cut off after `n` rows, are orthonormal.
pub open spec fn orthonormal<R: Real>(v: spec_fn(int, int) -> Complex<R>, n: nat) -> bool {
    forall|i: int, j: int|
        0 <= i < n && 0 <= j < n ==> #[trigger] inner(column(v, i), column(v, j), n)
            == identity::<Complex<R>>()(i, j)
}

/// The rotation turns two different coordinates and keeps lengths.
pub open spec fn keeps_lengths<R: Real>(t: Rotation<R>) -> bool {
    &&& t.p != t.q
    &&& plus(times(t.c, t.c), power(t.s)) == whole::<R>(1)
}

/// What keeps lengths is of length one as a pair of complex numbers.
pub proof fn lengths_in_complex<R: Real>(t: Rotation<R>)
    requires
        field::<R>(),
        keeps_lengths(t),
    ensures
        plus(times(on_axis(t.c), on_axis(t.c)), times(t.s, conjugate(t.s))) == whole::<Complex<R>>(1),
{
    scaling_is_product(on_axis(t.c), t.c);
    times_nothing(t.c);
    opposite_of_product(t.s.im, t.s.im);
    minus_adds_opposite(times(t.s.re, t.s.re), times(t.s.im, negated(t.s.im)));
    opposite_twice(times(t.s.im, t.s.im));
    opposite_of_product(t.s.re, t.s.im);
    times_commutes(t.s.im, t.s.re);
    opposites_cancel(times(t.s.re, t.s.im));
    plus_nothing(whole::<R>(0));
}

/// The turned columns are combinations of the two columns.
proof fn turned_columns<R: Real>(t: Rotation<R>, v: spec_fn(int, int) -> Complex<R>, n: nat)
    requires
        field::<R>(),
        powers_tell::<R>(),
        t.p != t.q,
    ensures
        combines(
            column(turned(t, v), t.p as int),
            on_axis(t.c),
            column(v, t.p as int),
            conjugate(t.s),
            column(v, t.q as int),
            n,
        ),
        combines(
            column(turned(t, v), t.q as int),
            negated(t.s),
            column(v, t.p as int),
            on_axis(t.c),
            column(v, t.q as int),
            n,
        ),
{
    complex_field::<R>();
    let (p, q) = (t.p as int, t.q as int);
    assert forall|k: int| 0 <= k < n implies #[trigger] column(turned(t, v), p)(k) == plus(
        times(on_axis(t.c), v(k, p)),
        times(conjugate(t.s), v(k, q)),
    ) by {
        scaling_is_product(v(k, p), t.c);
        times_commutes(v(k, q), conjugate(t.s));
    }
    assert forall|k: int| 0 <= k < n implies #[trigger] column(turned(t, v), q)(k) == plus(
        times(negated(t.s), v(k, p)),
        times(on_axis(t.c), v(k, q)),
    ) by {
        scaling_is_product(v(k, q), t.c);
        opposite_of_product(v(k, p), t.s);
        times_commutes(v(k, p), negated(t.s));
    }
}

/// A combination of two vectors that are orthogonal to `z` is orthogonal to `z`.
proof fn stays_orthogonal<R: Real>(
    z: spec_fn(int) -> Complex<R>,
    x: spec_fn(int) -> Complex<R>,
    a: Complex<R>,
    u: spec_fn(int) -> Complex<R>,
    b: Complex<R>,
    w: spec_fn(int) -> Complex<R>,
    n: nat,
)
    requires
        field::<R>(),
        powers_tell::<R>(),
        combines(x, a, u, b, w, n),
        inner(z, u, n) == whole::<Complex<R>>(0),
        inner(z, w, n) == whole::<Complex<R>>(0),
    ensures
        inner(z, x, n) == whole::<Complex<R>>(0),
        inner(x, z, n) == whole::<Complex<R>>(0),
{
    complex_field::<R>();
    inner_with_combination(z, x, a, u, b, w, n);
    inner_is_hermitian(x, z, n);
    times_nothing(a);
    times_nothing(b);
    plus_nothing(whole::<Complex<R>>(0));
    opposite_of_nothing::<R>();
}

/// The inner product of two combinations of the same two orthonormal vectors.
proof fn inner_of_combinations<R: Real>(
    x: spec_fn(int) -> Complex<R>,
    a: Complex<R>,
    b: Complex<R>,
    y: spec_fn(int) -> Complex<R>,
    c: Complex<R>,
    d: Complex<R>,
    u: spec_fn(int) -> Complex<R>,
    w: spec_fn(int) -> Complex<R>,
    n: nat,
)
    requires
        field::<R>(),
        powers_tell::<R>(),
        combines(x, a, u, b, w, n),
        combines(y, c, u, d, w, n),
        inner(u, u, n) == whole::<Complex<R>>(1),
        inner(w, w, n) == whole::<Complex<R>>(1),
        inner(u, w, n) == whole::<Complex<R>>(0),
        inner(w, u, n) == whole::<Complex<R>>(0),
    ensures
        inner(x, y, n) == plus(times(conjugate(a), c), times(conjugate(b), d)),
{
    complex_field::<R>();
    inner_of_combination(y, x, a, u, b, w, n);
    inner_with_combination(u, y, c, u, d, w, n);
    inner_with_combination(w, y, c, u, d, w, n);
    times_one(c);
    times_one(d);
    times_nothing(c);
    times_nothing(d);
    plus_nothing(c);
    plus_nothing(d);
}

/// A rotation that keeps lengths keeps columns orthonormal.
pub proof fn rotation_keeps_columns_orthonormal<R: Real>(
    t: Rotation<R>,
    v: spec_fn(int, int) -> Complex<R>,
    n: nat,
)
    requires
        field::<R>(),
        powers_tell::<R>(),
        keeps_lengths(t),
        t.p < n,
        t.q < n,
        orthonormal(v, n),
    ensures
        orthonormal(turned(t, v), n),
{
    complex_field::<R>();
    let (p, q) = (t.p as int, t.q as int);
    let c = on_axis(t.c);
    let s = t.s;
    let w = turned(t, v);
    let (vp, vq) = (column(v, p), column(v, q));
    turned_columns(t, v, n);
    lengths_in_complex(t);
    conjugate_of_real(t.c);
    conjugate_twice(s);
    assert(conjugate(negated(s)) == negated(conjugate(s)));
    assert(inner(vp, vp, n) == identity::<Complex<R>>()(p, p));
    assert(inner(vq, vq, n) == identity::<Complex<R>>()(q, q));
    assert(inner(vp, vq, n) == identity::<Complex<R>>()(p, q));
    assert(inner(vq, vp, n) == identity::<Complex<R>>()(q, p));
    assert forall|i: int, j: int| 0 <= i < n && 0 <= j < n implies #[trigger] inner(
        column(w, i),
        column(w, j),
        n,
    ) == identity::<Complex<R>>()(i, j) by {
        let (wi, wj) = (column(w, i), column(w, j));
        if i != p && i != q && j != p && j != q {
            assert(wi =~= column(v, i));
            assert(wj =~= column(v, j));
            assert(inner(column(v, i), column(v, j), n) == identity::<Complex<R>>()(i, j));
        } else if i != p && i != q {
            assert(wi =~= column(v, i));
            assert(inner(wi, vp, n) == identity::<Complex<R>>()(i, p));
            assert(inner(wi, vq, n) == identity::<Complex<R>>()(i, q));
            if j == p {
                stays_orthogonal(wi, wj, c, vp, conjugate(s), vq, n);
            } else {
                stays_orthogonal(wi, wj, negated(s), vp, c, vq, n);
            }
        } else if j != p && j != q {
            assert(wj =~= column(v, j));
            assert(inner(wj, vp, n) == identity::<Complex<R>>()(j, p));
            assert(inner(wj, vq, n) == identity::<Complex<R>>()(j, q));
            if i == p {
                stays_orthogonal(wj, wi, c, vp, conjugate(s), vq, n);
            } else {
                stays_orthogonal(wj, wi, negated(s), vp, c, vq, n);
            }
        } else if i == p && j == p {
            inner_of_combinations(wi, c, conjugate(s), wj, c, conjugate(s), vp, vq, n);
        } else if i == q && j == q {
            inner_of_combinations(wi, negated(s), c, wj, negated(s), c, vp, vq, n);
            opposite_of_product(conjugate(s), negated(s));
            opposite_of_product(conjugate(s), s);
            opposite_twice(times(conjugate(s), s));
            times_commutes(conjugate(s), s);
            plus_commutes(times(s, conjugate(s)), times(c, c));
        } else if i == p {
            inner_of_combinations(wi, c, conjugate(s), wj, negated(s), c, vp, vq, n);
            opposite_of_product(c, s);
            times_commutes(c, s);
            opposites_cancel(times(s, c));
        } else {
            inner_of_combinations(wi, negated(s), c, wj, c, conjugate(s), vp, vq, n);
            opposite_of_product(conjugate(s), c);
            times_commutes(c, conjugate(s));
            opposites_cancel(times(conjugate(s), c));
        }
    }
}

// ---- the rotation that is chosen --------------------------------------------

/// The elementary functions are those of exact trigonometry: sine and cosine lie on the unit
/// circle, the hypotenuse obeys Pythagoras, and half the angle between twice `m` and `d`
/// balances the two.
pub open spec fn exact_trigonometry<R: Real, M: Fn(Elementary<R>) -> R>(math: M) -> bool {
    &&& forall|t: R| #[trigger] on_circle(math, t)
    &&& forall|a: R, b: R| #[trigger] pythagorean(math, a, b)
    &&& forall|m: R, d: R| #[trigger] balances(math, m, d)
}

/// The square of the hypotenuse is the sum of the squares of the legs.
pub open spec fn pythagorean<R: Real, M: Fn(Elementary<R>) -> R>(math: M, a: R, b: R) -> bool {
    let h = value(math, Elementary::Hypot(a, b));
    times(h, h) == plus(times(a, a), times(b, b))
}

/// Half the angle between twice `m` and `d` balances the two.
pub open spec fn balances<R: Real, M: Fn(Elementary<R>) -> R>(math: M, m: R, d: R) -> bool {
    let h = times(ratio(1, 2), value(math, Elementary::Atan2(times(whole(2), m), d)));
    let (s, c) = (value(math, Elementary::Sin(h)), value(math, Elementary::Cos(h)));
    times(m, minus(times(c, c), times(s, s))) == times(d, times(s, c))
}

/// The order is total, and the thresholds of the rotations are positive and in order.
pub open spec fn exact_order<R: Real>() -> bool {
    &&& ordering::<R>()
    &&& forall|a: R, b: R| #[trigger] comparable(a, b)
    &&& forall|a: R| !#[trigger] unordered(a)
    &&& less(whole::<R>(0), tolerance())
    &&& less(faintest::<R>(), tolerance())
}

/// Both parts of the direction of a pivot, turned by `sin`, add up to the square of `sin`.
proof fn power_of_direction<R: Real>(sin: R, re: R, im: R, size: R)
    requires
        field::<R>(),
        size != whole::<R>(0),
        times(size, size) == plus(times(re, re), times(im, im)),
    ensures
        power(Complex { re: over(times(sin, re), size), im: over(times(sin, im), size) }) == times(
            sin,
            sin,
        ),
{
    let (x, y) = (over(re, size), over(im, size));
    over_of_product(sin, re, size);
    over_of_product(sin, im, size);
    times_exchanges(sin, x, sin, x);
    times_exchanges(sin, y, sin, y);
    times_distributes(times(sin, sin), times(x, x), times(y, y));
    direction_has_length_one(re, im, size);
    times_one(times(sin, sin));
}

/// What is divided by its own modulus has length one.
proof fn direction_has_length_one<R: Real>(re: R, im: R, size: R)
    requires
        field::<R>(),
        size != whole::<R>(0),
        times(size, size) == plus(times(re, re), times(im, im)),
    ensures
        power(Complex { re: over(re, size), im: over(im, size) }) == whole::<R>(1),
{
    let (x, y) = (over(re, size), over(im, size));
    over_undoes_times(re, size);
    over_undoes_times(im, size);
    times_exchanges(x, size, x, size);
    times_exchanges(y, size, y, size);
    let square = times(size, size);
    times_distributes(square, times(x, x), times(y, y));
    assert(times(plus(times(x, x), times(y, y)), square) == square);
    square_is_something(size);
    times_one(square);
    quotient_is_unique(plus(times(x, x), times(y, y)), square, square);
    over_itself(square);
}

/// The square of something is something.
proof fn square_is_something<R: Real>(a: R)
    requires
        field::<R>(),
        a != whole::<R>(0),
    ensures
        times(a, a) != whole::<R>(0),
{
    if times(a, a) == whole::<R>(0) {
        let r = over(whole(1), a);
        over_undoes_times(whole::<R>(1), a);
        times_regroups(r, a, a);
        times_one(a);
        times_nothing(r);
    }
}

/// A pivot that is not below the tolerance is divided by its own modulus.
proof fn pivot_is_something<R: Real>(size: R)
    requires
        exact_order::<R>(),
        !less(size, tolerance()),
    ensures
        size != whole::<R>(0),
        larger(size, faintest()) == size,
{
    let (f, t) = (faintest::<R>(), tolerance::<R>());
    assert(comparable(f, t) && comparable(t, size) && comparable(f, size));
    assert(!less(t, f));
    assert(!unordered(size));
}

/// The rotation about a pivot that is not below the tolerance keeps lengths.
pub proof fn chosen_rotation_keeps_lengths<R: Real, M: Fn(Elementary<R>) -> R>(
    math: M,
    a: spec_fn(int, int) -> Complex<R>,
    p: usize,
    q: usize,
)
    requires
        field::<R>(),
        exact_trigonometry(math),
        exact_order::<R>(),
        p != q,
        !less(modulus(math, a(p as int, q as int)), tolerance()),
    ensures
        keeps_lengths(rotation(math, a, p, q)),
{
    let apq = a(p as int, q as int);
    let size = modulus(math, apq);
    let theta = times(
        ratio(1, 2),
        value(
            math,
            Elementary::Atan2(
                times(whole(2), size),
                minus(a(p as int, p as int).re, a(q as int, q as int).re),
            ),
        ),
    );
    pivot_is_something(size);
    assert(pythagorean(math, apq.re, apq.im));
    assert(on_circle(math, theta));
    power_of_direction(value(math, Elementary::Sin(theta)), apq.re, apq.im, size);
}

// ---- the pivot --------------------------------------------------------------

/// The modulus of the best entry so far, and nothing where there is none.
pub open spec fn held<R: Real>(best: Option<Pivot<R>>) -> R {
    match best {
        Some(b) => b.size,
        None => whole(0),
    }
}

/// The pivot is an entry of `a` above the diagonal, together with its modulus.
pub open spec fn stands_in<R: Real, M: Fn(Elementary<R>) -> R>(
    b: Pivot<R>,
    math: M,
    a: spec_fn(int, int) -> Complex<R>,
    n: int,
) -> bool {
    &&& b.p < b.q < n
    &&& b.size == modulus(math, a(b.p as int, b.q as int))
}

proof fn best_of_row<R: Real, M: Fn(Elementary<R>) -> R>(
    math: M,
    a: spec_fn(int, int) -> Complex<R>,
    best: Option<Pivot<R>>,
    n: int,
    i: int,
    j: int,
)
    requires
        exact_order::<R>(),
        0 <= i,
        j <= n <= usize::MAX,
        best matches Some(b) ==> stands_in(b, math, a, n),
    ensures
        best_in_row(math, a, best, i, j) matches Some(b) ==> stands_in(b, math, a, n),
        !less(held(best_in_row(math, a, best, i, j)), held(best)),
        forall|l: int|
            i < l < j ==> !less(
                held(best_in_row(math, a, best, i, j)),
                #[trigger] modulus(math, a(i, l)),
            ),
    decreases j - i,
{
    assert(comparable(held(best), held(best)));
    if j > i + 1 {
        best_of_row(math, a, best, n, i, j - 1);
        let before = held(best_in_row(math, a, best, i, j - 1));
        let after = held(best_in_row(math, a, best, i, j));
        assert(comparable(held(best), before) && comparable(before, after) && comparable(
            held(best),
            after,
        ));
        assert(!less(after, before));
        assert forall|l: int| i < l < j implies !less(
            after,
            #[trigger] modulus(math, a(i, l)),
        ) by {
            let m = modulus(math, a(i, l));
            assert(comparable(m, before) && comparable(m, after) && comparable(m, m));
        }
    }
}

pub proof fn best_of_rows<R: Real, M: Fn(Elementary<R>) -> R>(
    math: M,
    a: spec_fn(int, int) -> Complex<R>,
    n: int,
    i: int,
)
    requires
        exact_order::<R>(),
        i <= n <= usize::MAX,
    ensures
        best_above(math, a, n, i) matches Some(b) ==> stands_in(b, math, a, n),
        forall|k: int, l: int|
            0 <= k < i && k < l < n ==> !less(
                held(best_above(math, a, n, i)),
                #[trigger] modulus(math, a(k, l)),
            ),
    decreases i,
{
    if i > 0 {
        best_of_rows(math, a, n, i - 1);
        let above = best_above(math, a, n, i - 1);
        best_of_row(math, a, above, n, i - 1, n);
        let after = held(best_above(math, a, n, i));
        assert forall|k: int, l: int| 0 <= k < i && k < l < n implies !less(
            after,
            #[trigger] modulus(math, a(k, l)),
        ) by {
            let m = modulus(math, a(k, l));
            assert(comparable(m, held(above)) && comparable(held(above), after) && comparable(
                m,
                after,
            ));
        }
    }
}

/// The pivot of a rotation is the largest entry above the diagonal, and there is none only
/// where no entry is larger than nothing.
pub proof fn pivot_is_the_largest<R: Real, M: Fn(Elementary<R>) -> R>(
    math: M,
    a: spec_fn(int, int) -> Complex<R>,
    n: int,
    i: int,
    j: int,
)
    requires
        exact_order::<R>(),
        n <= usize::MAX,
        0 <= i < j < n,
    ensures
        best_above(math, a, n, n) matches Some(b) ==> stands_in(b, math, a, n),
        !less(held(best_above(math, a, n, n)), modulus(math, a(i, j))),
{
    best_of_rows(math, a, n, n);
}

// ---- the iteration ----------------------------------------------------------

/// However many rotations are made, the columns of their product stay orthonormal.
proof fn iteration_keeps_columns_orthonormal<R: Real, M: Fn(Elementary<R>) -> R>(
    math: M,
    n: nat,
    a: spec_fn(int, int) -> Complex<R>,
    v: spec_fn(int, int) -> Complex<R>,
    rounds: nat,
)
    requires
        field::<R>(),
        powers_tell::<R>(),
        exact_trigonometry(math),
        exact_order::<R>(),
        n <= usize::MAX,
        orthonormal(v, n),
    ensures
        orthonormal(diagonalized(math, n as int, a, v, rounds).1, n),
    decreases rounds,
{
    if rounds > 0 {
        match best_above(math, a, n as int, n as int) {
            None => {},
            Some(b) => {
                if !less(b.size, tolerance()) {
                    best_of_rows(math, a, n as int, n as int);
                    let t = rotation(math, a, b.p, b.q);
                    chosen_rotation_keeps_lengths(math, a, b.p, b.q);
                    rotation_keeps_columns_orthonormal(t, v, n);
                    iteration_keeps_columns_orthonormal(
                        math,
                        n,
                        rotated(t, a),
                        turned(t, v),
                        (rounds - 1) as nat,
                    );
                }
            },
        }
    }
}

/// The columns of the identity are orthonormal.
proof fn identity_is_orthonormal<R: Real>(n: nat)
    requires
        field::<R>(),
        powers_tell::<R>(),
    ensures
        orthonormal(identity::<Complex<R>>(), n),
{
    complex_field::<R>();
    let e = identity::<Complex<R>>();
    opposite_of_nothing::<R>();
    assert forall|i: int, j: int| 0 <= i < n && 0 <= j < n implies #[trigger] inner(
        column(e, i),
        column(e, j),
        n,
    ) == e(i, j) by {
        let terms = inner_terms(column(e, i), column(e, j));
        assert forall|k: int| 0 <= k < n && k != i implies #[trigger] terms(k) == whole::<
            Complex<R>,
        >(0) by {
            times_nothing(e(k, j));
        }
        total_of_one(terms, i, n);
        times_one(e(i, j));
    }
}

/// Where nothing is rounded, the columns of a spectrum are orthonormal.
pub proof fn eigenvectors_are_orthonormal<R: Real, M: Fn(Elementary<R>) -> R>(
    math: M,
    a: spec_fn(int, int) -> Complex<R>,
    n: nat,
)
    requires
        field::<R>(),
        powers_tell::<R>(),
        exact_trigonometry(math),
        exact_order::<R>(),
        n <= usize::MAX,
    ensures
        orthonormal(spectrum(math, a, n).1, n),
{
    identity_is_orthonormal::<R>(n);
    iteration_keeps_columns_orthonormal(math, n, a, identity(), 50 * n);
}

// ---- decomposition ----------------------------------------------------------

/// The first `n` rows and columns of `a` are those of a Hermitian matrix.
pub open spec fn hermitian<R: Real>(a: spec_fn(int, int) -> Complex<R>, n: nat) -> bool {
    &&& forall|i: int, j: int|
        0 <= i < n && 0 <= j < n ==> #[trigger] a(j, i) == conjugate(a(i, j))
    &&& forall|i: int| 0 <= i < n ==> (#[trigger] a(i, i)).im == whole::<R>(0)
}

/// `a` takes each of the first `n` columns of `v` to the product of `v` and the same column
/// of `d`.
pub open spec fn decomposes<T: Scalar>(
    a: spec_fn(int, int) -> T,
    v: spec_fn(int, int) -> T,
    d: spec_fn(int, int) -> T,
    n: nat,
) -> bool {
    forall|j: int, k: int|
        0 <= j < n && 0 <= k < n ==> #[trigger] image(a, column(v, j), n)(k) == image(
            v,
            column(d, j),
            n,
        )(k)
}

/// Two terms can be taken out of a sum.
pub proof fn total_without_pair<T: Scalar>(f: spec_fn(int) -> T, p: int, q: int, n: nat)
    requires
        field::<T>(),
        0 <= p < n,
        0 <= q < n,
        p != q,
    ensures
        total(whole(0), f, n) == plus(
            total(
                whole(0),
                |i: int|
                    if i == p || i == q {
                        whole(0)
                    } else {
                        f(i)
                    },
                n,
            ),
            plus(f(p), f(q)),
        ),
{
    let rest = |i: int|
        if i == p || i == q {
            whole(0)
        } else {
            f(i)
        };
    let at_p = |i: int|
        if i == p {
            f(p)
        } else {
            whole(0)
        };
    let at_q = |i: int|
        if i == q {
            f(q)
        } else {
            whole(0)
        };
    let pair = |i: int| plus(at_p(i), at_q(i));
    assert forall|i: int| 0 <= i < n implies #[trigger] f(i) == plus(rest(i), pair(i)) by {
        plus_nothing(whole::<T>(0));
        plus_nothing(f(i));
    }
    total_of_sums(rest, pair, f, n);
    total_of_sums(at_p, at_q, pair, n);
    total_of_one(at_p, p, n);
    total_of_one(at_q, q, n);
}

/// Sums that differ in two terms alone are equal where those two add up to the same.
pub proof fn totals_agree<T: Scalar>(
    f: spec_fn(int) -> T,
    g: spec_fn(int) -> T,
    p: int,
    q: int,
    n: nat,
)
    requires
        field::<T>(),
        0 <= p < n,
        0 <= q < n,
        p != q,
        forall|i: int| 0 <= i < n && i != p && i != q ==> #[trigger] f(i) == g(i),
        plus(f(p), f(q)) == plus(g(p), g(q)),
    ensures
        total(whole(0), f, n) == total(whole(0), g, n),
{
    total_without_pair(f, p, q, n);
    total_without_pair(g, p, q, n);
    equal_terms(
        whole(0),
        |i: int|
            if i == p || i == q {
                whole(0)
            } else {
                f(i)
            },
        |i: int|
            if i == p || i == q {
                whole(0)
            } else {
                g(i)
            },
        n,
    );
}

/// Turning a pair back gives the pair.
proof fn pair_turns_back<T: Scalar>(c: T, s: T, t: T, x: T, y: T)
    requires
        field::<T>(),
        plus(times(c, c), times(s, t)) == whole::<T>(1),
    ensures
        ({
            let a = plus(times(c, x), times(s, y));
            let b = plus(times(negated(t), x), times(c, y));
            &&& plus(times(c, a), times(negated(s), b)) == x
            &&& plus(times(t, a), times(c, b)) == y
        }),
{
    let a = plus(times(c, x), times(s, y));
    let b = plus(times(negated(t), x), times(c, y));
    times_distributes(c, times(c, x), times(s, y));
    times_distributes(negated(s), times(negated(t), x), times(c, y));
    times_regroups(c, c, x);
    times_regroups(c, s, y);
    times_regroups(negated(s), negated(t), x);
    times_regroups(negated(s), c, y);
    opposite_of_product(s, negated(t));
    opposite_of_product(s, t);
    opposite_twice(times(s, t));
    opposite_of_product(s, c);
    times_commutes(s, c);
    opposite_of_product(times(s, c), y);
    let u = times(times(c, s), y);
    plus_exchanges(times(times(c, c), x), u, times(times(s, t), x), negated(u));
    opposites_cancel(u);
    times_distributes(x, times(c, c), times(s, t));
    times_one(x);
    plus_nothing(x);
    assert(plus(times(c, a), times(negated(s), b)) == x);
    times_distributes(t, times(c, x), times(s, y));
    times_distributes(c, times(negated(t), x), times(c, y));
    times_regroups(t, c, x);
    times_regroups(t, s, y);
    times_regroups(c, negated(t), x);
    times_regroups(c, c, y);
    opposite_of_product(c, t);
    times_commutes(c, t);
    opposite_of_product(times(c, t), x);
    times_commutes(t, s);
    let w = times(times(t, c), x);
    plus_exchanges(w, times(times(s, t), y), negated(w), times(times(c, c), y));
    opposites_cancel(w);
    times_distributes(y, times(s, t), times(c, c));
    plus_commutes(times(s, t), times(c, c));
    times_one(y);
    plus_nothing(y);
}

/// Two pairs that are turned against each other have the same product sum as before.
proof fn turned_pairs_agree<T: Scalar>(c: T, s: T, t: T, vp: T, vq: T, x: T, y: T)
    requires
        field::<T>(),
        plus(times(c, c), times(s, t)) == whole::<T>(1),
    ensures
        plus(
            times(
                plus(times(c, vp), times(t, vq)),
                plus(times(c, x), times(s, y)),
            ),
            times(
                plus(times(negated(s), vp), times(c, vq)),
                plus(times(negated(t), x), times(c, y)),
            ),
        ) == plus(times(vp, x), times(vq, y)),
{
    let a = plus(times(c, x), times(s, y));
    let b = plus(times(negated(t), x), times(c, y));
    pair_turns_back(c, s, t, x, y);
    times_distributes(a, times(c, vp), times(t, vq));
    times_distributes(b, times(negated(s), vp), times(c, vq));
    moves_in(c, vp, a);
    moves_in(t, vq, a);
    moves_in(negated(s), vp, b);
    moves_in(c, vq, b);
    plus_exchanges(
        times(vp, times(c, a)),
        times(vq, times(t, a)),
        times(vp, times(negated(s), b)),
        times(vq, times(c, b)),
    );
    times_distributes(vp, times(c, a), times(negated(s), b));
    times_distributes(vq, times(t, a), times(c, b));
}

/// A factor can be handed on.
proof fn moves_in<T: Scalar>(c: T, v: T, a: T)
    requires
        field::<T>(),
    ensures
        times(times(c, v), a) == times(v, times(c, a)),
{
    times_commutes(c, v);
    times_regroups(v, c, a);
}

/// Rows `p` and `q` of `r` are those of `m`, turned against the rotation, and the other
/// rows are the same.
pub open spec fn turns_rows<R: Real>(
    t: Rotation<R>,
    m: spec_fn(int, int) -> Complex<R>,
    r: spec_fn(int, int) -> Complex<R>,
    n: nat,
) -> bool {
    let (p, q) = (t.p as int, t.q as int);
    forall|i: int, j: int|
        0 <= i < n && 0 <= j < n ==> #[trigger] r(i, j) == (if i == p {
            plus(times(on_axis(t.c), m(p, j)), times(t.s, m(q, j)))
        } else if i == q {
            plus(times(negated(conjugate(t.s)), m(p, j)), times(on_axis(t.c), m(q, j)))
        } else {
            m(i, j)
        })
}

/// A rotation that turns the columns of `v` and of `d`, and then the rows of `d`, keeps the
/// decomposition.
proof fn rotation_keeps_decomposition<R: Real>(
    t: Rotation<R>,
    a: spec_fn(int, int) -> Complex<R>,
    v: spec_fn(int, int) -> Complex<R>,
    d: spec_fn(int, int) -> Complex<R>,
    r: spec_fn(int, int) -> Complex<R>,
    n: nat,
)
    requires
        field::<R>(),
        powers_tell::<R>(),
        keeps_lengths(t),
        t.p < n,
        t.q < n,
        decomposes(a, v, d, n),
        turns_rows(t, turned(t, d), r, n),
    ensures
        decomposes(a, turned(t, v), r, n),
{
    complex_field::<R>();
    let (p, q) = (t.p as int, t.q as int);
    let c = on_axis(t.c);
    let s = t.s;
    let w = turned(t, v);
    let m = turned(t, d);
    lengths_in_complex(t);
    turned_columns(t, v, n);
    turned_columns(t, d, n);
    assert forall|j: int, k: int| 0 <= j < n && 0 <= k < n implies #[trigger] image(
        a,
        column(w, j),
        n,
    )(k) == image(w, column(r, j), n)(k) by {
        // `a` takes the turned column to the product of `v` and the turned column of `d`.
        assert(image(a, column(v, p), n)(k) == image(v, column(d, p), n)(k));
        assert(image(a, column(v, q), n)(k) == image(v, column(d, q), n)(k));
        if j == p {
            image_of_combination(
                a,
                column(w, p),
                c,
                column(v, p),
                conjugate(s),
                column(v, q),
                n,
                k,
            );
            image_of_combination(
                v,
                column(m, p),
                c,
                column(d, p),
                conjugate(s),
                column(d, q),
                n,
                k,
            );
        } else if j == q {
            image_of_combination(
                a,
                column(w, q),
                negated(s),
                column(v, p),
                c,
                column(v, q),
                n,
                k,
            );
            image_of_combination(
                v,
                column(m, q),
                negated(s),
                column(d, p),
                c,
                column(d, q),
                n,
                k,
            );
        } else {
            assert(column(w, j) =~= column(v, j));
            assert(column(m, j) =~= column(d, j));
            assert(image(a, column(v, j), n)(k) == image(v, column(d, j), n)(k));
        }
        // That product is the product of the turned `v` and the column of `r`.
        let f = image_terms(w, column(r, j), k);
        let g = image_terms(v, column(m, j), k);
        assert(column(w, p)(k) == plus(times(c, v(k, p)), times(conjugate(s), v(k, q))));
        assert(column(w, q)(k) == plus(times(negated(s), v(k, p)), times(c, v(k, q))));
        assert(r(p, j) == plus(times(c, m(p, j)), times(s, m(q, j))));
        assert(r(q, j) == plus(times(negated(conjugate(s)), m(p, j)), times(c, m(q, j))));
        turned_pairs_agree(c, s, conjugate(s), v(k, p), v(k, q), m(p, j), m(q, j));
        assert forall|i: int| 0 <= i < n && i != p && i != q implies #[trigger] f(i) == g(i) by {
            assert(r(i, j) == m(i, j));
        }
        totals_agree(f, g, p, q, n);
    }
}

/// The rotation by `c` and `s` clears the entry `b` between the diagonal entries `x` and `y`.
pub open spec fn clears<R: Real>(x: R, y: R, b: R, c: R, s: R) -> bool {
    times(b, minus(times(c, c), times(s, s))) == times(minus(x, y), times(s, c))
}

/// The four products that a rotation of a symmetric pair of rows and columns is made of.
proof fn products_of_rotation<R: Real>(x: R, y: R, b: R, c: R, s: R)
    requires
        field::<R>(),
    ensures
        times(c, times(x, c)) == times(times(x, c), c),
        times(c, times(b, s)) == times(times(b, c), s),
        times(s, times(b, c)) == times(times(b, c), s),
        times(s, times(y, s)) == times(y, times(s, s)),
        times(s, times(x, c)) == times(x, times(s, c)),
        times(c, times(x, s)) == times(x, times(s, c)),
        times(s, times(b, s)) == times(b, times(s, s)),
        times(c, times(b, c)) == times(b, times(c, c)),
{
    times_commutes(c, times(x, c));
    moves_out(c, b, s);
    times_commutes(c, s);
    times_regroups(b, c, s);
    times_commutes(s, times(b, c));
    times_commutes(s, times(y, s));
    times_regroups(y, s, s);
    moves_out(s, x, c);
    moves_out(c, x, s);
    moves_out(s, b, s);
    moves_out(c, b, c);
}

/// What a clearing rotation makes of a symmetric pair of rows and columns.
proof fn symmetric_rotation<R: Real>(x: R, y: R, b: R, c: R, s: R)
    requires
        field::<R>(),
        two_is_one_and_one::<R>(),
        clears(x, y, b, c, s),
    ensures
        ({
            let cross = times(times(times(whole(2), b), c), s);
            let (ep, eq) = (plus(times(x, c), times(b, s)), plus(times(b, c), times(y, s)));
            let (fp, fq) = (
                plus(times(negated(x), s), times(b, c)),
                plus(times(negated(b), s), times(y, c)),
            );
            &&& plus(times(c, ep), times(s, eq)) == plus(
                plus(times(times(x, c), c), times(y, times(s, s))),
                cross,
            )
            &&& plus(times(negated(s), ep), times(c, eq)) == whole::<R>(0)
            &&& plus(times(c, fp), times(s, fq)) == whole::<R>(0)
            &&& plus(times(negated(s), fp), times(c, fq)) == minus(
                plus(times(x, times(s, s)), times(times(y, c), c)),
                cross,
            )
        }),
{
    let cross = times(times(times(whole(2), b), c), s);
    let (ep, eq) = (plus(times(x, c), times(b, s)), plus(times(b, c), times(y, s)));
    let (fp, fq) = (
        plus(times(negated(x), s), times(b, c)),
        plus(times(negated(b), s), times(y, c)),
    );
    let k = times(times(b, c), s);
    products_of_rotation(x, y, b, c, s);
    products_of_rotation(y, x, b, c, s);
    // Twice the cross product.
    times_distributes(b, whole::<R>(1), whole::<R>(1));
    times_one(b);
    times_distributes(c, b, b);
    times_distributes(s, times(b, c), times(b, c));
    assert(cross == plus(k, k));
    // The entries on the diagonal.
    times_distributes(c, times(x, c), times(b, s));
    times_distributes(s, times(b, c), times(y, s));
    let (xx, yy) = (times(times(x, c), c), times(y, times(s, s)));
    plus_commutes(k, yy);
    plus_exchanges(xx, k, yy, k);
    assert(plus(times(c, ep), times(s, eq)) == plus(plus(xx, yy), cross));
    times_distributes(negated(s), times(negated(x), s), times(b, c));
    times_distributes(c, times(negated(b), s), times(y, c));
    opposite_of_product(x, s);
    opposite_of_product(b, s);
    opposite_of_product(s, times(x, s));
    opposite_of_product(s, negated(times(x, s)));
    opposite_twice(times(s, times(x, s)));
    opposite_of_product(s, times(b, c));
    opposite_of_product(c, times(b, s));
    let (xs, yc) = (times(x, times(s, s)), times(times(y, c), c));
    plus_commutes(negated(k), yc);
    plus_exchanges(xs, negated(k), yc, negated(k));
    opposite_of_sum(k, k);
    minus_adds_opposite(plus(xs, yc), cross);
    assert(plus(times(negated(s), fp), times(c, fq)) == minus(plus(xs, yc), cross));
    // The entries off the diagonal.
    let (u, w) = (times(x, times(s, c)), times(y, times(s, c)));
    let (g, h) = (times(b, times(c, c)), times(b, times(s, s)));
    times_commutes(b, minus(times(c, c), times(s, s)));
    times_distributes_minus(b, times(c, c), times(s, s));
    times_commutes(b, times(c, c));
    times_commutes(b, times(s, s));
    times_distributes_minus(times(s, c), x, y);
    minus_adds_opposite(g, h);
    minus_adds_opposite(u, w);
    assert(plus(g, negated(h)) == plus(u, negated(w)));
    off_diagonal_cancels(u, w, g, h);
    times_distributes(negated(s), times(x, c), times(b, s));
    opposite_of_product(s, times(x, c));
    opposite_of_product(s, times(b, s));
    times_distributes(c, times(b, c), times(y, s));
    assert(plus(times(negated(s), ep), times(c, eq)) == whole::<R>(0));
    times_distributes(c, times(negated(x), s), times(b, c));
    times_distributes(s, times(negated(b), s), times(y, c));
    opposite_of_product(c, times(x, s));
    opposite_of_product(s, times(b, s));
    plus_exchanges(negated(u), g, negated(h), w);
    assert(plus(times(c, fp), times(s, fq)) == whole::<R>(0));
}

/// Where `g - h` is `u - w`, the four of them cancel.
proof fn off_diagonal_cancels<R: Real>(u: R, w: R, g: R, h: R)
    requires
        field::<R>(),
        plus(g, negated(h)) == plus(u, negated(w)),
    ensures
        plus(plus(negated(u), negated(h)), plus(g, w)) == whole::<R>(0),
{
    plus_commutes(g, w);
    plus_exchanges(negated(u), negated(h), w, g);
    plus_commutes(negated(h), g);
    opposite_of_sum(u, negated(w));
    opposite_twice(w);
    opposites_cancel(plus(u, negated(w)));
}

/// Arithmetic along the direction `e`, of length one, goes by the distances.
proof fn arithmetic_along<R: Real>(e: Complex<R>, a: R, b: R)
    requires
        field::<R>(),
        powers_tell::<R>(),
        power(e) == whole::<R>(1),
    ensures
        plus(scaled(e, a), scaled(e, b)) == scaled(e, plus(a, b)),
        scaled(scaled(e, a), b) == scaled(e, times(a, b)),
        times(scaled(e, a), on_axis(b)) == scaled(e, times(a, b)),
        times(on_axis(a), scaled(e, b)) == scaled(e, times(a, b)),
        negated(scaled(e, a)) == scaled(e, negated(a)),
        conjugate(scaled(e, a)) == scaled(conjugate(e), a),
        times(scaled(e, a), scaled(conjugate(e), b)) == on_axis(times(a, b)),
        times(scaled(conjugate(e), a), scaled(e, b)) == on_axis(times(a, b)),
        scaled(e, whole(0)) == whole::<Complex<R>>(0),
        power(conjugate(e)) == whole::<R>(1),
{
    complex_field::<R>();
    let f = conjugate(e);
    times_distributes(e.re, a, b);
    times_distributes(e.im, a, b);
    times_regroups(e.re, a, b);
    times_regroups(e.im, a, b);
    scaling_is_product(scaled(e, a), b);
    scaling_is_product(scaled(e, b), a);
    times_regroups(e.re, b, a);
    times_regroups(e.im, b, a);
    times_commutes(a, b);
    opposite_of_product(e.re, a);
    opposite_of_product(e.im, a);
    scaling_is_product(e, a);
    scaling_is_product(e, b);
    scaling_is_product(f, a);
    scaling_is_product(f, b);
    arithmetic_on_axis(a, b);
    times_exchanges(on_axis(a), e, on_axis(b), f);
    times_exchanges(on_axis(a), f, on_axis(b), e);
    // The product of the direction and its conjugate is one.
    opposite_of_product(e.im, e.im);
    minus_adds_opposite(times(e.re, e.re), times(e.im, negated(e.im)));
    opposite_twice(times(e.im, e.im));
    opposite_of_product(e.re, e.im);
    times_commutes(e.im, e.re);
    opposites_cancel(times(e.re, e.im));
    assert(times(e, f) == whole::<Complex<R>>(1));
    times_commutes(e, f);
    times_one(on_axis(times(a, b)));
    times_nothing(e.re);
    times_nothing(e.im);
    opposite_of_product(negated(e.im), e.im);
    opposite_of_product(e.im, negated(e.im));
    assert(times(negated(e.im), negated(e.im)) == times(e.im, e.im));
}

/// A rotation turns in the direction of its pivot: the pivot is `size` long, and the sine of
/// the rotation is `sin`, both in the direction `e`.
pub open spec fn turns_along<R: Real>(
    t: Rotation<R>,
    d: spec_fn(int, int) -> Complex<R>,
    e: Complex<R>,
    size: R,
    sin: R,
) -> bool {
    &&& power(e) == whole::<R>(1)
    &&& d(t.p as int, t.q as int) == scaled(e, size)
    &&& t.s == scaled(e, sin)
}

/// The share of one part of a direction in the cross part.
proof fn share_along<R: Real>(e: R, size: R, c: R, sin: R)
    requires
        field::<R>(),
    ensures
        times(times(times(whole(2), times(e, size)), c), times(e, sin)) == times(
            times(e, e),
            times(times(times(whole(2), size), c), sin),
        ),
{
    let twice = times(whole(2), size);
    moves_out(whole(2), e, size);
    times_regroups(e, twice, c);
    times_exchanges(e, times(twice, c), e, sin);
}

/// The new diagonal entries go by the lengths of the pivot and of the sine.
proof fn lengths_along<R: Real>(
    t: Rotation<R>,
    d: spec_fn(int, int) -> Complex<R>,
    e: Complex<R>,
    size: R,
    sin: R,
)
    requires
        field::<R>(),
        turns_along(t, d, e, size, sin),
    ensures
        power(t.s) == times(sin, sin),
        cross_part(t, d) == times(times(times(whole(2), size), t.c), sin),
{
    times_exchanges(e.re, sin, e.re, sin);
    times_exchanges(e.im, sin, e.im, sin);
    times_distributes(times(sin, sin), times(e.re, e.re), times(e.im, e.im));
    times_one(times(sin, sin));
    let k = times(times(times(whole(2), size), t.c), sin);
    share_along(e.re, size, t.c, sin);
    share_along(e.im, size, t.c, sin);
    times_distributes(k, times(e.re, e.re), times(e.im, e.im));
    times_one(k);
}

/// The matrix that a clearing rotation makes is the matrix turned on both sides.
proof fn rotated_is_turned_twice<R: Real>(
    t: Rotation<R>,
    d: spec_fn(int, int) -> Complex<R>,
    n: nat,
    e: Complex<R>,
    b: R,
    s: R,
)
    requires
        field::<R>(),
        powers_tell::<R>(),
        two_is_one_and_one::<R>(),
        hermitian(d, n),
        t.p != t.q,
        t.p < n,
        t.q < n,
        turns_along(t, d, e, b, s),
        clears(d(t.p as int, t.p as int).re, d(t.q as int, t.q as int).re, b, t.c, s),
    ensures
        turns_rows(t, turned(t, d), rotated(t, d), n),
{
    complex_field::<R>();
    let (p, q) = (t.p as int, t.q as int);
    let (x, y) = (d(p, p).re, d(q, q).re);
    let c = t.c;
    let f = conjugate(e);
    let m = turned(t, d);
    let r = rotated(t, d);
    conjugate_twice(e);
    assert(d(p, p) == on_axis(x));
    assert(d(q, q) == on_axis(y));
    arithmetic_along(e, b, c);
    arithmetic_along(e, s, c);
    assert(d(q, p) == conjugate(d(p, q)));
    assert(d(q, p) == scaled(f, b));
    symmetric_rotation(x, y, b, c, s);
    lengths_along(t, d, e, b, s);
    let (ep, eq) = (plus(times(x, c), times(b, s)), plus(times(b, c), times(y, s)));
    let (fp, fq) = (
        plus(times(negated(x), s), times(b, c)),
        plus(times(negated(b), s), times(y, c)),
    );
    // The turned columns.
    arithmetic_on_axis(x, c);
    arithmetic_on_axis(y, c);
    arithmetic_along(e, b, s);
    arithmetic_on_axis(times(x, c), times(b, s));
    assert(m(p, p) == on_axis(ep));
    arithmetic_along(f, b, c);
    arithmetic_along(f, y, s);
    arithmetic_along(f, times(b, c), times(y, s));
    assert(m(q, p) == scaled(f, eq));
    arithmetic_along(e, negated(x), s);
    arithmetic_along(e, times(negated(x), s), times(b, c));
    assert(m(p, q) == scaled(e, fp));
    arithmetic_along(e, negated(b), s);
    arithmetic_on_axis(times(negated(b), s), times(y, c));
    assert(m(q, q) == on_axis(fq));
    // The turned rows.
    arithmetic_on_axis(c, ep);
    arithmetic_along(e, s, eq);
    arithmetic_on_axis(times(c, ep), times(s, eq));
    arithmetic_along(f, s, s);
    arithmetic_along(f, negated(s), ep);
    arithmetic_along(f, c, eq);
    arithmetic_along(f, times(negated(s), ep), times(c, eq));
    arithmetic_along(e, c, fp);
    arithmetic_along(e, s, fq);
    arithmetic_along(e, times(c, fp), times(s, fq));
    arithmetic_along(e, negated(s), fp);
    arithmetic_on_axis(c, fq);
    arithmetic_on_axis(times(negated(s), fp), times(c, fq));
    assert forall|i: int, j: int| 0 <= i < n && 0 <= j < n implies #[trigger] r(i, j) == (if i
        == p {
        plus(times(on_axis(t.c), m(p, j)), times(t.s, m(q, j)))
    } else if i == q {
        plus(times(negated(conjugate(t.s)), m(p, j)), times(on_axis(t.c), m(q, j)))
    } else {
        m(i, j)
    }) by {
        if (i == p || i == q) && j != p && j != q {
            // The entry is the conjugate of the one across the diagonal.
            assert(d(p, j) == conjugate(d(j, p)));
            assert(d(q, j) == conjugate(d(j, q)));
            scaling_is_product(d(j, p), c);
            scaling_is_product(d(j, q), c);
            conjugate_of_real(c);
            conjugate_of_product(on_axis(c), d(j, p));
            conjugate_of_product(on_axis(c), d(j, q));
            if i == p {
                conjugate_of_sum(scaled(d(j, p), c), times(d(j, q), conjugate(t.s)));
                conjugate_of_product(d(j, q), conjugate(t.s));
                conjugate_twice(t.s);
                times_commutes(d(q, j), t.s);
            } else {
                conjugate_of_sum(times(negated(d(j, p)), t.s), scaled(d(j, q), c));
                conjugate_of_product(negated(d(j, p)), t.s);
                opposite_of_product(d(p, j), conjugate(t.s));
                times_commutes(d(p, j), negated(conjugate(t.s)));
            }
        }
    }
}

/// The rotation about a pivot that is not below the tolerance turns in the direction of the
/// pivot, and clears it. The direction, the length of the pivot and the sine are returned.
proof fn chosen_rotation_clears<R: Real, M: Fn(Elementary<R>) -> R>(
    math: M,
    a: spec_fn(int, int) -> Complex<R>,
    p: usize,
    q: usize,
) -> (along: (Complex<R>, R, R))
    requires
        field::<R>(),
        exact_trigonometry(math),
        exact_order::<R>(),
        !less(modulus(math, a(p as int, q as int)), tolerance()),
    ensures
        ({
            let t = rotation(math, a, p, q);
            let (e, size, sin) = along;
            &&& turns_along(t, a, e, size, sin)
            &&& clears(a(p as int, p as int).re, a(q as int, q as int).re, size, t.c, sin)
        }),
{
    let apq = a(p as int, q as int);
    let size = modulus(math, apq);
    let d = minus(a(p as int, p as int).re, a(q as int, q as int).re);
    let theta = times(
        ratio(1, 2),
        value(math, Elementary::Atan2(times(whole(2), size), d)),
    );
    let sin = value(math, Elementary::Sin(theta));
    let e = Complex { re: over(apq.re, size), im: over(apq.im, size) };
    pivot_is_something(size);
    assert(pythagorean(math, apq.re, apq.im));
    direction_has_length_one(apq.re, apq.im, size);
    over_undoes_times(apq.re, size);
    over_undoes_times(apq.im, size);
    over_of_product(sin, apq.re, size);
    over_of_product(sin, apq.im, size);
    times_commutes(sin, e.re);
    times_commutes(sin, e.im);
    assert(balances(math, size, d));
    (e, size, sin)
}

/// A rotation keeps a matrix Hermitian.
pub proof fn rotated_stays_hermitian<R: Real>(
    t: Rotation<R>,
    d: spec_fn(int, int) -> Complex<R>,
    n: nat,
)
    requires
        field::<R>(),
        hermitian(d, n),
        t.p != t.q,
    ensures
        hermitian(rotated(t, d), n),
{
    let r = rotated(t, d);
    opposite_of_nothing::<R>();
    assert forall|i: int, j: int| 0 <= i < n && 0 <= j < n implies #[trigger] r(j, i) == conjugate(
        r(i, j),
    ) by {
        conjugate_twice(turned_p(t, d, i));
        conjugate_twice(turned_p(t, d, j));
        conjugate_twice(turned_q(t, d, i));
        conjugate_twice(turned_q(t, d, j));
        assert(d(j, i) == conjugate(d(i, j)));
    }
}

proof fn iteration_keeps_decomposition<R: Real, M: Fn(Elementary<R>) -> R>(
    math: M,
    n: nat,
    r: spec_fn(int, int) -> Complex<R>,
    a: spec_fn(int, int) -> Complex<R>,
    v: spec_fn(int, int) -> Complex<R>,
    rounds: nat,
)
    requires
        field::<R>(),
        powers_tell::<R>(),
        two_is_one_and_one::<R>(),
        exact_trigonometry(math),
        exact_order::<R>(),
        n <= usize::MAX,
        hermitian(a, n),
        decomposes(r, v, a, n),
    ensures
        ({
            let (d, w) = diagonalized(math, n as int, a, v, rounds);
            &&& hermitian(d, n)
            &&& decomposes(r, w, d, n)
        }),
    decreases rounds,
{
    if rounds > 0 {
        match best_above(math, a, n as int, n as int) {
            None => {},
            Some(b) => {
                if !less(b.size, tolerance()) {
                    best_of_rows(math, a, n as int, n as int);
                    let t = rotation(math, a, b.p, b.q);
                    chosen_rotation_keeps_lengths(math, a, b.p, b.q);
                    let (e, size, sin) = chosen_rotation_clears(math, a, b.p, b.q);
                    rotated_is_turned_twice(t, a, n, e, size, sin);
                    rotated_stays_hermitian(t, a, n);
                    rotation_keeps_decomposition(t, r, v, a, rotated(t, a), n);
                    iteration_keeps_decomposition(
                        math,
                        n,
                        r,
                        rotated(t, a),
                        turned(t, v),
                        (rounds - 1) as nat,
                    );
                }
            },
        }
    }
}

/// Every matrix is decomposed by the identity and itself.
proof fn identity_decomposes<R: Real>(a: spec_fn(int, int) -> Complex<R>, n: nat)
    requires
        field::<R>(),
        powers_tell::<R>(),
    ensures
        decomposes(a, identity(), a, n),
{
    complex_field::<R>();
    let e = identity::<Complex<R>>();
    assert forall|j: int, k: int| 0 <= j < n && 0 <= k < n implies #[trigger] image(
        a,
        column(e, j),
        n,
    )(k) == image(e, column(a, j), n)(k) by {
        let f = image_terms(a, column(e, j), k);
        let g = image_terms(e, column(a, j), k);
        assert forall|i: int| 0 <= i < n && i != j implies #[trigger] f(i) == whole::<Complex<R>>(
            0,
        ) by {
            times_nothing(a(k, i));
        }
        assert forall|i: int| 0 <= i < n && i != k implies #[trigger] g(i) == whole::<Complex<R>>(
            0,
        ) by {
            times_nothing(a(i, j));
        }
        total_of_one(f, j, n);
        total_of_one(g, k, n);
        times_one(a(k, j));
    }
}

/// Where nothing is rounded, the rotations decompose every Hermitian matrix: it takes each
/// eigenvector to the product of the eigenvectors and a column of what is left of the
/// matrix, which is Hermitian again.
pub proof fn rotations_decompose<R: Real, M: Fn(Elementary<R>) -> R>(
    math: M,
    a: spec_fn(int, int) -> Complex<R>,
    n: nat,
    rounds: nat,
)
    requires
        field::<R>(),
        powers_tell::<R>(),
        two_is_one_and_one::<R>(),
        exact_trigonometry(math),
        exact_order::<R>(),
        n <= usize::MAX,
        hermitian(a, n),
    ensures
        ({
            let (d, v) = diagonalized(math, n as int, a, identity(), rounds);
            &&& hermitian(d, n)
            &&& decomposes(a, v, d, n)
        }),
{
    identity_decomposes(a, n);
    iteration_keeps_decomposition(math, n, a, a, identity(), rounds);
}

/// What is left off the diagonal in column `j`, weighted by row `k` of the eigenvectors.
pub open spec fn leftover_terms<R: Real>(
    d: spec_fn(int, int) -> Complex<R>,
    v: spec_fn(int, int) -> Complex<R>,
    j: int,
    k: int,
) -> spec_fn(int) -> Complex<R> {
    |i: int|
        if i == j {
            whole(0)
        } else {
            times(v(k, i), d(i, j))
        }
}

/// Where nothing is rounded, a Hermitian matrix takes each column of the spectrum to its
/// multiple by the value of the column, but for what the rotations have left off the
/// diagonal.
pub proof fn spectrum_is_of_eigenpairs_but_for_the_rest<R: Real, M: Fn(Elementary<R>) -> R>(
    math: M,
    a: spec_fn(int, int) -> Complex<R>,
    n: nat,
    j: int,
    k: int,
)
    requires
        field::<R>(),
        powers_tell::<R>(),
        two_is_one_and_one::<R>(),
        exact_trigonometry(math),
        exact_order::<R>(),
        n <= usize::MAX,
        hermitian(a, n),
        0 <= j < n,
        0 <= k < n,
    ensures
        ({
            let (values, v) = spectrum(math, a, n);
            let d = diagonalized(math, n as int, a, identity(), 50 * n).0;
            image(a, column(v, j), n)(k) == plus(
                scaled(v(k, j), values[j]),
                total(whole(0), leftover_terms(d, v, j, k), n),
            )
        }),
{
    complex_field::<R>();
    rotations_decompose(math, a, n, 50 * n);
    let (d, v) = diagonalized(math, n as int, a, identity(), 50 * n);
    assert(image(a, column(v, j), n)(k) == image(v, column(d, j), n)(k));
    let f = image_terms(v, column(d, j), k);
    let rest = leftover_terms(d, v, j, k);
    let own = |i: int|
        if i == j {
            f(j)
        } else {
            whole(0)
        };
    assert forall|i: int| 0 <= i < n implies #[trigger] f(i) == plus(own(i), rest(i)) by {
        plus_nothing(f(i));
    }
    total_of_sums(own, rest, f, n);
    total_of_one(own, j, n);
    assert(d(j, j) == on_axis(d(j, j).re));
    scaling_is_product(v(k, j), d(j, j).re);
}

/// Where the rotations leave nothing off the diagonal, the columns of the spectrum are
/// eigenvectors, and its values are their eigenvalues.
pub proof fn spectrum_is_of_eigenpairs<R: Real, M: Fn(Elementary<R>) -> R>(
    math: M,
    a: spec_fn(int, int) -> Complex<R>,
    n: nat,
    j: int,
    k: int,
)
    requires
        field::<R>(),
        powers_tell::<R>(),
        two_is_one_and_one::<R>(),
        exact_trigonometry(math),
        exact_order::<R>(),
        n <= usize::MAX,
        hermitian(a, n),
        forall|i: int|
            0 <= i < n && i != j ==> #[trigger] diagonalized(
                math,
                n as int,
                a,
                identity(),
                50 * n,
            ).0(i, j) == whole::<Complex<R>>(0),
        0 <= j < n,
        0 <= k < n,
    ensures
        ({
            let (values, v) = spectrum(math, a, n);
            image(a, column(v, j), n)(k) == scaled(v(k, j), values[j])
        }),
{
    complex_field::<R>();
    spectrum_is_of_eigenpairs_but_for_the_rest(math, a, n, j, k);
    let (d, v) = diagonalized(math, n as int, a, identity(), 50 * n);
    let rest = leftover_terms(d, v, j, k);
    assert forall|i: int| 0 <= i < n implies #[trigger] rest(i) == whole::<Complex<R>>(0) by {
        if i != j {
            assert(d(i, j) == whole::<Complex<R>>(0));
            times_nothing(v(k, i));
        }
    }
    total_of_nothing(rest, n);
    plus_nothing(scaled(v(k, j), d(j, j).re));
}

/// The number of rotations that the iteration makes.
pub open spec fn rotations_made<R: Real, M: Fn(Elementary<R>) -> R>(
    math: M,
    n: int,
    a: spec_fn(int, int) -> Complex<R>,
    rounds: nat,
) -> nat
    decreases rounds,
{
    if rounds == 0 {
        0
    } else {
        match best_above(math, a, n, n) {
            None => 0,
            Some(b) => if less(b.size, tolerance()) {
                0
            } else {
                1 + rotations_made(
                    math,
                    n,
                    rotated(rotation(math, a, b.p, b.q), a),
                    (rounds - 1) as nat,
                )
            },
        }
    }
}

/// An iteration that ends before its rounds are used up leaves every entry above the
/// diagonal below the tolerance.
pub proof fn what_is_left_is_small<R: Real, M: Fn(Elementary<R>) -> R>(
    math: M,
    n: nat,
    a: spec_fn(int, int) -> Complex<R>,
    v: spec_fn(int, int) -> Complex<R>,
    rounds: nat,
    i: int,
    j: int,
)
    requires
        exact_order::<R>(),
        n <= usize::MAX,
        0 <= i < j < n,
        rotations_made(math, n as int, a, rounds) < rounds,
    ensures
        less(modulus(math, diagonalized(math, n as int, a, v, rounds).0(i, j)), tolerance()),
    decreases rounds,
{
    let best = best_above(math, a, n as int, n as int);
    if best is Some && !less(best->Some_0.size, tolerance()) {
        let t = rotation(math, a, best->Some_0.p, best->Some_0.q);
        what_is_left_is_small(
            math,
            n,
            rotated(t, a),
            turned(t, v),
            (rounds - 1) as nat,
            i,
            j,
        );
    } else {
        let m = modulus(math, a(i, j));
        pivot_is_the_largest(math, a, n as int, i, j);
        assert(comparable(tolerance(), m) && comparable(m, held(best)) && comparable(
            tolerance(),
            held(best),
        ));
    }
}

/// Where the rotations leave nothing off the diagonal, what [`crate::eigen::eigen_hermitian`]
/// returns are eigenvalues in descending order and their eigenvectors.
pub proof fn eigenpairs_in_order<R: Real, M: Fn(Elementary<R>) -> R>(
    math: M,
    a: spec_fn(int, int) -> Complex<R>,
    n: nat,
    j: int,
    k: int,
)
    requires
        field::<R>(),
        powers_tell::<R>(),
        two_is_one_and_one::<R>(),
        exact_trigonometry(math),
        exact_order::<R>(),
        n <= usize::MAX,
        hermitian(a, n),
        forall|r: int, c: int|
            0 <= r < n && 0 <= c < n && r != c ==> #[trigger] diagonalized(
                math,
                n as int,
                a,
                identity(),
                50 * n,
            ).0(r, c) == whole::<Complex<R>>(0),
        0 <= j < n,
        0 <= k < n,
    ensures
        ({
            let (d, v) = spectrum(math, a, n);
            let order = ranking(d, n);
            let (values, vectors) = (arranged(d, order), columns_arranged(v, order));
            &&& image(a, column(vectors, j), n)(k) == scaled(vectors(k, j), values[j])
            &&& j + 1 < n ==> !less(values[j], values[j + 1])
        }),
{
    let (d, v) = spectrum(math, a, n);
    let order = ranking(d, n);
    ranking_is_of_indices(d, n);
    let c = order[j] as int;
    assert(0 <= order[j] < n);
    spectrum_is_of_eigenpairs(math, a, n, c, k);
    assert(column(columns_arranged(v, order), j) =~= column(v, c));
    assert(rankable(d)) by {
        assert forall|x: int, y: int|
            0 <= x < d.len() && 0 <= y < d.len() && x != y implies #[trigger] comparable(
            d[x],
            d[y],
        ) by {}
    }
    if j + 1 < n {
        eigenvalues_descend(d, j, j + 1);
    }
}

// ---- the trace --------------------------------------------------------------

/// The entries on the diagonal.
pub open spec fn diagonal<T>(a: spec_fn(int, int) -> T) -> spec_fn(int) -> T {
    |i: int| a(i, i)
}

/// Where nothing is rounded, a rotation that keeps lengths keeps the trace of a Hermitian
/// matrix.
pub proof fn rotation_keeps_the_trace<R: Real>(
    t: Rotation<R>,
    d: spec_fn(int, int) -> Complex<R>,
    n: nat,
)
    requires
        field::<R>(),
        powers_tell::<R>(),
        hermitian(d, n),
        keeps_lengths(t),
        t.p < n,
        t.q < n,
    ensures
        total(whole(0), diagonal(rotated(t, d)), n) == total(whole(0), diagonal(d), n),
{
    complex_field::<R>();
    let (p, q) = (t.p as int, t.q as int);
    let (x, y) = (d(p, p).re, d(q, q).re);
    let (cc, ss) = (times(t.c, t.c), power(t.s));
    let k = cross_part(t, d);
    times_regroups(x, t.c, t.c);
    times_regroups(y, t.c, t.c);
    let (a, b) = (plus(times(x, cc), times(y, ss)), plus(times(x, ss), times(y, cc)));
    minus_adds_opposite(b, k);
    plus_exchanges(a, k, b, negated(k));
    opposites_cancel(k);
    plus_nothing(plus(a, b));
    plus_exchanges(times(x, cc), times(y, ss), times(x, ss), times(y, cc));
    times_distributes(x, cc, ss);
    times_distributes(y, ss, cc);
    plus_commutes(ss, cc);
    times_one(x);
    times_one(y);
    assert(plus(plus(a, k), minus(b, k)) == plus(x, y));
    assert(d(p, p).im == whole::<R>(0) && d(q, q).im == whole::<R>(0));
    totals_agree(diagonal(rotated(t, d)), diagonal(d), p, q, n);
}

/// Where nothing is rounded, the rotations keep the trace of a Hermitian matrix.
pub proof fn rotations_keep_the_trace<R: Real, M: Fn(Elementary<R>) -> R>(
    math: M,
    n: nat,
    a: spec_fn(int, int) -> Complex<R>,
    v: spec_fn(int, int) -> Complex<R>,
    rounds: nat,
)
    requires
        field::<R>(),
        powers_tell::<R>(),
        exact_trigonometry(math),
        exact_order::<R>(),
        n <= usize::MAX,
        hermitian(a, n),
    ensures
        total(whole(0), diagonal(diagonalized(math, n as int, a, v, rounds).0), n) == total(
            whole(0),
            diagonal(a),
            n,
        ),
    decreases rounds,
{
    if rounds > 0 {
        match best_above(math, a, n as int, n as int) {
            None => {},
            Some(b) => {
                if !less(b.size, tolerance()) {
                    best_of_rows(math, a, n as int, n as int);
                    let t = rotation(math, a, b.p, b.q);
                    chosen_rotation_keeps_lengths(math, a, b.p, b.q);
                    rotation_keeps_the_trace(t, a, n);
                    rotated_stays_hermitian(t, a, n);
                    rotations_keep_the_trace(
                        math,
                        n,
                        rotated(t, a),
                        turned(t, v),
                        (rounds - 1) as nat,
                    );
                }
            },
        }
    }
}

} // verus!
