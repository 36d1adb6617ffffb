//! That ESPRIT gives back the directions of arrival where nothing is rounded and no noise is
//! received.
use vstd::prelude::*;
use crate::complex::{angle, phasor, Complex};
use crate::exact::{
    at_most, complex_field, counts_add, counts_keep_order, field, minus_adds_opposite, nothing_over,
    one_is_positive, opposite_of_product, opposite_of_sum, opposite_twice, opposites_cancel,
    order_decides, order_is_total, ordered_field, ordered_powers_tell, plus_cancels, plus_commutes,
    plus_exchanges, plus_nothing, plus_regroups, products_have_signs, quotient_is_unique,
    quotients_have_signs, sum_of_counts, sums_multiply, times_commutes, times_distributes,
    times_distributes_minus, times_exchanges, times_nothing, times_one, times_regroups,
};
use crate::forms::{measures_lengths, nothing_is_no_pivot};
use crate::linalg::{
    adjoint, all_pivots_used, equal_products, identity, identity_times, product, product_terms,
    products_regroup, times_identity, usable_pivot,
};
use crate::scalar::{
    answer, comparable, count, less, minus, negated, over, plus, ratio, times, total, value, whole,
    Elementary, Real, Scalar,
};
use crate::super_res::{
    arrival, determinant, direction, eigenbasis, eigenvalue_pair, eigenvalue_pair_solves,
    esprit_directions, esprit_recovers_the_rotation, esprit_result, line_position, rows_from,
    sine_of_degrees, steering, subarray_rotation, trace,
};
use crate::table::Matrix;

verus! {

// ---- one direction ----------------------------------------------------------

/// The phase between neighbouring elements of a wave from the direction `t`, in degrees.
pub open spec fn step_phase<R: Real, M: Fn(Elementary<R>) -> R>(math: M, t: R) -> R {
    times(
        times(times(whole(-2), value(math, Elementary::Pi)), ratio(1, 2)),
        sine_of_degrees(math, t),
    )
}

/// The direction `t` can be read back: the measure of the angle of the phasor undoes the
/// phasor, the arcsine undoes the sine, and degrees undo radians.
pub open spec fn read_back<R: Real, M: Fn(Elementary<R>) -> R>(math: M, t: R) -> bool {
    &&& angle(math, phasor(math, step_phase(math, t))) == step_phase(math, t)
    &&& value(math, Elementary::Asin(sine_of_degrees(math, t))) == value(
        math,
        Elementary::ToRadians(t),
    )
    &&& value(math, Elementary::ToDegrees(value(math, Elementary::ToRadians(t)))) == t
}

/// Where nothing is rounded, the direction that ESPRIT makes of the rotation between
/// neighbouring elements is the direction that the wave comes from.
pub proof fn direction_undoes_arrival<R: Real, M: Fn(Elementary<R>) -> R>(math: M, t: R)
    requires
        field::<R>(),
        whole::<R>(-2) == negated(whole::<R>(2)),
        times(times(whole(2), value(math, Elementary::Pi)), ratio(1, 2)) != whole::<R>(0),
        read_back(math, t),
    ensures
        direction(math, arrival(math, ratio(1, 2), sine_of_degrees(math, t))) == t,
{
    let pi = value(math, Elementary::Pi);
    let half: R = ratio(1, 2);
    let s = sine_of_degrees(math, t);
    let whole_turn = times(times(whole(2), pi), half);
    opposite_of_product(whole(2), pi);
    opposite_of_product(times(whole(2), pi), half);
    opposite_of_product(whole_turn, s);
    opposite_twice(times(whole_turn, s));
    assert(negated(step_phase(math, t)) == times(whole_turn, s));
    times_commutes(whole_turn, s);
    quotient_is_unique(s, times(whole_turn, s), whole_turn);
}

// ---- two by two -------------------------------------------------------------

/// An entry of a product of two columns and two rows.
proof fn product_of_two<T: Scalar>(
    a: spec_fn(int, int) -> T,
    b: spec_fn(int, int) -> T,
    i: int,
    j: int,
)
    requires
        field::<T>(),
    ensures
        product(a, b, 2)(i, j) == plus(times(a(i, 0), b(0, j)), times(a(i, 1), b(1, j))),
{
    let f = product_terms(a, b, i, j);
    reveal_with_fuel(total, 3);
    assert(total(whole(0), f, 2) == plus(plus(whole(0), f(0)), f(1)));
    plus_commutes(whole(0), f(0));
    plus_nothing(f(0));
}

/// What two sums share leaves no trace in their difference.
proof fn shared_terms_leave<T: Scalar>(k: T, p: T, q: T)
    requires
        field::<T>(),
    ensures
        minus(plus(k, p), plus(k, q)) == minus(p, q),
{
    minus_adds_opposite(plus(k, p), plus(k, q));
    opposite_of_sum(k, q);
    plus_exchanges(k, p, negated(k), negated(q));
    opposites_cancel(k);
    minus_adds_opposite(p, q);
    plus_commutes(whole(0), minus(p, q));
    plus_nothing(minus(p, q));
}

/// The determinant of a product is the product of the determinants.
proof fn determinant_of_product<R: Real>(
    m: spec_fn(int, int) -> Complex<R>,
    k: spec_fn(int, int) -> Complex<R>,
)
    requires
        field::<Complex<R>>(),
    ensures
        determinant(product(m, k, 2)) == times(determinant(m), determinant(k)),
{
    let (a, b, c, d) = (m(0, 0), m(0, 1), m(1, 0), m(1, 1));
    let (e, f, g, h) = (k(0, 0), k(0, 1), k(1, 0), k(1, 1));
    product_of_two(m, k, 0, 0);
    product_of_two(m, k, 0, 1);
    product_of_two(m, k, 1, 0);
    product_of_two(m, k, 1, 1);
    let x = times(times(a, c), times(e, f));
    let y = times(times(b, d), times(g, h));
    let (ad, bc, eh, fg) = (times(a, d), times(b, c), times(e, h), times(f, g));
    sums_multiply(times(a, e), times(b, g), times(c, f), times(d, h));
    times_exchanges(a, e, c, f);
    times_exchanges(a, e, d, h);
    times_exchanges(b, g, c, f);
    times_commutes(g, f);
    times_exchanges(b, g, d, h);
    sums_multiply(times(a, f), times(b, h), times(c, e), times(d, g));
    times_exchanges(a, f, c, e);
    times_commutes(f, e);
    times_exchanges(a, f, d, g);
    times_exchanges(b, h, c, e);
    times_commutes(h, e);
    times_exchanges(b, h, d, g);
    times_commutes(h, g);
    let (u, v, w, z) = (times(ad, eh), times(bc, fg), times(ad, fg), times(bc, eh));
    plus_commutes(v, y);
    plus_exchanges(x, u, y, v);
    plus_commutes(z, y);
    plus_exchanges(x, w, y, z);
    shared_terms_leave(plus(x, y), plus(u, v), plus(w, z));
    assert(determinant(product(m, k, 2)) == minus(plus(u, v), plus(w, z)));
    // The product of the two differences.
    let n = minus(eh, fg);
    times_distributes_minus(n, ad, bc);
    times_commutes(ad, n);
    times_commutes(bc, n);
    times_distributes_minus(ad, eh, fg);
    times_distributes_minus(bc, eh, fg);
    times_commutes(eh, ad);
    times_commutes(fg, ad);
    times_commutes(eh, bc);
    times_commutes(fg, bc);
    assert(times(determinant(m), determinant(k)) == minus(minus(u, w), minus(z, v)));
    minus_adds_opposite(u, w);
    minus_adds_opposite(z, v);
    minus_adds_opposite(minus(u, w), minus(z, v));
    opposite_of_sum(z, negated(v));
    opposite_twice(v);
    plus_commutes(negated(z), v);
    plus_exchanges(u, negated(w), v, negated(z));
    opposite_of_sum(w, z);
    minus_adds_opposite(plus(u, v), plus(w, z));
}

/// The trace of a product does not depend on which factor comes first.
proof fn trace_of_product<R: Real>(
    m: spec_fn(int, int) -> Complex<R>,
    k: spec_fn(int, int) -> Complex<R>,
)
    requires
        field::<Complex<R>>(),
    ensures
        trace(product(m, k, 2)) == trace(product(k, m, 2)),
{
    product_of_two(m, k, 0, 0);
    product_of_two(m, k, 1, 1);
    product_of_two(k, m, 0, 0);
    product_of_two(k, m, 1, 1);
    times_commutes(m(0, 0), k(0, 0));
    times_commutes(m(0, 1), k(1, 0));
    times_commutes(m(1, 0), k(0, 1));
    times_commutes(m(1, 1), k(1, 1));
    plus_exchanges(
        times(k(0, 0), m(0, 0)),
        times(k(1, 0), m(0, 1)),
        times(k(0, 1), m(1, 0)),
        times(k(1, 1), m(1, 1)),
    );
}

/// Two pairs with the same sum and the same product are the same pair.
proof fn sum_and_product_tell<T: Scalar>(p: T, q: T, y: T, z: T)
    requires
        field::<T>(),
        plus(p, q) == plus(y, z),
        times(p, q) == times(y, z),
    ensures
        (p == y && q == z) || (p == z && q == y),
{
    if p == y {
        plus_commutes(y, q);
        plus_commutes(y, z);
        plus_cancels(q, z, y);
    } else {
        // The differences of `p` from the other two multiply to nothing.
        let (pp, pz, yp, yz) = (times(p, p), times(p, z), times(y, p), times(y, z));
        times_distributes(p, p, q);
        times_distributes(p, y, z);
        times_commutes(p, y);
        assert(plus(pp, yz) == plus(yp, pz));
        let n = minus(p, z);
        let d = minus(p, y);
        times_distributes_minus(n, p, y);
        times_commutes(p, n);
        times_commutes(y, n);
        times_distributes_minus(p, p, z);
        times_distributes_minus(y, p, z);
        times_commutes(z, p);
        times_commutes(z, y);
        times_commutes(p, y);
        assert(times(d, n) == minus(minus(pp, pz), minus(yp, yz)));
        minus_adds_opposite(pp, pz);
        minus_adds_opposite(yp, yz);
        let s = plus(pz, yz);
        plus_exchanges(pp, negated(pz), yz, pz);
        plus_commutes(negated(pz), pz);
        opposites_cancel(pz);
        plus_nothing(plus(pp, yz));
        plus_exchanges(yp, negated(yz), pz, yz);
        plus_commutes(negated(yz), yz);
        opposites_cancel(yz);
        plus_nothing(plus(yp, pz));
        plus_commutes(yz, pz);
        plus_cancels(minus(pp, pz), minus(yp, yz), s);
        minus_adds_opposite(minus(pp, pz), minus(yp, yz));
        opposites_cancel(minus(pp, pz));
        assert(times(d, n) == whole::<T>(0));
        minus_adds_opposite(p, y);
        opposites_cancel(y);
        if d == whole::<T>(0) {
            plus_cancels(p, y, negated(y));
        }
        times_commutes(n, d);
        quotient_is_unique(n, whole(0), d);
        nothing_over(d);
        minus_adds_opposite(p, z);
        opposites_cancel(z);
        plus_cancels(p, z, negated(z));
        plus_commutes(z, q);
        plus_cancels(q, y, z);
    }
}

// ---- two directions ---------------------------------------------------------

/// How the two waves turn from one element to the next, as a diagonal matrix.
pub open spec fn turns<R: Real, M: Fn(Elementary<R>) -> R>(math: M, angles: Seq<R>) -> spec_fn(
    int,
    int,
) -> Complex<R> {
    |i: int, j: int|
        if i == j {
            arrival(math, ratio(1, 2), sine_of_degrees(math, angles[i]))
        } else {
            whole(0)
        }
}

/// Phasors of sums are products of phasors.
pub open spec fn phases_add<R: Real, M: Fn(Elementary<R>) -> R>(math: M) -> bool {
    forall|a: R, b: R|
        #[trigger] phasor(math, plus(a, b)) == times(phasor(math, a), phasor(math, b))
}

/// From one element to the next a wave turns by its turn.
proof fn next_element<R: Real, M: Fn(Elementary<R>) -> R>(
    math: M,
    n: int,
    angles: Seq<R>,
    r: int,
    c: int,
)
    requires
        field::<R>(),
        counts_add::<R>(),
        phases_add(math),
        0 <= r,
    ensures
        steering(math, n, angles)(r + 1, c) == times(
            steering(math, n, angles)(r, c),
            turns(math, angles)(c, c),
        ),
{
    let half: R = ratio(1, 2);
    let middle: R = over(count(n - 1), whole(2));
    let turn = times(whole(-2), value(math, Elementary::Pi));
    let s = sine_of_degrees(math, angles[c]);
    let here: R = line_position(n, r);
    assert(count::<R>(r + 1) == plus(count::<R>(r), count::<R>(1)));
    // The next element stands half a wavelength on.
    let (i, one) = (count::<R>(r), whole::<R>(1));
    minus_adds_opposite(plus(i, one), middle);
    minus_adds_opposite(i, middle);
    plus_regroups(i, one, negated(middle));
    plus_commutes(one, negated(middle));
    plus_regroups(i, negated(middle), one);
    let at = minus(i, middle);
    times_commutes(plus(at, one), half);
    times_distributes(half, at, one);
    times_commutes(half, at);
    times_one(half);
    assert(line_position::<R>(n, r + 1) == plus(here, half));
    times_distributes(turn, here, half);
    let (a, b) = (times(turn, here), times(turn, half));
    times_commutes(plus(a, b), s);
    times_distributes(s, a, b);
    times_commutes(s, a);
    times_commutes(s, b);
}

/// The matrix by which the upper subarray of a basis turns into the lower one, where the
/// basis is made of the two steering vectors by `mix`, which `unmix` undoes.
pub open spec fn turned_mix<R: Real, M: Fn(Elementary<R>) -> R>(
    math: M,
    angles: Seq<R>,
    mix: spec_fn(int, int) -> Complex<R>,
    unmix: spec_fn(int, int) -> Complex<R>,
) -> spec_fn(int, int) -> Complex<R> {
    product(unmix, product(turns(math, angles), mix, 2), 2)
}

/// The first two columns of `basis` span the steering vectors of the two directions: `mix`
/// makes them of the steering vectors, and `unmix` undoes `mix`.
pub open spec fn spans<R: Real, M: Fn(Elementary<R>) -> R>(
    math: M,
    n: int,
    angles: Seq<R>,
    basis: spec_fn(int, int) -> Complex<R>,
    mix: spec_fn(int, int) -> Complex<R>,
    unmix: spec_fn(int, int) -> Complex<R>,
) -> bool {
    &&& forall|r: int, c: int|
        0 <= r < n && 0 <= c < 2 ==> #[trigger] basis(r, c) == product(
            steering(math, n, angles),
            mix,
            2,
        )(r, c)
    &&& forall|i: int, j: int|
        0 <= i < 2 && 0 <= j < 2 ==> #[trigger] product(mix, unmix, 2)(i, j) == identity::<
            Complex<R>,
        >()(i, j)
}

/// The lower subarray is the upper one, turned.
proof fn subarrays_are_turned<R: Real, M: Fn(Elementary<R>) -> R>(
    math: M,
    n: int,
    angles: Seq<R>,
    basis: spec_fn(int, int) -> Complex<R>,
    mix: spec_fn(int, int) -> Complex<R>,
    unmix: spec_fn(int, int) -> Complex<R>,
    r: int,
    c: int,
)
    requires
        field::<R>(),
        field::<Complex<R>>(),
        counts_add::<R>(),
        phases_add(math),
        spans(math, n, angles, basis, mix, unmix),
        0 <= r < n - 1,
        0 <= c < 2,
    ensures
        rows_from(basis, 1)(r, c) == product(
            rows_from(basis, 0),
            turned_mix(math, angles, mix, unmix),
            2,
        )(r, c),
{
    let a = steering(math, n, angles);
    let upper = rows_from(basis, 0);
    let phi = turns(math, angles);
    let turned = product(phi, mix, 2);
    let psi = turned_mix(math, angles, mix, unmix);
    let am = product(a, mix, 2);
    // The upper subarray times `psi` is the steering vectors times the turned mix.
    assert forall|k: int| 0 <= k < 2 implies #[trigger] upper(r, k) == am(r, k) by {
        assert(basis(r, k) == am(r, k));
    }
    equal_products(upper, psi, am, psi, 2, r, c);
    products_regroup(a, mix, psi, 2, 2, r, c);
    assert forall|k: int| 0 <= k < 2 implies #[trigger] product(mix, psi, 2)(k, c) == turned(
        k,
        c,
    ) by {
        products_regroup(mix, unmix, turned, 2, 2, k, c);
        assert forall|l: int| 0 <= l < 2 implies #[trigger] product(mix, unmix, 2)(k, l)
            == identity::<Complex<R>>()(k, l) by {}
        equal_products(product(mix, unmix, 2), turned, identity(), turned, 2, k, c);
        identity_times(turned, 2, k, c);
    }
    equal_products(a, product(mix, psi, 2), a, turned, 2, r, c);
    // The next element sees the same, turned.
    products_regroup(a, phi, mix, 2, 2, r, c);
    let ap = product(a, phi, 2);
    assert forall|k: int| 0 <= k < 2 implies #[trigger] ap(r, k) == a(r + 1, k) by {
        product_of_two(a, phi, r, k);
        next_element(math, n, angles, r, k);
        times_nothing(a(r, 0));
        times_nothing(a(r, 1));
        plus_nothing(a(r + 1, k));
        plus_commutes(whole(0), a(r + 1, k));
    }
    product_of_two(ap, mix, r, c);
    product_of_two(a, mix, r + 1, c);
    assert(ap(r, 0) == a(r + 1, 0) && ap(r, 1) == a(r + 1, 1));
    assert(basis(r + 1, c) == am(r + 1, c));
}

/// The turned mix has the turns as its eigenvalues.
proof fn eigenvalues_are_the_turns<R: Real, M: Fn(Elementary<R>) -> R>(
    math: M,
    n: int,
    angles: Seq<R>,
    basis: spec_fn(int, int) -> Complex<R>,
    mix: spec_fn(int, int) -> Complex<R>,
    unmix: spec_fn(int, int) -> Complex<R>,
)
    requires
        field::<Complex<R>>(),
        spans(math, n, angles, basis, mix, unmix),
    ensures
        ({
            let psi = turned_mix(math, angles, mix, unmix);
            let phi = turns(math, angles);
            &&& trace(psi) == plus(phi(0, 0), phi(1, 1))
            &&& determinant(psi) == times(phi(0, 0), phi(1, 1))
        }),
{
    let phi = turns(math, angles);
    let turned = product(phi, mix, 2);
    let one: Complex<R> = whole(1);
    let zero: Complex<R> = whole(0);
    let mu = product(mix, unmix, 2);
    assert(mu(0, 0) == one && mu(1, 1) == one && mu(0, 1) == zero && mu(1, 0) == zero);
    // The trace.
    trace_of_product(unmix, turned);
    let back = product(turned, unmix, 2);
    assert forall|i: int| 0 <= i < 2 implies #[trigger] back(i, i) == phi(i, i) by {
        products_regroup(phi, mix, unmix, 2, 2, i, i);
        assert forall|l: int| 0 <= l < 2 implies #[trigger] mu(l, i) == identity::<Complex<R>>()(
            l,
            i,
        ) by {}
        equal_products(phi, mu, phi, identity(), 2, i, i);
        times_identity(phi, 2, i, i);
    }
    assert(back(0, 0) == phi(0, 0) && back(1, 1) == phi(1, 1));
    // The determinant.
    determinant_of_product(unmix, turned);
    determinant_of_product(phi, mix);
    determinant_of_product(mix, unmix);
    times_one(one);
    times_nothing(zero);
    minus_adds_opposite(one, zero);
    opposites_cancel(zero);
    plus_commutes(zero, negated(zero));
    plus_nothing(negated(zero));
    plus_nothing(one);
    assert(determinant(mu) == one);
    let (u, f, m) = (determinant(unmix), determinant(phi), determinant(mix));
    times_commutes(u, times(f, m));
    times_regroups(f, m, u);
    times_one(f);
    let z = times(phi(0, 0), phi(1, 1));
    minus_adds_opposite(z, zero);
    plus_nothing(z);
}

/// Where nothing is rounded, ESPRIT gives back the two directions, if the first two columns
/// of the basis span their steering vectors and elimination passes over no column.
pub proof fn esprit_finds_the_directions<
    R: Real,
    M: Fn(Elementary<R>) -> R,
    Q: Fn(Complex<R>) -> Complex<R>,
>(
    math: M,
    root: Q,
    n: int,
    angles: Seq<R>,
    basis: spec_fn(int, int) -> Complex<R>,
    mix: spec_fn(int, int) -> Complex<R>,
    unmix: spec_fn(int, int) -> Complex<R>,
)
    requires
        ordered_field::<R>(),
        counts_add::<R>(),
        whole::<R>(-2) == negated(whole::<R>(2)),
        less(whole(0), value(math, Elementary::Pi)),
        measures_lengths(math),
        phases_add(math),
        forall|z: Complex<R>| times(#[trigger] answer(root, z), answer(root, z)) == z,
        1 <= n,
        angles.len() == 2,
        read_back(math, angles[0]),
        read_back(math, angles[1]),
        spans(math, n, angles, basis, mix, unmix),
        all_pivots_used(
            product(adjoint(rows_from(basis, 0)), rows_from(basis, 0), (n - 1) as nat),
            usable_pivot(math),
            2,
        ),
    ensures
        ({
            let found = esprit_directions(math, root, basis, n, 2);
            ||| found == (angles[0], angles[1])
            ||| found == (angles[1], angles[0])
        }),
{
    order_is_total::<R>();
    ordered_powers_tell::<R>();
    complex_field::<R>();
    nothing_is_no_pivot(math);
    // Small whole numbers.
    let two: R = whole(2);
    sum_of_counts::<R>(1, 1);
    sum_of_counts::<R>(2, 2);
    times_distributes(two, whole(1), whole(1));
    times_one(two);
    counts_keep_order::<R>(0, 2);
    one_is_positive::<R>();
    quotients_have_signs(whole(1), two);
    let pi = value(math, Elementary::Pi);
    order_decides(whole(0), two);
    order_decides(whole(0), pi);
    products_have_signs(two, pi);
    order_decides(whole(0), times(two, pi));
    order_decides(whole(0), ratio::<R>(1, 2));
    products_have_signs(times(two, pi), ratio(1, 2));
    order_decides(whole(0), times(times(two, pi), ratio(1, 2)));
    // The rotation between the subarrays.
    let psi = turned_mix(math, angles, mix, unmix);
    let found = subarray_rotation(math, basis, n, 2);
    assert forall|r: int, c: int| 0 <= r < n - 1 && 0 <= c < 2 implies #[trigger] rows_from(
        basis,
        1,
    )(r, c) == product(rows_from(basis, 0), psi, 2)(r, c) by {
        subarrays_are_turned(math, n, angles, basis, mix, unmix, r, c);
    }
    assert forall|i: int, j: int| 0 <= i < 2 && 0 <= j < 2 implies #[trigger] found(i, j) == psi(
        i,
        j,
    ) by {
        esprit_recovers_the_rotation(math, basis, psi, n, 2, i, j);
    }
    assert(found(0, 0) == psi(0, 0) && found(0, 1) == psi(0, 1));
    assert(found(1, 0) == psi(1, 0) && found(1, 1) == psi(1, 1));
    // Its eigenvalues.
    eigenvalues_are_the_turns(math, n, angles, basis, mix, unmix);
    eigenvalue_pair_solves(root, found);
    let pair = eigenvalue_pair(root, found);
    let phi = turns(math, angles);
    sum_and_product_tell(pair[0], pair[1], phi(0, 0), phi(1, 1));
    direction_undoes_arrival(math, angles[0]);
    direction_undoes_arrival(math, angles[1]);
}

/// Where nothing is rounded, the ESPRIT estimate is the two directions, ascending, if the
/// first two eigenvectors of the covariance span their steering vectors and elimination
/// passes over no column.
pub proof fn esprit_estimates_the_directions<
    R: Real,
    M: Fn(Elementary<R>) -> R,
    Q: Fn(Complex<R>) -> Complex<R>,
>(
    math: M,
    root: Q,
    n: int,
    angles: Seq<R>,
    snapshots: Matrix<Complex<R>>,
    mix: spec_fn(int, int) -> Complex<R>,
    unmix: spec_fn(int, int) -> Complex<R>,
)
    requires
        ordered_field::<R>(),
        counts_add::<R>(),
        whole::<R>(-2) == negated(whole::<R>(2)),
        less(whole(0), value(math, Elementary::Pi)),
        measures_lengths(math),
        phases_add(math),
        forall|z: Complex<R>| times(#[trigger] answer(root, z), answer(root, z)) == z,
        1 <= n,
        angles.len() == 2,
        at_most(angles[0], angles[1]),
        read_back(math, angles[0]),
        read_back(math, angles[1]),
        spans(math, n, angles, eigenbasis(math, snapshots), mix, unmix),
        all_pivots_used(
            product(
                adjoint(rows_from(eigenbasis(math, snapshots), 0)),
                rows_from(eigenbasis(math, snapshots), 0),
                (n - 1) as nat,
            ),
            usable_pivot(math),
            2,
        ),
    ensures
        esprit_result(math, root, n, snapshots, 2) == Some(angles),
{
    let basis = eigenbasis(math, snapshots);
    esprit_finds_the_directions(math, root, n, angles, basis, mix, unmix);
    order_is_total::<R>();
    order_decides(angles[0], angles[1]);
    let found = esprit_directions(math, root, basis, n, 2);
    assert(comparable(found.0, found.1));
    assert(esprit_result(math, root, n, snapshots, 2)->Some_0 =~= angles);
}

} // verus!
