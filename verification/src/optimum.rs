//! The MVDR weights where nothing is rounded: with diagonal loading they exist, let the look
//! direction pass undistorted, and have less output power than any other weights that do.
use vstd::prelude::*;
use crate::complex::{conjugate, divided, power, Complex};
use crate::exact::{
    at_most, complex_field, counts_add, counts_keep_order, field, minus_adds_opposite, on_axis,
    on_circle, one_is_positive, one_is_something, opposite_of_nothing, opposites_cancel,
    order_chains, order_decides, order_is_total, ordered_field, ordered_powers_tell,
    over_of_product, phasors_have_power_one, plus_cancels, plus_commutes, plus_keeps_order,
    plus_nothing, powers_tell, products_have_signs, quotients_have_signs, scaling_is_product,
    squares_are_positive, sums_keep_order, times_commutes, times_distributes, times_nothing,
    times_one, times_regroups, total_of_multiples, total_of_nothing, total_of_one, total_of_sums,
};
use crate::forms::{
    bounded_forms_are_definite, definite_matrices_use_every_pivot, entries_are_part_of_the_length,
    form, form_of_gram, measures_lengths, nothing_is_no_pivot,
};
use crate::linalg::{
    adjoint, all_pivots_used, image, image_terms, inner_terms, inverse, inverse_solves, pivot_floor,
    product, usable_pivot,
};
use crate::scalar::{
    count, equal_terms, less, minus, negated, over, plus, times, value, whole, Elementary, Real,
};
use crate::similarity::{combines, inner, inner_is_hermitian, inner_with_combination};
use crate::super_res::{
    capon, covariance, covariance_is_hermitian, loaded, look_response, look_vector,
    mvdr_has_least_power, mvdr_is_distortionless, sine_of_degrees,
};
use crate::table::Matrix;

verus! {

/// Dividing by a real number is multiplication by its reciprocal.
proof fn divided_is_product<R: Real>(z: Complex<R>, t: R)
    requires
        field::<R>(),
        t != whole::<R>(0),
    ensures
        divided(z, t) == times(on_axis(over(whole(1), t)), z),
{
    times_one(z.re);
    times_one(z.im);
    over_of_product(z.re, whole(1), t);
    over_of_product(z.im, whole(1), t);
    scaling_is_product(z, over(whole(1), t));
}

/// Where nothing is rounded, the form of a covariance is at least nothing: it is the mean
/// power of what the vector lets pass of the snapshots.
pub proof fn covariance_has_positive_forms<R: Real>(
    x: spec_fn(int, int) -> Complex<R>,
    n_snapshots: nat,
    z: spec_fn(int) -> Complex<R>,
    n: nat,
)
    requires
        ordered_field::<R>(),
        counts_add::<R>(),
        1 <= n_snapshots,
    ensures
        form(covariance(x, n_snapshots), z, z, n).re == over(
            inner(image(adjoint(x), z, n), image(adjoint(x), z, n), n_snapshots).re,
            count(n_snapshots as int),
        ),
        at_most(whole(0), form(covariance(x, n_snapshots), z, z, n).re),
{
    order_is_total::<R>();
    ordered_powers_tell::<R>();
    complex_field::<R>();
    let c: R = count(n_snapshots as int);
    counts_keep_order::<R>(0, n_snapshots as int);
    assert(count::<R>(0) == whole::<R>(0));
    order_decides(whole(0), c);
    let share: R = over(whole(1), c);
    let q = on_axis(share);
    let zero: Complex<R> = whole(0);
    let gram = product(x, adjoint(x), n_snapshots);
    let r = covariance(x, n_snapshots);
    let rz = image(r, z, n);
    let gz = image(gram, z, n);
    assert forall|i: int| 0 <= i < n implies #[trigger] rz(i) == plus(
        times(q, gz(i)),
        times(zero, gz(i)),
    ) by {
        let before = image_terms(gram, z, i);
        let after = image_terms(r, z, i);
        assert forall|k: int| 0 <= k < n implies #[trigger] after(k) == times(q, before(k)) by {
            divided_is_product(gram(i, k), c);
            times_regroups(q, gram(i, k), z(k));
        }
        total_of_multiples(q, before, after, n);
        times_commutes(zero, gz(i));
        times_nothing(gz(i));
        plus_nothing(times(q, gz(i)));
    }
    assert(combines(rz, q, gz, zero, gz, n));
    inner_with_combination(z, rz, q, gz, zero, gz, n);
    let f = form(gram, z, z, n);
    times_commutes(zero, f);
    times_nothing(f);
    plus_nothing(times(q, f));
    scaling_is_product(f, share);
    times_one(f.re);
    over_of_product(f.re, whole(1), c);
    form_of_gram(x, z, n, n_snapshots);
    let y = image(adjoint(x), z, n);
    entries_are_part_of_the_length(y, n_snapshots, 0);
    one_is_positive::<R>();
    quotients_have_signs(whole(1), c);
    order_decides(whole(0), share);
    products_have_signs(f.re, share);
}

/// The image of a vector under the loaded covariance: that under the covariance, and the
/// vector taken `loading` times.
proof fn image_under_loading<R: Real>(
    x: spec_fn(int, int) -> Complex<R>,
    n_snapshots: nat,
    loading: R,
    z: spec_fn(int) -> Complex<R>,
    n: nat,
    i: int,
)
    requires
        field::<R>(),
        powers_tell::<R>(),
        count::<R>(n_snapshots as int) != whole::<R>(0),
        0 <= i < n,
    ensures
        image(loaded(x, n_snapshots, loading), z, n)(i) == plus(
            times(whole(1), image(covariance(x, n_snapshots), z, n)(i)),
            times(on_axis(loading), z(i)),
        ),
{
    complex_field::<R>();
    covariance_is_hermitian(x, n_snapshots, n);
    let r = covariance(x, n_snapshots);
    let l = loaded(x, n_snapshots, loading);
    let own = times(on_axis(loading), z(i));
    let f = image_terms(r, z, i);
    let g = |k: int|
        if k == i {
            own
        } else {
            whole(0)
        };
    let h = image_terms(l, z, i);
    assert forall|k: int| 0 <= k < n implies #[trigger] h(k) == plus(f(k), g(k)) by {
        if k == i {
            plus_nothing(r(i, i).im);
            assert(l(i, i) == plus(r(i, i), on_axis(loading)));
            times_commutes(l(i, i), z(i));
            times_distributes(z(i), r(i, i), on_axis(loading));
            times_commutes(z(i), r(i, i));
            times_commutes(z(i), on_axis(loading));
        } else {
            assert(r(i, k) == conjugate(r(k, i)));
            plus_nothing(f(k));
        }
    }
    total_of_sums(f, g, h, n);
    assert forall|k: int| 0 <= k < n && k != i implies #[trigger] g(k) == whole::<Complex<R>>(
        0,
    ) by {}
    total_of_one(g, i, n);
    let ri = image(r, z, n)(i);
    times_commutes(whole(1), ri);
    times_one(ri);
}

/// Where nothing is rounded, diagonal loading is a floor under the output power: the power
/// that any weights let pass is at least `loading` times the squares of the weights.
pub proof fn loading_is_a_floor_under_the_power<R: Real>(
    x: spec_fn(int, int) -> Complex<R>,
    n_snapshots: nat,
    loading: R,
    z: spec_fn(int) -> Complex<R>,
    n: nat,
)
    requires
        ordered_field::<R>(),
        counts_add::<R>(),
        1 <= n_snapshots,
    ensures
        at_most(
            times(inner(z, z, n).re, loading),
            form(loaded(x, n_snapshots, loading), z, z, n).re,
        ),
{
    order_is_total::<R>();
    ordered_powers_tell::<R>();
    complex_field::<R>();
    let c: R = count(n_snapshots as int);
    counts_keep_order::<R>(0, n_snapshots as int);
    assert(count::<R>(0) == whole::<R>(0));
    order_decides(whole(0), c);
    let one: Complex<R> = whole(1);
    let r = covariance(x, n_snapshots);
    let l = loaded(x, n_snapshots, loading);
    let rz = image(r, z, n);
    let lz = image(l, z, n);
    assert forall|i: int| 0 <= i < n implies #[trigger] lz(i) == plus(
        times(one, rz(i)),
        times(on_axis(loading), z(i)),
    ) by {
        image_under_loading(x, n_snapshots, loading, z, n, i);
    }
    assert(combines(lz, one, rz, on_axis(loading), z, n));
    inner_with_combination(z, lz, one, rz, on_axis(loading), z, n);
    let f = form(r, z, z, n);
    let length = inner(z, z, n);
    times_commutes(one, f);
    times_one(f);
    scaling_is_product(length, loading);
    covariance_has_positive_forms(x, n_snapshots, z, n);
    let raised = times(length.re, loading);
    plus_keeps_order(whole(0), f.re, raised);
    plus_commutes(whole(0), raised);
    plus_nothing(raised);
}

/// Where nothing is rounded and the loading is not below the floor under pivots, elimination
/// passes over no column of the loaded covariance.
pub proof fn loaded_covariance_uses_every_pivot<R: Real, M: Fn(Elementary<R>) -> R>(
    math: M,
    x: spec_fn(int, int) -> Complex<R>,
    n_snapshots: nat,
    loading: R,
    n: nat,
)
    requires
        ordered_field::<R>(),
        counts_add::<R>(),
        measures_lengths(math),
        at_most(pivot_floor(), loading),
        1 <= n_snapshots,
    ensures
        all_pivots_used(loaded(x, n_snapshots, loading), usable_pivot(math), n as int),
{
    order_is_total::<R>();
    ordered_powers_tell::<R>();
    nothing_is_no_pivot(math);
    order_chains(whole(0), pivot_floor(), loading);
    order_decides(whole(0), loading);
    let l = loaded(x, n_snapshots, loading);
    assert forall|z: spec_fn(int) -> Complex<R>| at_most(
        times(inner(z, z, n).re, loading),
        (#[trigger] form(l, z, z, n)).re,
    ) by {
        loading_is_a_floor_under_the_power(x, n_snapshots, loading, z, n);
    }
    bounded_forms_are_definite(math, l, n, loading);
    definite_matrices_use_every_pivot(math, l, n);
}

/// A vector at which the form of the loaded covariance has no real part holds nothing.
proof fn powerless_vectors_are_nothing<R: Real>(
    x: spec_fn(int, int) -> Complex<R>,
    n_snapshots: nat,
    loading: R,
    z: spec_fn(int) -> Complex<R>,
    n: nat,
    k: int,
)
    requires
        ordered_field::<R>(),
        counts_add::<R>(),
        less(whole(0), loading),
        1 <= n_snapshots,
        at_most(form(loaded(x, n_snapshots, loading), z, z, n).re, whole(0)),
        0 <= k < n,
    ensures
        z(k) == whole::<Complex<R>>(0),
{
    order_is_total::<R>();
    ordered_powers_tell::<R>();
    let length = inner(z, z, n).re;
    let f = form(loaded(x, n_snapshots, loading), z, z, n).re;
    loading_is_a_floor_under_the_power(x, n_snapshots, loading, z, n);
    order_chains(times(length, loading), f, whole(0));
    entries_are_part_of_the_length(z, n, k);
    order_decides(whole(0), loading);
    products_have_signs(length, loading);
    order_decides(whole(0), length);
    order_chains(power(z(k)), length, whole(0));
    squares_are_positive(z(k).re);
    squares_are_positive(z(k).im);
    plus_nothing(whole::<R>(0));
    sums_keep_order(whole(0), times(z(k).re, z(k).re), whole(0), times(z(k).im, z(k).im));
    order_decides(whole(0), power(z(k)));
    assert(power(z(k)) == whole::<R>(0));
}

/// The unscaled MVDR weights see the look direction.
proof fn look_is_answered<R: Real, M: Fn(Elementary<R>) -> R>(
    math: M,
    x: Seq<R>,
    snapshots: Matrix<Complex<R>>,
    theta_look_deg: R,
    loading: R,
)
    requires
        ordered_field::<R>(),
        counts_add::<R>(),
        measures_lengths(math),
        forall|t: R| #[trigger] on_circle(math, t),
        at_most(pivot_floor(), loading),
        1 <= snapshots.breadth(),
        1 <= x.len(),
    ensures
        look_response(math, x, snapshots, theta_look_deg, loading) != whole::<Complex<R>>(0),
{
    order_is_total::<R>();
    ordered_powers_tell::<R>();
    complex_field::<R>();
    nothing_is_no_pivot(math);
    order_chains(whole(0), pivot_floor(), loading);
    let n = x.len();
    let l = loaded(snapshots.entry(), snapshots.breadth(), loading);
    let sine = sine_of_degrees(math, theta_look_deg);
    let a = look_vector(math, x, sine);
    let raw = image(inverse(l, usable_pivot(math), n as int), a, n);
    let d = look_response(math, x, snapshots, theta_look_deg, loading);
    loaded_covariance_uses_every_pivot(math, snapshots.entry(), snapshots.breadth(), loading, n);
    let back = image(l, raw, n);
    assert forall|i: int| 0 <= i < n implies #[trigger] back(i) == a(i) by {
        inverse_solves(l, usable_pivot(math), n as int, a, i);
    }
    if d == whole::<Complex<R>>(0) {
        assert forall|i: int| 0 <= i < n implies #[trigger] inner_terms(a, raw)(i) == inner_terms(
            back,
            raw,
        )(i) by {
            assert(back(i) == a(i));
        }
        equal_terms(whole(0), inner_terms(a, raw), inner_terms(back, raw), n);
        inner_is_hermitian(raw, back, n);
        opposite_of_nothing::<R>();
        assert(form(l, raw, raw, n).re == whole::<R>(0));
        order_decides(whole::<R>(0), whole(0));
        let terms = image_terms(l, raw, 0);
        assert forall|k: int| 0 <= k < n implies #[trigger] terms(k) == whole::<Complex<R>>(0) by {
            powerless_vectors_are_nothing(
                snapshots.entry(),
                snapshots.breadth(),
                loading,
                raw,
                n,
                k,
            );
            times_nothing(l(0, k));
        }
        total_of_nothing(terms, n);
        assert(back(0) == a(0));
        let t = times(
            times(times(whole(2), value(math, Elementary::Pi)), x[0]),
            sine,
        );
        assert(on_circle(math, t));
        phasors_have_power_one(math, t);
        times_nothing(whole::<R>(0));
        plus_nothing(whole::<R>(0));
        one_is_something::<R>();
    }
}

/// Where nothing is rounded and the loading is not below the floor under pivots, the MVDR
/// weights are optimal: their response in the look direction is one, and among all weights
/// with that response they alone have the least output power.
pub proof fn mvdr_is_optimal<R: Real, M: Fn(Elementary<R>) -> R>(
    math: M,
    x: Seq<R>,
    snapshots: Matrix<Complex<R>>,
    theta_look_deg: R,
    loading: R,
    v: spec_fn(int) -> Complex<R>,
)
    requires
        ordered_field::<R>(),
        counts_add::<R>(),
        measures_lengths(math),
        forall|t: R| #[trigger] on_circle(math, t),
        at_most(pivot_floor(), loading),
        1 <= snapshots.breadth(),
        1 <= x.len(),
    ensures
        ({
            let a = look_vector(math, x, sine_of_degrees(math, theta_look_deg));
            let r = loaded(snapshots.entry(), snapshots.breadth(), loading);
            let w = capon(math, x, snapshots, theta_look_deg, loading);
            let n = x.len();
            &&& inner(a, w, n) == whole::<Complex<R>>(1)
            &&& inner(a, v, n) == whole::<Complex<R>>(1) ==> {
                &&& at_most(form(r, w, w, n).re, form(r, v, v, n).re)
                &&& form(r, v, v, n).re == form(r, w, w, n).re ==> forall|i: int|
                    0 <= i < n ==> #[trigger] v(i) == w(i)
            }
        }),
{
    order_is_total::<R>();
    ordered_powers_tell::<R>();
    complex_field::<R>();
    nothing_is_no_pivot(math);
    order_chains(whole(0), pivot_floor(), loading);
    order_decides(whole(0), loading);
    let n = x.len();
    let a = look_vector(math, x, sine_of_degrees(math, theta_look_deg));
    let r = loaded(snapshots.entry(), snapshots.breadth(), loading);
    let w = capon(math, x, snapshots, theta_look_deg, loading);
    let u = |i: int| minus(v(i), w(i));
    loaded_covariance_uses_every_pivot(math, snapshots.entry(), snapshots.breadth(), loading, n);
    look_is_answered(math, x, snapshots, theta_look_deg, loading);
    mvdr_is_distortionless(math, x, snapshots, theta_look_deg, loading);
    if inner(a, v, n) == whole::<Complex<R>>(1) {
        counts_keep_order::<R>(0, snapshots.breadth() as int);
        assert(count::<R>(0) == whole::<R>(0));
        order_decides(whole(0), count::<R>(snapshots.breadth() as int));
        mvdr_has_least_power(math, x, snapshots, theta_look_deg, loading, v);
        let rest = form(r, u, u, n).re;
        let least = form(r, w, w, n).re;
        loading_is_a_floor_under_the_power(
            snapshots.entry(),
            snapshots.breadth(),
            loading,
            u,
            n,
        );
        entries_are_part_of_the_length(u, n, 0);
        let length = inner(u, u, n).re;
        products_have_signs(length, loading);
        order_chains(whole(0), times(length, loading), rest);
        plus_keeps_order(whole(0), rest, least);
        plus_commutes(whole(0), least);
        plus_commutes(rest, least);
        plus_nothing(least);
        if form(r, v, v, n).re == least {
            plus_cancels(rest, whole(0), least);
            order_decides(rest, whole(0));
            assert forall|i: int| 0 <= i < n implies #[trigger] v(i) == w(i) by {
                powerless_vectors_are_nothing(
                    snapshots.entry(),
                    snapshots.breadth(),
                    loading,
                    u,
                    n,
                    i,
                );
                assert(u(i) == whole::<Complex<R>>(0));
                equal_where_no_difference(v(i), w(i));
            }
        }
    }
}

/// What differs by nothing is equal.
proof fn equal_where_no_difference<R: Real>(a: Complex<R>, b: Complex<R>)
    requires
        field::<Complex<R>>(),
        minus(a, b) == whole::<Complex<R>>(0),
    ensures
        a == b,
{
    minus_adds_opposite(a, b);
    opposites_cancel(b);
    plus_cancels(a, b, negated(b));
}

} // verus!
