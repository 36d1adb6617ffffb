//! What holds of weights and patterns where nothing is rounded.
use vstd::prelude::*;
use crate::beamforming::{
    contributions, cut_levels, direction_cosines, path_phase, pattern_levels, response_level,
    steered_elements_add_up, steering_weights,
};
use crate::complex::{conjugate, modulus, phasor, power, scaled, Complex};
use crate::exact::{
    arithmetic_on_axis, at_most, complex_field, counts_add, counts_keep_order,
    differences_have_signs, field, minus_adds_opposite, mirrored, on_axis, on_circle,
    opposite_of_product, opposite_of_sum, opposite_twice, opposites_cancel, order_chains,
    order_decides, order_is_total, ordered_field, ordered_powers_tell, phasors_have_power_one,
    plus_commutes, plus_exchanges, plus_keeps_order, plus_nothing, power_is_product,
    power_of_product, powers_tell, scaling_is_product, squares_are_positive, squares_tell,
    sums_keep_order, times_commutes, times_distributes, times_keeps_order, times_nothing, times_one,
    times_regroups, total_of_multiples,
};
use crate::levels::{faintest, level, normalized, peak, peak_is_the_largest};
use crate::table::place_has_cell;
use crate::scalar::{
    comparable, count, less, negated, plus, times, total, unordered, value, whole, Elementary, Real,
};

verus! {

// ---- steering ---------------------------------------------------------------

/// Where sine and cosine lie on the unit circle, steering weights have unit modulus: their
/// power is one.
pub proof fn steering_weights_have_power_one<R: Real, M: Fn(Elementary<R>) -> R>(
    math: M,
    x: Seq<R>,
    y: Seq<R>,
    theta_deg: R,
    phi_deg: R,
    i: int,
)
    requires
        field::<R>(),
        forall|t: R| #[trigger] on_circle(math, t),
        0 <= i < x.len(),
    ensures
        power(steering_weights(math, x, y, theta_deg, phi_deg)[i]) == whole::<R>(1),
{
    let (u, v) = direction_cosines(
        math,
        value(math, Elementary::ToRadians(theta_deg)),
        value(math, Elementary::ToRadians(phi_deg)),
    );
    let phase = path_phase(math, x[i], y[i], u, v);
    assert(on_circle(math, phase));
    phasors_have_power_one(math, phase);
}

/// Opposite direction cosines give the opposite phase.
proof fn phases_are_mirrored<R: Real, M: Fn(Elementary<R>) -> R>(math: M, x: R, y: R, u: R, v: R)
    requires
        field::<R>(),
    ensures
        path_phase(math, x, y, negated(u), negated(v)) == negated(path_phase(math, x, y, u, v)),
{
    opposite_of_product(x, u);
    opposite_of_product(y, v);
    opposite_of_sum(times(x, u), times(y, v));
    opposite_of_product(
        times(whole(2), value(math, Elementary::Pi)),
        plus(times(x, u), times(y, v)),
    );
}

/// The mirrored direction has the conjugate steering weights, where sine is odd and cosine
/// is even.
pub proof fn mirrored_steering_is_conjugate<R: Real, M: Fn(Elementary<R>) -> R>(
    math: M,
    x: Seq<R>,
    y: Seq<R>,
    theta_deg: R,
    phi_deg: R,
    i: int,
)
    requires
        field::<R>(),
        forall|t: R| #[trigger] mirrored(math, t),
        0 <= i < x.len(),
    ensures
        steering_weights(math, x, y, negated(theta_deg), phi_deg)[i] == conjugate(
            steering_weights(math, x, y, theta_deg, phi_deg)[i],
        ),
{
    let theta = value(math, Elementary::ToRadians(theta_deg));
    let phi = value(math, Elementary::ToRadians(phi_deg));
    let (u, v) = direction_cosines(math, theta, phi);
    assert(mirrored(math, theta_deg));
    assert(mirrored(math, theta));
    let sine = value(math, Elementary::Sin(theta));
    opposite_of_product(sine, value(math, Elementary::Cos(phi)));
    opposite_of_product(sine, value(math, Elementary::Sin(phi)));
    phases_are_mirrored(math, x[i], y[i], u, v);
    assert(mirrored(math, path_phase(math, x[i], y[i], u, v)));
}

// ---- gain -------------------------------------------------------------------

/// A factor of every weight shifts the levels: it is a factor of every modulus, and its
/// logarithm adds up with theirs.
pub open spec fn gains_add<R: Real, M: Fn(Elementary<R>) -> R>(math: M, gain: R) -> bool {
    &&& forall|z: Complex<R>|
        modulus(math, #[trigger] scaled(z, gain)) == times(gain, modulus(math, z))
    &&& forall|m: R|
        less(faintest(), m) ==> value(math, Elementary::Log10(#[trigger] times(gain, m))) == plus(
            value(math, Elementary::Log10(gain)),
            value(math, Elementary::Log10(m)),
        )
}

/// The response in the direction with these cosines is not negligible.
pub open spec fn heard<R: Real, M: Fn(Elementary<R>) -> R>(
    math: M,
    x: Seq<R>,
    y: Seq<R>,
    w: Seq<Complex<R>>,
    u: R,
    v: R,
) -> bool {
    less(
        faintest(),
        modulus(math, total(whole(0), contributions(math, x, y, w, u, v), x.len())),
    )
}

/// The response is not negligible in any direction of the grid.
pub open spec fn heard_over_the_grid<R: Real, M: Fn(Elementary<R>) -> R>(
    math: M,
    x: Seq<R>,
    y: Seq<R>,
    w: Seq<Complex<R>>,
    theta: Seq<R>,
    phi: Seq<R>,
) -> bool {
    forall|i: int, j: int|
        0 <= i < theta.len() && 0 <= j < phi.len() ==> {
            let uv = #[trigger] direction_cosines(math, theta[i], phi[j]);
            heard(math, x, y, w, uv.0, uv.1)
        }
}

/// The response is not negligible at any angle of the cut.
pub open spec fn heard_along_the_cut<R: Real, M: Fn(Elementary<R>) -> R>(
    math: M,
    x: Seq<R>,
    y: Seq<R>,
    w: Seq<Complex<R>>,
    phi_deg: R,
    theta_deg: Seq<R>,
) -> bool {
    forall|i: int|
        0 <= i < theta_deg.len() ==> {
            let uv = direction_cosines(
                math,
                value(math, Elementary::ToRadians(#[trigger] theta_deg[i])),
                value(math, Elementary::ToRadians(phi_deg)),
            );
            heard(math, x, y, w, uv.0, uv.1)
        }
}

/// The weights, each taken `gain` times.
pub open spec fn amplified<R: Real>(w: Seq<Complex<R>>, gain: R) -> Seq<Complex<R>> {
    Seq::new(w.len(), |i: int| scaled(w[i], gain))
}

/// The level that a gain adds.
pub open spec fn gain_level<R: Real, M: Fn(Elementary<R>) -> R>(math: M, gain: R) -> R {
    times(whole(20), value(math, Elementary::Log10(gain)))
}

/// A common factor of the weights adds its level to that of every response that is heard.
pub proof fn gain_shifts_the_level<R: Real, M: Fn(Elementary<R>) -> R>(
    math: M,
    x: Seq<R>,
    y: Seq<R>,
    w: Seq<Complex<R>>,
    gain: R,
    u: R,
    v: R,
)
    requires
        field::<R>(),
        powers_tell::<R>(),
        gains_add(math, gain),
        x.len() <= w.len(),
        heard(math, x, y, w, u, v),
        heard(math, x, y, amplified(w, gain), u, v),
    ensures
        response_level(math, x, y, amplified(w, gain), u, v) == plus(
            response_level(math, x, y, w, u, v),
            gain_level(math, gain),
        ),
{
    complex_field::<R>();
    let f = contributions(math, x, y, w, u, v);
    let g = contributions(math, x, y, amplified(w, gain), u, v);
    let s = total(whole(0), f, x.len());
    assert forall|i: int| 0 <= i < x.len() implies #[trigger] g(i) == times(
        on_axis(gain),
        f(i),
    ) by {
        scaling_is_product(w[i], gain);
        times_regroups(
            on_axis(gain),
            w[i],
            phasor(math, path_phase(math, x[i], y[i], u, v)),
        );
    }
    total_of_multiples(on_axis(gain), f, g, x.len());
    scaling_is_product(s, gain);
    assert(modulus(math, scaled(s, gain)) == times(gain, modulus(math, s)));
    let (a, b) = (
        value(math, Elementary::Log10(gain)),
        value(math, Elementary::Log10(modulus(math, s))),
    );
    times_distributes(whole(20), a, b);
    plus_commutes(times(whole(20), a), times(whole(20), b));
}

/// A common shift of values in an ordered field shifts their peak.
proof fn shift_moves_the_peak<R: Real>(values: Seq<R>, moved: Seq<R>, shift: R)
    requires
        ordered_field::<R>(),
        moved.len() == values.len(),
        forall|i: int| 0 <= i < values.len() ==> #[trigger] moved[i] == plus(values[i], shift),
    ensures
        peak(moved) == match peak(values) {
            Some(best) => Some(plus(best, shift)),
            None => None,
        },
    decreases values.len(),
{
    order_is_total::<R>();
    if values.len() > 0 {
        let (a, b) = (values.drop_last(), moved.drop_last());
        assert forall|i: int| 0 <= i < a.len() implies #[trigger] b[i] == plus(a[i], shift) by {
            assert(moved[i] == plus(values[i], shift));
        }
        shift_moves_the_peak(a, b, shift);
        let v = values.last();
        assert(moved[values.len() - 1] == plus(v, shift));
        assert(!unordered(v) && !unordered(moved.last()));
        match peak(a) {
            Some(best) => {
                plus_keeps_order(best, v, shift);
                assert(!unordered(best) && !unordered(plus(best, shift)));
            },
            None => {},
        }
    }
}

/// Normalization takes a common shift away.
pub proof fn normalization_ignores_a_shift<R: Real>(values: Seq<R>, moved: Seq<R>, shift: R)
    requires
        ordered_field::<R>(),
        moved.len() == values.len(),
        forall|i: int| 0 <= i < values.len() ==> #[trigger] moved[i] == plus(values[i], shift),
    ensures
        normalized(moved) == normalized(values),
{
    order_is_total::<R>();
    shift_moves_the_peak(values, moved, shift);
    match peak(values) {
        Some(best) => {
            assert forall|i: int| 0 <= i < values.len() implies #[trigger] normalized(moved)[i]
                == normalized(values)[i] by {
                let v = values[i];
                assert(moved[i] == plus(v, shift));
                minus_adds_opposite(plus(v, shift), plus(best, shift));
                opposite_of_sum(best, shift);
                plus_exchanges(v, shift, negated(best), negated(shift));
                opposites_cancel(shift);
                plus_nothing(plus(v, negated(best)));
                minus_adds_opposite(v, best);
            }
        },
        None => {
            if values.len() > 0 {
                let v = values.last();
                assert(!unordered(v));
                assert(peak(values) is Some);
            }
        },
    }
    assert(normalized(moved) =~= normalized(values));
}

/// A common factor of the weights leaves the normalized array factor as it is, where every
/// response is heard with it and without it.
pub proof fn gain_leaves_the_array_factor<R: Real, M: Fn(Elementary<R>) -> R>(
    math: M,
    x: Seq<R>,
    y: Seq<R>,
    w: Seq<Complex<R>>,
    gain: R,
    theta: Seq<R>,
    phi: Seq<R>,
)
    requires
        ordered_field::<R>(),
        gains_add(math, gain),
        x.len() <= w.len(),
        heard_over_the_grid(math, x, y, w, theta, phi),
        heard_over_the_grid(math, x, y, amplified(w, gain), theta, phi),
    ensures
        normalized(pattern_levels(math, x, y, amplified(w, gain), theta, phi)) == normalized(
            pattern_levels(math, x, y, w, theta, phi),
        ),
{
    order_is_total::<R>();
    ordered_powers_tell::<R>();
    let a = pattern_levels(math, x, y, w, theta, phi);
    let b = pattern_levels(math, x, y, amplified(w, gain), theta, phi);
    assert forall|k: int| 0 <= k < a.len() implies #[trigger] b[k] == plus(
        a[k],
        gain_level(math, gain),
    ) by {
        place_has_cell(k, phi.len() as int, theta.len() as int);
        let (u, v) = direction_cosines(
            math,
            theta[k / phi.len() as int],
            phi[k % phi.len() as int],
        );
        gain_shifts_the_level(math, x, y, w, gain, u, v);
    }
    normalization_ignores_a_shift(a, b, gain_level(math, gain));
}

/// A common factor of the weights leaves the normalized beam cut as it is, where every
/// response is heard with it and without it.
pub proof fn gain_leaves_the_beam_cut<R: Real, M: Fn(Elementary<R>) -> R>(
    math: M,
    x: Seq<R>,
    y: Seq<R>,
    w: Seq<Complex<R>>,
    gain: R,
    phi_deg: R,
    theta_deg: Seq<R>,
)
    requires
        ordered_field::<R>(),
        gains_add(math, gain),
        x.len() <= w.len(),
        heard_along_the_cut(math, x, y, w, phi_deg, theta_deg),
        heard_along_the_cut(math, x, y, amplified(w, gain), phi_deg, theta_deg),
    ensures
        normalized(cut_levels(math, x, y, amplified(w, gain), phi_deg, theta_deg)) == normalized(
            cut_levels(math, x, y, w, phi_deg, theta_deg),
        ),
{
    order_is_total::<R>();
    ordered_powers_tell::<R>();
    let a = cut_levels(math, x, y, w, phi_deg, theta_deg);
    let b = cut_levels(math, x, y, amplified(w, gain), phi_deg, theta_deg);
    assert forall|k: int| 0 <= k < a.len() implies #[trigger] b[k] == plus(
        a[k],
        gain_level(math, gain),
    ) by {
        let (u, v) = direction_cosines(
            math,
            value(math, Elementary::ToRadians(theta_deg[k])),
            value(math, Elementary::ToRadians(phi_deg)),
        );
        gain_shifts_the_level(math, x, y, w, gain, u, v);
    }
    normalization_ignores_a_shift(a, b, gain_level(math, gain));
}

// ---- the steered direction --------------------------------------------------

/// The square of a sum.
proof fn square_of_sum<R: Real>(a: R, b: R)
    requires
        field::<R>(),
    ensures
        times(plus(a, b), plus(a, b)) == plus(
            plus(times(a, a), times(b, b)),
            plus(times(a, b), times(a, b)),
        ),
{
    times_distributes(plus(a, b), a, b);
    times_distributes(a, a, b);
    times_distributes(b, a, b);
    times_commutes(a, b);
    let (aa, bb, ab) = (times(a, a), times(b, b), times(a, b));
    plus_commutes(ab, bb);
    plus_exchanges(aa, ab, bb, ab);
}

/// A sum of complex numbers of power one has at most the square of their number as its power.
proof fn units_add_up_to_their_number<R: Real>(f: spec_fn(int) -> Complex<R>, n: nat)
    requires
        ordered_field::<R>(),
        counts_add::<R>(),
        forall|k: int| 0 <= k < n ==> power(#[trigger] f(k)) == whole::<R>(1),
    ensures
        at_most(
            power(total(whole(0), f, n)),
            times(count::<R>(n as int), count(n as int)),
        ),
    decreases n,
{
    order_is_total::<R>();
    ordered_powers_tell::<R>();
    complex_field::<R>();
    if n == 0 {
        assert(count::<R>(0) == whole::<R>(0));
        times_nothing(whole::<R>(0));
        plus_nothing(whole::<R>(0));
        order_decides(whole::<R>(0), whole(0));
    } else {
        let m = (n - 1) as nat;
        units_add_up_to_their_number(f, m);
        let s = total(whole(0), f, m);
        let z = f(n - 1);
        assert(power(f(n - 1)) == whole::<R>(1));
        let k: R = count(m as int);
        let one: R = whole(1);
        counts_keep_order::<R>(m as int, n as int);
        assert(count::<R>(1) == one);
        assert(count::<R>(m as int + 1) == plus(k, one));
        // The mixed part is at most the modulus of the sum so far.
        let r = plus(times(s.re, z.re), times(s.im, z.im));
        let sz = times(s, conjugate(z));
        opposite_of_product(s.im, z.im);
        minus_adds_opposite(times(s.re, z.re), times(s.im, negated(z.im)));
        opposite_twice(times(s.im, z.im));
        assert(sz.re == r);
        power_of_product(s, conjugate(z));
        power_is_product(z);
        times_one(power(s));
        assert(power(sz) == power(s));
        squares_are_positive(sz.im);
        plus_keeps_order(whole(0), times(sz.im, sz.im), times(r, r));
        plus_nothing(times(r, r));
        plus_commutes(times(sz.im, sz.im), times(r, r));
        order_chains(times(r, r), power(s), times(k, k));
        squares_tell(r, k);
        // The power of the longer sum.
        square_of_sum(s.re, z.re);
        square_of_sum(s.im, z.im);
        let (a, b) = (times(s.re, s.re), times(z.re, z.re));
        let (c, d) = (times(s.im, s.im), times(z.im, z.im));
        let (e, g) = (times(s.re, z.re), times(s.im, z.im));
        plus_exchanges(plus(a, b), plus(e, e), plus(c, d), plus(g, g));
        plus_exchanges(a, b, c, d);
        plus_exchanges(e, e, g, g);
        assert(power(plus(s, z)) == plus(plus(power(s), one), plus(r, r)));
        square_of_sum(k, one);
        times_one(one);
        times_one(k);
        order_decides(one, one);
        sums_keep_order(power(s), times(k, k), one, one);
        sums_keep_order(r, k, r, k);
        sums_keep_order(plus(power(s), one), plus(times(k, k), one), plus(r, r), plus(k, k));
    }
}

/// Ones add up to their number.
proof fn ones_add_up_to_their_number<R: Real>(f: spec_fn(int) -> Complex<R>, n: nat)
    requires
        field::<R>(),
        counts_add::<R>(),
        forall|k: int| 0 <= k < n ==> #[trigger] f(k) == whole::<Complex<R>>(1),
    ensures
        total(whole(0), f, n) == on_axis(count::<R>(n as int)),
    decreases n,
{
    assert(count::<R>(0) == whole::<R>(0));
    assert(count::<R>(1) == whole::<R>(1));
    if n > 0 {
        ones_add_up_to_their_number(f, (n - 1) as nat);
        assert(f(n - 1) == whole::<Complex<R>>(1));
        assert(count::<R>((n - 1) + 1) == plus(count::<R>(n - 1), count::<R>(1)));
        arithmetic_on_axis(count::<R>(n - 1), whole(1));
    }
}

/// The modulus is the positive root of the power, and the logarithm keeps the order: it is
/// nothing at one, and at least that above. The floor under magnitudes lies below one, and
/// the level of what is negligible below nothing.
pub open spec fn exact_levels<R: Real, M: Fn(Elementary<R>) -> R>(math: M) -> bool {
    &&& forall|z: Complex<R>|
        {
            &&& at_most(whole(0), #[trigger] modulus(math, z))
            &&& times(modulus(math, z), modulus(math, z)) == power(z)
        }
    &&& forall|a: R, b: R|
        #![trigger value(math, Elementary::Log10(a)), value(math, Elementary::Log10(b))]
        less(faintest(), a) && at_most(a, b) ==> at_most(
            value(math, Elementary::Log10(a)),
            value(math, Elementary::Log10(b)),
        )
    &&& value(math, Elementary::Log10(whole(1))) == whole::<R>(0)
    &&& less(faintest::<R>(), whole(1))
    &&& at_most(whole::<R>(-150), whole(0))
}

/// No magnitude up to `b`, which is at least one, has a level above that of `b`.
proof fn levels_keep_order<R: Real, M: Fn(Elementary<R>) -> R>(math: M, a: R, b: R)
    requires
        ordered_field::<R>(),
        counts_add::<R>(),
        exact_levels(math),
        at_most(a, b),
        at_most(whole(1), b),
    ensures
        at_most(level(math, a), level(math, b)),
{
    order_is_total::<R>();
    let twenty: R = whole(20);
    assert(count::<R>(20) == twenty);
    counts_keep_order::<R>(20, 20);
    order_chains(faintest(), whole(1), b);
    let log_b = value(math, Elementary::Log10(b));
    if less(faintest(), a) {
        let log_a = value(math, Elementary::Log10(a));
        times_keeps_order(log_a, log_b, twenty);
        times_commutes(log_a, twenty);
        times_commutes(log_b, twenty);
    } else {
        let log_1 = value(math, Elementary::Log10(whole::<R>(1)));
        assert(at_most(log_1, log_b));
        times_keeps_order(whole(0), log_b, twenty);
        times_nothing(twenty);
        times_commutes(log_b, twenty);
        order_chains(whole::<R>(-150), whole(0), times(twenty, log_b));
    }
}

/// With steering weights no direction beats the steered one, where nothing is rounded.
pub proof fn steered_direction_is_the_strongest<R: Real, M: Fn(Elementary<R>) -> R>(
    math: M,
    x: Seq<R>,
    y: Seq<R>,
    theta_deg: R,
    phi_deg: R,
    u: R,
    v: R,
)
    requires
        ordered_field::<R>(),
        counts_add::<R>(),
        exact_levels(math),
        forall|t: R| #[trigger] on_circle(math, t),
    ensures
        ({
            let w = steering_weights(math, x, y, theta_deg, phi_deg);
            let uv = direction_cosines(
                math,
                value(math, Elementary::ToRadians(theta_deg)),
                value(math, Elementary::ToRadians(phi_deg)),
            );
            at_most(
                response_level(math, x, y, w, u, v),
                response_level(math, x, y, w, uv.0, uv.1),
            )
        }),
{
    order_is_total::<R>();
    ordered_powers_tell::<R>();
    let n = x.len();
    let w = steering_weights(math, x, y, theta_deg, phi_deg);
    let uv = direction_cosines(
        math,
        value(math, Elementary::ToRadians(theta_deg)),
        value(math, Elementary::ToRadians(phi_deg)),
    );
    let f = contributions(math, x, y, w, u, v);
    let g = contributions(math, x, y, w, uv.0, uv.1);
    if n == 0 {
        order_decides(
            response_level(math, x, y, w, u, v),
            response_level(math, x, y, w, uv.0, uv.1),
        );
    } else {
        let k: R = count(n as int);
        // Elsewhere the contributions have power one.
        assert forall|i: int| 0 <= i < n implies power(#[trigger] f(i)) == whole::<R>(1) by {
            let phase = path_phase(math, x[i], y[i], u, v);
            assert(on_circle(math, phase));
            phasors_have_power_one(math, phase);
            steering_weights_have_power_one(math, x, y, theta_deg, phi_deg, i);
            power_of_product(w[i], phasor(math, phase));
            times_one(whole::<R>(1));
        }
        units_add_up_to_their_number(f, n);
        let elsewhere = modulus(math, total(whole(0), f, n));
        counts_keep_order::<R>(1, n as int);
        counts_keep_order::<R>(0, n as int);
        assert(count::<R>(0) == whole::<R>(0));
        assert(count::<R>(1) == whole::<R>(1));
        squares_tell(elsewhere, k);
        // In the steered direction they are ones.
        assert forall|i: int| 0 <= i < n implies #[trigger] g(i) == whole::<Complex<R>>(1) by {
            steered_elements_add_up(math, x, y, theta_deg, phi_deg, i);
        }
        ones_add_up_to_their_number(g, n);
        let steered = modulus(math, total(whole(0), g, n));
        times_nothing(whole::<R>(0));
        plus_nothing(times(k, k));
        assert(times(steered, steered) == times(k, k));
        order_decides(times(k, k), times(k, k));
        squares_tell(steered, k);
        squares_tell(k, steered);
        order_decides(steered, k);
        levels_keep_order(math, elsewhere, steered);
    }
}

/// With steering weights a beam cut through the steered direction has its maximum of zero
/// there, where nothing is rounded.
pub proof fn beam_cut_peaks_where_it_is_steered<R: Real, M: Fn(Elementary<R>) -> R>(
    math: M,
    x: Seq<R>,
    y: Seq<R>,
    theta_deg: R,
    phi_deg: R,
    angles: Seq<R>,
    k: int,
)
    requires
        ordered_field::<R>(),
        counts_add::<R>(),
        exact_levels(math),
        forall|t: R| #[trigger] on_circle(math, t),
        0 <= k < angles.len(),
        angles[k] == theta_deg,
    ensures
        ({
            let w = steering_weights(math, x, y, theta_deg, phi_deg);
            let cut = normalized(cut_levels(math, x, y, w, phi_deg, angles));
            &&& cut[k] == whole::<R>(0)
            &&& forall|i: int| 0 <= i < angles.len() ==> at_most(#[trigger] cut[i], whole(0))
        }),
{
    order_is_total::<R>();
    let w = steering_weights(math, x, y, theta_deg, phi_deg);
    let levels = cut_levels(math, x, y, w, phi_deg, angles);
    assert forall|i: int| 0 <= i < levels.len() implies at_most(#[trigger] levels[i], levels[k]) by {
        let (u, v) = direction_cosines(
            math,
            value(math, Elementary::ToRadians(angles[i])),
            value(math, Elementary::ToRadians(phi_deg)),
        );
        steered_direction_is_the_strongest(math, x, y, theta_deg, phi_deg, u, v);
    }
    assert forall|i: int, j: int|
        0 <= i < levels.len() && 0 <= j < levels.len() implies #[trigger] comparable(
        levels[i],
        levels[j],
    ) by {}
    peak_is_the_largest(levels);
    let p = peak(levels)->Some_0;
    let m = choose|i: int| 0 <= i < levels.len() && #[trigger] levels[i] == p;
    assert(at_most(levels[m], levels[k]));
    order_decides(p, levels[k]);
    opposites_cancel(p);
    let cut = normalized(levels);
    assert forall|i: int| 0 <= i < angles.len() implies at_most(#[trigger] cut[i], whole(0)) by {
        assert(at_most(levels[i], levels[k]));
        differences_have_signs(levels[i], p);
    }
}

} // verus!
