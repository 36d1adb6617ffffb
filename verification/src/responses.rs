//! What steering does to an array and what its response is: the sum over its elements, each
//! turned by the length of its path.
use vstd::prelude::*;
use vstd::arithmetic::div_mod::lemma_fundamental_div_mod_converse;
use crate::beamforming::{
    contributions, cut_levels, pattern_levels, response_level, steering_weights,
};
use crate::complex::Complex;
use crate::exact::{
    angles_add, field, minus_adds_opposite, nothing_points_ahead, opposite_of_nothing,
    opposite_of_product, opposite_of_sum, opposite_twice, opposites_cancel, plus_commutes,
    plus_exchanges, plus_nothing, times_commutes, times_distributes, times_nothing, times_one,
};
use crate::gpu::{angle_levels, direction_levels, power_level};
use crate::levels::{level, normalized, peak};
use crate::scalar::{less, minus, negated, over, plus, times, total, value, whole, Elementary, Real};

verus! {

// ---- steering ---------------------------------------------------------------

/// The phase of the path from the direction `(theta, phi)` in radians to an element at
/// `(x, y)`, in full turns for each wavelength.
pub open spec fn phase_of_path<R: Real, M: Fn(Elementary<R>) -> R>(
    math: M,
    x: R,
    y: R,
    theta: R,
    phi: R,
) -> R {
    let s = value(math, Elementary::Sin(theta));
    let along = plus(
        times(x, times(s, value(math, Elementary::Cos(phi)))),
        times(y, times(s, value(math, Elementary::Sin(phi)))),
    );
    times(times(whole(2), value(math, Elementary::Pi)), along)
}

/// Steering turns every element back by the phase of its path: the weight is the conjugate of
/// the phasor of that phase.
pub proof fn steering_turns_elements_back<R: Real, M: Fn(Elementary<R>) -> R>(
    math: M,
    x: Seq<R>,
    y: Seq<R>,
    theta_deg: R,
    phi_deg: R,
    i: int,
)
    requires
        0 <= i < x.len(),
    ensures
        ({
            let w = steering_weights(math, x, y, theta_deg, phi_deg);
            let phase = phase_of_path(
                math,
                x[i],
                y[i],
                value(math, Elementary::ToRadians(theta_deg)),
                value(math, Elementary::ToRadians(phi_deg)),
            );
            &&& w.len() == x.len()
            &&& w[i].re == value(math, Elementary::Cos(phase))
            &&& w[i].im == negated(value(math, Elementary::Sin(phase)))
        }),
{
}

/// Steering goes by the paths, where nothing is rounded: an element whose coordinates are the
/// sums of those of two others has the product of their weights, and an element at the centre
/// has the weight one.
pub proof fn steering_goes_by_the_paths<R: Real, M: Fn(Elementary<R>) -> R>(
    math: M,
    x: Seq<R>,
    y: Seq<R>,
    theta_deg: R,
    phi_deg: R,
    i: int,
    j: int,
    k: int,
)
    requires
        field::<R>(),
        forall|a: R, b: R| #[trigger] angles_add(math, a, b),
        nothing_points_ahead(math),
        0 <= i < x.len(),
        0 <= j < x.len(),
        0 <= k < x.len(),
    ensures
        ({
            let w = steering_weights(math, x, y, theta_deg, phi_deg);
            &&& x[k] == plus(x[i], x[j]) && y[k] == plus(y[i], y[j]) ==> w[k] == times(
                w[i],
                w[j],
            )
            &&& x[k] == whole::<R>(0) && y[k] == whole::<R>(0) ==> w[k] == whole::<Complex<R>>(1)
        }),
{
    let theta = value(math, Elementary::ToRadians(theta_deg));
    let phi = value(math, Elementary::ToRadians(phi_deg));
    let s = value(math, Elementary::Sin(theta));
    let u = times(s, value(math, Elementary::Cos(phi)));
    let v = times(s, value(math, Elementary::Sin(phi)));
    let turn = times(whole(2), value(math, Elementary::Pi));
    opposite_of_nothing::<R>();
    if x[k] == plus(x[i], x[j]) && y[k] == plus(y[i], y[j]) {
        times_commutes(plus(x[i], x[j]), u);
        times_distributes(u, x[i], x[j]);
        times_commutes(u, x[i]);
        times_commutes(u, x[j]);
        times_commutes(plus(y[i], y[j]), v);
        times_distributes(v, y[i], y[j]);
        times_commutes(v, y[i]);
        times_commutes(v, y[j]);
        plus_exchanges(times(x[i], u), times(x[j], u), times(y[i], v), times(y[j], v));
        let pi = plus(times(x[i], u), times(y[i], v));
        let pj = plus(times(x[j], u), times(y[j], v));
        times_distributes(turn, pi, pj);
        let (a, b) = (times(turn, pi), times(turn, pj));
        assert(angles_add(math, a, b));
        let (ca, sa) = (value(math, Elementary::Cos(a)), value(math, Elementary::Sin(a)));
        let (cb, sb) = (value(math, Elementary::Cos(b)), value(math, Elementary::Sin(b)));
        opposite_of_product(sa, negated(sb));
        opposite_of_product(sa, sb);
        opposite_twice(times(sa, sb));
        opposite_of_sum(times(sa, cb), times(ca, sb));
        opposite_of_product(sa, cb);
        opposite_of_product(ca, sb);
        plus_commutes(negated(times(sa, cb)), negated(times(ca, sb)));
    }
    if x[k] == whole::<R>(0) && y[k] == whole::<R>(0) {
        times_commutes(whole(0), u);
        times_commutes(whole(0), v);
        times_nothing(u);
        times_nothing(v);
        plus_nothing(whole::<R>(0));
        times_nothing(turn);
    }
}

// ---- the array factor -------------------------------------------------------

/// The real part of the array factor in the direction `(theta, phi)` in radians: the sum of
/// the real parts of the weights, each turned by the phase of its path.
pub open spec fn factor_re<R: Real, M: Fn(Elementary<R>) -> R>(
    math: M,
    x: Seq<R>,
    y: Seq<R>,
    w: Seq<Complex<R>>,
    theta: R,
    phi: R,
) -> R {
    total(
        whole(0),
        |k: int|
            {
                let p = phase_of_path(math, x[k], y[k], theta, phi);
                minus(
                    times(w[k].re, value(math, Elementary::Cos(p))),
                    times(w[k].im, value(math, Elementary::Sin(p))),
                )
            },
        x.len(),
    )
}

/// The imaginary part of the array factor.
pub open spec fn factor_im<R: Real, M: Fn(Elementary<R>) -> R>(
    math: M,
    x: Seq<R>,
    y: Seq<R>,
    w: Seq<Complex<R>>,
    theta: R,
    phi: R,
) -> R {
    total(
        whole(0),
        |k: int|
            {
                let p = phase_of_path(math, x[k], y[k], theta, phi);
                plus(
                    times(w[k].re, value(math, Elementary::Sin(p))),
                    times(w[k].im, value(math, Elementary::Cos(p))),
                )
            },
        x.len(),
    )
}

/// Twenty times the logarithm of a magnitude above ten to the power of -15, and -150 for any
/// other.
pub open spec fn decibels<R: Real, M: Fn(Elementary<R>) -> R>(math: M, magnitude: R) -> R {
    let least: R = over(whole(1), times(whole(1_000_000_000), whole(1_000_000)));
    if less(least, magnitude) {
        times(whole(20), value(math, Elementary::Log10(magnitude)))
    } else {
        whole(-150)
    }
}

/// The parts of a sum are the sums of the parts.
proof fn parts_of_a_sum<R: Real>(
    f: spec_fn(int) -> Complex<R>,
    re: spec_fn(int) -> R,
    im: spec_fn(int) -> R,
    n: nat,
)
    requires
        forall|k: int| 0 <= k < n ==> #[trigger] f(k) == (Complex { re: re(k), im: im(k) }),
    ensures
        total(whole(0), f, n).re == total(whole(0), re, n),
        total(whole(0), f, n).im == total(whole(0), im, n),
    decreases n,
{
    if n > 0 {
        parts_of_a_sum(f, re, im, (n - 1) as nat);
        assert(f(n - 1) == (Complex { re: re(n - 1), im: im(n - 1) }));
    }
}

/// The level in a direction, by the sums over the elements.
proof fn level_is_of_the_sums<R: Real, M: Fn(Elementary<R>) -> R>(
    math: M,
    x: Seq<R>,
    y: Seq<R>,
    w: Seq<Complex<R>>,
    theta: R,
    phi: R,
)
    ensures
        ({
            let s = value(math, Elementary::Sin(theta));
            let (u, v) = (
                times(s, value(math, Elementary::Cos(phi))),
                times(s, value(math, Elementary::Sin(phi))),
            );
            let (re, im) = (
                factor_re(math, x, y, w, theta, phi),
                factor_im(math, x, y, w, theta, phi),
            );
            &&& response_level(math, x, y, w, u, v) == decibels(
                math,
                value(math, Elementary::Hypot(re, im)),
            )
            &&& power_level(math, x, y, w, u, v) == decibels(
                math,
                value(math, Elementary::Sqrt(plus(times(re, re), times(im, im)))),
            )
        }),
{
    let s = value(math, Elementary::Sin(theta));
    let (u, v) = (
        times(s, value(math, Elementary::Cos(phi))),
        times(s, value(math, Elementary::Sin(phi))),
    );
    let re = |k: int|
        {
            let p = phase_of_path(math, x[k], y[k], theta, phi);
            minus(
                times(w[k].re, value(math, Elementary::Cos(p))),
                times(w[k].im, value(math, Elementary::Sin(p))),
            )
        };
    let im = |k: int|
        {
            let p = phase_of_path(math, x[k], y[k], theta, phi);
            plus(
                times(w[k].re, value(math, Elementary::Sin(p))),
                times(w[k].im, value(math, Elementary::Cos(p))),
            )
        };
    parts_of_a_sum(contributions(math, x, y, w, u, v), re, im, x.len());
}

/// The array factor in a direction is the sum of the weights, each turned on by the phase of
/// the path to its element, and the pattern holds its level, theta by theta. On the device
/// path the host takes the root of the power, which is the same magnitude.
pub proof fn patterns_hold_the_array_factor<R: Real, M: Fn(Elementary<R>) -> R>(
    math: M,
    x: Seq<R>,
    y: Seq<R>,
    w: Seq<Complex<R>>,
    theta: Seq<R>,
    phi: Seq<R>,
    sin_theta: Seq<R>,
    cos_phi: Seq<R>,
    sin_phi: Seq<R>,
    i: int,
    j: int,
)
    requires
        0 <= i < theta.len(),
        0 <= j < phi.len(),
        sin_theta.len() == theta.len(),
        cos_phi.len() == phi.len(),
        sin_phi.len() == phi.len(),
        sin_theta[i] == value(math, Elementary::Sin(theta[i])),
        cos_phi[j] == value(math, Elementary::Cos(phi[j])),
        sin_phi[j] == value(math, Elementary::Sin(phi[j])),
    ensures
        ({
            let n = phi.len() as int;
            let levels = pattern_levels(math, x, y, w, theta, phi);
            let on_device = direction_levels(math, x, y, w, sin_theta, cos_phi, sin_phi);
            let (re, im) = (
                factor_re(math, x, y, w, theta[i], phi[j]),
                factor_im(math, x, y, w, theta[i], phi[j]),
            );
            &&& levels.len() == theta.len() * phi.len()
            &&& on_device.len() == theta.len() * phi.len()
            &&& levels[i * n + j] == decibels(math, value(math, Elementary::Hypot(re, im)))
            &&& on_device[i * n + j] == decibels(
                math,
                value(math, Elementary::Sqrt(plus(times(re, re), times(im, im)))),
            )
        }),
{
    let n = phi.len() as int;
    assert(0 <= i * n && i * n + n <= theta.len() * n) by (nonlinear_arith)
        requires
            0 <= i < theta.len(),
            0 <= n,
    ;
    lemma_fundamental_div_mod_converse(i * n + j, n, i, j);
    level_is_of_the_sums(math, x, y, w, theta[i], phi[j]);
}

/// A cut at `phi_deg` holds the level of the array factor at each of its angles, in degrees.
pub proof fn cuts_hold_the_array_factor<R: Real, M: Fn(Elementary<R>) -> R>(
    math: M,
    x: Seq<R>,
    y: Seq<R>,
    w: Seq<Complex<R>>,
    phi_deg: R,
    theta_deg: Seq<R>,
    i: int,
)
    requires
        0 <= i < theta_deg.len(),
    ensures
        ({
            let (theta, phi) = (
                value(math, Elementary::ToRadians(theta_deg[i])),
                value(math, Elementary::ToRadians(phi_deg)),
            );
            let (re, im) = (
                factor_re(math, x, y, w, theta, phi),
                factor_im(math, x, y, w, theta, phi),
            );
            let levels = cut_levels(math, x, y, w, phi_deg, theta_deg);
            let on_device = angle_levels(math, x, y, w, theta_deg, phi_deg);
            &&& levels.len() == theta_deg.len()
            &&& on_device.len() == theta_deg.len()
            &&& levels[i] == decibels(math, value(math, Elementary::Hypot(re, im)))
            &&& on_device[i] == decibels(
                math,
                value(math, Elementary::Sqrt(plus(times(re, re), times(im, im)))),
            )
        }),
{
    level_is_of_the_sums(
        math,
        x,
        y,
        w,
        value(math, Elementary::ToRadians(theta_deg[i])),
        value(math, Elementary::ToRadians(phi_deg)),
    );
}

// ---- levels -----------------------------------------------------------------

/// Levels are taken below their peak, all by the same: the difference of two of them stays,
/// where nothing is rounded.
pub proof fn normalizing_keeps_differences<R: Real>(values: Seq<R>, i: int, j: int)
    requires
        field::<R>(),
        0 <= i < values.len(),
        0 <= j < values.len(),
    ensures
        normalized(values).len() == values.len(),
        minus(normalized(values)[i], normalized(values)[j]) == minus(values[i], values[j]),
{
    match peak(values) {
        Some(p) => {
            let (a, b) = (values[i], values[j]);
            minus_adds_opposite(a, p);
            minus_adds_opposite(b, p);
            minus_adds_opposite(minus(a, p), minus(b, p));
            opposite_of_sum(b, negated(p));
            opposite_twice(p);
            plus_exchanges(a, negated(p), negated(b), p);
            plus_commutes(negated(p), p);
            opposites_cancel(p);
            plus_nothing(plus(a, negated(b)));
            minus_adds_opposite(a, b);
        },
        None => {},
    }
}

/// Levels are twenty times the logarithm of a magnitude, and -150 for a negligible one: ten
/// times the magnitude lies twenty decibels higher, where nothing is rounded and logarithms
/// are exact.
pub proof fn levels_are_decibels<R: Real, M: Fn(Elementary<R>) -> R>(math: M, magnitude: R)
    requires
        field::<R>(),
        value(math, Elementary::Log10(times(whole(10), magnitude))) == plus(
            whole(1),
            value(math, Elementary::Log10(magnitude)),
        ),
    ensures
        ({
            let least: R = over(whole(1), times(whole(1_000_000_000), whole(1_000_000)));
            let more = times(whole(10), magnitude);
            &&& less(least, magnitude) && less(least, more) ==> level(math, more) == plus(
                whole(20),
                level(math, magnitude),
            )
            &&& less(least, magnitude) ==> level(math, magnitude) == times(
                whole(20),
                value(math, Elementary::Log10(magnitude)),
            )
            &&& !less(least, magnitude) ==> level(math, magnitude) == whole::<R>(-150)
        }),
{
    times_distributes(whole(20), whole(1), value(math, Elementary::Log10(magnitude)));
    times_one(whole::<R>(20));
}

} // verus!
