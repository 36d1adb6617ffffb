//! What a linear array receives, and what direction finders make of it: the parts of their
//! results, taken one by one.
use vstd::prelude::*;
use crate::complex::{conjugate, modulus, Complex};
use crate::eigen::{arranged, diagonalized, tolerance};
use crate::ranking::{rankable, ranking};
use crate::similarity::{eigenpairs_in_order, exact_order, exact_trigonometry};
use crate::table::Matrix;
use crate::exact::{
    angles_add, at_most, complex_field, counts_add, counts_keep_order, field, minus_adds_opposite,
    mirrored, nothing_over, one_is_positive, opposite_of_product, opposite_of_sum, opposite_twice,
    opposites_cancel, order_decides, order_is_total, ordered_field, ordered_powers_tell,
    over_itself, over_of_sum, over_undoes_times, plus_commutes, plus_exchanges, plus_nothing,
    plus_regroups, powers_tell, products_have_signs, quotient_is_unique, quotients_have_signs,
    sum_of_counts, times_commutes, times_distributes, times_nothing, times_one, times_regroups,
    two_is_one_and_one,
};
use crate::levels::{faintest, largest, largest_is_the_largest};
use crate::linalg::{
    adjoint, all_pivots_used, augmented, column, eliminated, equal_products, identity,
    identity_times, image_terms, inverse, inverse_inverts_on_the_right, pivot_floor, product,
    product_terms, products_regroup, usable_pivot,
};
use crate::random::uniform;
use crate::scalar::{
    answer, comparable, count, equal_terms, less, minus, negated, ordering, over, plus, ratio,
    times, total, value, whole, Elementary, Real, Scalar,
};
use crate::super_res::{
    covariance, covariance_is_hermitian, covariance_spectrum, direction, eigenbasis,
    eigenvalue_pair, eigenvalue_pair_solves, esprit_directions, esprit_result, line, loaded,
    look_vector, music_result, noise_power, noise_terms, overlap_terms, pseudo_spectrum, received,
    relative_levels, rows_from, scan_angle, signals, sine_of_degrees, steering, subarray_rotation,
};

verus! {

// ---- the array --------------------------------------------------------------

/// The elements of a linear array stand half a wavelength apart, round the middle.
pub proof fn linear_elements_stand_half_a_wavelength_apart<R: Real>(n: nat, i: int)
    requires
        field::<R>(),
        counts_add::<R>(),
        whole::<R>(2) != whole::<R>(0),
        0 <= i < n,
    ensures
        line::<R>(n).len() == n,
        i + 1 < n ==> line::<R>(n)[i + 1] == plus(line::<R>(n)[i], over(whole(1), whole(2))),
        plus(line::<R>(n)[i], line::<R>(n)[n - 1 - i]) == whole::<R>(0),
{
    let half: R = over(whole(1), whole(2));
    let middle: R = over(count(n - 1), whole(2));
    let (k, one): (R, R) = (count(i), whole(1));
    let at = minus(k, middle);
    minus_adds_opposite(k, middle);
    if i + 1 < n {
        sum_of_counts::<R>(i, 1);
        minus_adds_opposite(plus(k, one), middle);
        plus_regroups(k, one, negated(middle));
        plus_commutes(one, negated(middle));
        plus_regroups(k, negated(middle), one);
        times_commutes(plus(at, one), half);
        times_distributes(half, at, one);
        times_commutes(half, at);
        times_one(half);
    }
    let j = n - 1 - i;
    let l: R = count(j);
    let far = minus(l, middle);
    sum_of_counts::<R>(i, j);
    sum_of_counts::<R>(1, 1);
    minus_adds_opposite(l, middle);
    plus_exchanges(k, negated(middle), l, negated(middle));
    opposite_of_sum(middle, middle);
    times_distributes(middle, one, one);
    times_one(middle);
    over_undoes_times(count::<R>(n - 1), whole(2));
    opposites_cancel(count::<R>(n - 1));
    assert(plus(at, far) == whole::<R>(0));
    times_commutes(at, half);
    times_commutes(far, half);
    times_distributes(half, at, far);
    times_nothing(half);
}

// ---- snapshots --------------------------------------------------------------

/// The wave from the direction `degrees` at the place `at`: it lags by the phase of its path.
pub open spec fn wave<R: Real, M: Fn(Elementary<R>) -> R>(
    math: M,
    at: R,
    degrees: R,
) -> Complex<R> {
    let sine = value(math, Elementary::Sin(value(math, Elementary::ToRadians(degrees))));
    let phase = times(times(times(whole(-2), value(math, Elementary::Pi)), at), sine);
    Complex { re: value(math, Elementary::Cos(phase)), im: value(math, Elementary::Sin(phase)) }
}

/// The complex number that two neighbouring words stand for, times `scale`.
pub open spec fn drawn_pair<R: Real>(words: Seq<u64>, first: int, scale: R) -> Complex<R> {
    Complex {
        re: times(uniform(words[first]), scale),
        im: times(uniform(words[first + 1]), scale),
    }
}

/// An element receives the waves of all sources, each times what its source emits, and noise.
/// What the sources emit is drawn first, source by source, two words for each snapshot, then
/// the noise, element by element. The noise has half its power in either part, and lies
/// `snr_db` below the sources.
pub proof fn elements_receive_waves_and_noise<R: Real, M: Fn(Elementary<R>) -> R>(
    math: M,
    words: Seq<u64>,
    n: nat,
    n_snapshots: int,
    angles: Seq<R>,
    snr_db: R,
    i: int,
    k: int,
)
    requires
        0 <= i < n,
    ensures
        ({
            let place = line::<R>(n)[i];
            let heard = |j: int|
                times(
                    wave(math, place, angles[j]),
                    drawn_pair(
                        words,
                        2 * (j * n_snapshots + k),
                        value(math, Elementary::Sqrt(whole(1))),
                    ),
                );
            let ten: R = value(math, Elementary::Pow(whole(10), over(snr_db, whole(10))));
            let noise = drawn_pair(
                words,
                2 * ((angles.len() + i) * n_snapshots + k),
                value(math, Elementary::Sqrt(over(over(whole(1), ten), whole(2)))),
            );
            received(math, words, n as int, n_snapshots, angles, snr_db)(i, k) == plus(
                total(whole(0), heard, angles.len()),
                noise,
            )
        }),
{
    let place = line::<R>(n)[i];
    let heard = |j: int|
        times(
            wave(math, place, angles[j]),
            drawn_pair(
                words,
                2 * (j * n_snapshots + k),
                value(math, Elementary::Sqrt(whole(1))),
            ),
        );
    let terms = product_terms(
        steering(math, n as int, angles),
        signals(math, words, n_snapshots),
        i,
        k,
    );
    equal_terms(whole(0), heard, terms, angles.len());
}

/// From one element to the next a wave turns back by the half turn that the sine of its
/// direction asks for, where nothing is rounded.
pub proof fn waves_turn_from_element_to_element<R: Real, M: Fn(Elementary<R>) -> R>(
    math: M,
    n: nat,
    angles: Seq<R>,
    i: int,
    j: int,
)
    requires
        field::<R>(),
        counts_add::<R>(),
        whole::<R>(2) != whole::<R>(0),
        whole::<R>(-2) == negated(whole::<R>(2)),
        forall|a: R, b: R| #[trigger] angles_add(math, a, b),
        forall|t: R| #[trigger] mirrored(math, t),
        0 <= i,
        i + 1 < n,
    ensures
        ({
            let sine = value(math, Elementary::Sin(value(math, Elementary::ToRadians(angles[j]))));
            let half_turn = times(value(math, Elementary::Pi), sine);
            let (c, s) = (
                value(math, Elementary::Cos(half_turn)),
                value(math, Elementary::Sin(half_turn)),
            );
            let a = steering(math, n as int, angles);
            &&& a(i + 1, j).re == plus(times(a(i, j).re, c), times(a(i, j).im, s))
            &&& a(i + 1, j).im == minus(times(a(i, j).im, c), times(a(i, j).re, s))
        }),
{
    linear_elements_stand_half_a_wavelength_apart::<R>(n, i);
    let pi = value(math, Elementary::Pi);
    let sine = value(math, Elementary::Sin(value(math, Elementary::ToRadians(angles[j]))));
    let half: R = over(whole(1), whole(2));
    let turn = times(whole(-2), pi);
    let here = line::<R>(n)[i];
    let p = times(pi, sine);
    // The turn over half a wavelength.
    opposite_of_product(whole(2), pi);
    opposite_of_product(times(whole(2), pi), half);
    over_undoes_times(whole::<R>(1), whole(2));
    times_commutes(whole(2), pi);
    times_regroups(pi, whole(2), half);
    times_commutes(whole(2), half);
    times_one(pi);
    assert(times(turn, half) == negated(pi));
    opposite_of_product(pi, sine);
    times_distributes(turn, here, half);
    let (a, b) = (times(turn, here), times(turn, half));
    times_commutes(plus(a, b), sine);
    times_distributes(sine, a, b);
    times_commutes(sine, a);
    times_commutes(sine, b);
    let t = times(a, sine);
    assert(times(times(turn, plus(here, half)), sine) == plus(t, negated(p)));
    assert(angles_add(math, t, negated(p)));
    assert(mirrored(math, p));
    let (ct, st) = (value(math, Elementary::Cos(t)), value(math, Elementary::Sin(t)));
    let (c, s) = (value(math, Elementary::Cos(p)), value(math, Elementary::Sin(p)));
    opposite_of_product(st, s);
    minus_adds_opposite(times(ct, c), negated(times(st, s)));
    opposite_twice(times(st, s));
    opposite_of_product(ct, s);
    minus_adds_opposite(times(st, c), times(ct, s));
}

/// Where nothing is rounded, the noise has the power that the ratio of signal to noise leaves
/// it: the square of its scale, twice, times the ratio is one.
pub proof fn noise_lies_below_the_signal<R: Real, M: Fn(Elementary<R>) -> R>(math: M, snr_db: R)
    requires
        ordered_field::<R>(),
        counts_add::<R>(),
        less(whole(0), value(math, Elementary::Pow(whole(10), over(snr_db, whole(10))))),
        forall|a: R|
            at_most(whole(0), a) ==> {
                let r = #[trigger] value(math, Elementary::Sqrt(a));
                times(r, r) == a
            },
    ensures
        ({
            let ten: R = value(math, Elementary::Pow(whole(10), over(snr_db, whole(10))));
            let scale = value(
                math,
                Elementary::Sqrt(
                    over(noise_power(math, snr_db), whole(2)),
                ),
            );
            times(times(times(scale, scale), whole(2)), ten) == whole::<R>(1)
        }),
{
    order_is_total::<R>();
    let ten: R = value(math, Elementary::Pow(whole(10), over(snr_db, whole(10))));
    one_is_positive::<R>();
    counts_keep_order::<R>(0, 2);
    assert(count::<R>(0) == whole::<R>(0));
    quotients_have_signs(whole(1), ten);
    quotients_have_signs(over(whole(1), ten), whole(2));
    order_decides(whole(0), ten);
    order_decides(whole::<R>(0), whole(2));
    order_decides(whole(0), over(over(whole::<R>(1), ten), whole(2)));
    let share = over(over(whole::<R>(1), ten), whole(2));
    let scale = value(math, Elementary::Sqrt(share));
    assert(times(scale, scale) == share);
    over_undoes_times(over(whole::<R>(1), ten), whole(2));
    over_undoes_times(whole::<R>(1), ten);
}

// ---- covariance -------------------------------------------------------------

/// An entry of the covariance is the mean, over the snapshots, of what one element receives
/// times the conjugate of what the other receives.
pub proof fn covariances_are_means<R: Real>(
    x: spec_fn(int, int) -> Complex<R>,
    n_snapshots: nat,
    i: int,
    j: int,
)
    ensures
        ({
            let c: R = count(n_snapshots as int);
            let sum = total(
                whole(0),
                |k: int|
                    times(
                        x(i, k),
                        Complex { re: x(j, k).re, im: negated(x(j, k).im) },
                    ),
                n_snapshots,
            );
            let mean = covariance(x, n_snapshots)(i, j);
            &&& mean.re == over(sum.re, c)
            &&& mean.im == over(sum.im, c)
        }),
{
    let c: R = count(n_snapshots as int);
    let f = |k: int| times(x(i, k), Complex { re: x(j, k).re, im: negated(x(j, k).im) });
    equal_terms(whole(0), f, product_terms(x, adjoint(x), i, j), n_snapshots);
}

/// The loaded covariance holds the covariance above its diagonal, the conjugates of that below
/// it, and the raised covariance on it.
pub proof fn loading_keeps_what_is_above_the_diagonal<R: Real>(
    x: spec_fn(int, int) -> Complex<R>,
    n_snapshots: nat,
    loading: R,
    i: int,
    j: int,
)
    requires
        i < j,
    ensures
        ({
            let (l, c) = (loaded(x, n_snapshots, loading), covariance(x, n_snapshots));
            &&& l(i, j) == c(i, j)
            &&& l(j, i).re == c(i, j).re && l(j, i).im == negated(c(i, j).im)
            &&& l(i, i).re == plus(c(i, i).re, loading) && l(i, i).im == c(i, i).im
        }),
{
}

/// Diagonal loading raises the diagonal of the covariance and nothing else, where nothing is
/// rounded.
pub proof fn loading_raises_the_diagonal<R: Real>(
    x: spec_fn(int, int) -> Complex<R>,
    n_snapshots: nat,
    loading: R,
    i: int,
    j: int,
)
    requires
        field::<R>(),
        powers_tell::<R>(),
        count::<R>(n_snapshots as int) != whole::<R>(0),
        0 <= i,
        0 <= j,
    ensures
        loaded(x, n_snapshots, loading)(i, j).im == covariance(x, n_snapshots)(i, j).im,
        i != j ==> loaded(x, n_snapshots, loading)(i, j).re == covariance(x, n_snapshots)(i, j).re,
        loaded(x, n_snapshots, loading)(i, i).re == plus(
            covariance(x, n_snapshots)(i, i).re,
            loading,
        ),
{
    covariance_is_hermitian(x, n_snapshots, (i + j + 1) as nat);
    assert(covariance(x, n_snapshots)(i, j) == conjugate(covariance(x, n_snapshots)(j, i)));
}

// ---- MUSIC ------------------------------------------------------------------

/// The scanned angles run from -90 to 90 degrees in equal steps, where nothing is rounded.
pub proof fn scans_run_from_horizon_to_horizon<R: Real>(n: int, i: int)
    requires
        ordered_field::<R>(),
        counts_add::<R>(),
        2 <= n,
        0 <= i < n - 1,
        plus(whole::<R>(-90), whole(180)) == whole::<R>(90),
    ensures
        scan_angle::<R>(n, 0) == whole::<R>(-90),
        scan_angle::<R>(n, n - 1) == whole::<R>(90),
        minus(scan_angle::<R>(n, i + 1), scan_angle::<R>(n, i)) == over(
            whole(180),
            count::<R>(n - 1),
        ),
{
    order_is_total::<R>();
    let c: R = count(n - 1);
    counts_keep_order::<R>(0, n - 1);
    assert(count::<R>(0) == whole::<R>(0));
    order_decides(whole(0), c);
    let all: R = whole(180);
    let low: R = whole(-90);
    times_nothing(all);
    nothing_over(c);
    plus_nothing(low);
    over_undoes_times(all, c);
    quotient_is_unique(all, times(all, c), c);
    sum_of_counts::<R>(i, 1);
    times_distributes(all, count(i), whole(1));
    times_one(all);
    over_of_sum(times(all, count(i)), all, c);
    let (a, b) = (over(times(all, count(i)), c), over(all, c));
    minus_adds_opposite(plus(low, plus(a, b)), plus(low, a));
    opposite_of_sum(low, a);
    plus_regroups(low, a, b);
    plus_commutes(plus(low, a), b);
    plus_regroups(b, plus(low, a), negated(plus(low, a)));
    opposites_cancel(plus(low, a));
    plus_nothing(b);
}

/// The pseudo-spectrum in a direction is the reciprocal of how much of the wave from there
/// lies in the columns from `n_sources` on, and of ten to the power of -15: the sum of the
/// powers of its inner products with those columns.
pub proof fn pseudo_spectra_are_reciprocals<R: Real, M: Fn(Elementary<R>) -> R>(
    math: M,
    basis: spec_fn(int, int) -> Complex<R>,
    n: nat,
    n_sources: nat,
    degrees: R,
)
    requires
        n_sources <= n,
    ensures
        ({
            let seen = |c: int|
                {
                    let z = total(
                        whole(0),
                        |k: int|
                            times(
                                conjugate(wave(math, line::<R>(n)[k], degrees)),
                                basis(k, n_sources + c),
                            ),
                        n,
                    );
                    plus(times(z.re, z.re), times(z.im, z.im))
                };
            let least: R = over(whole(1), times(whole(1_000_000_000), whole(1_000_000)));
            pseudo_spectrum(math, basis, n as int, n_sources as int, degrees) == over(
                whole(1),
                plus(total(whole(0), seen, (n - n_sources) as nat), least),
            )
        }),
{
    let seen = |c: int|
        {
            let z = total(
                whole(0),
                |k: int|
                    times(
                        conjugate(wave(math, line::<R>(n)[k], degrees)),
                        basis(k, n_sources + c),
                    ),
                n,
            );
            plus(times(z.re, z.re), times(z.im, z.im))
        };
    let sine = sine_of_degrees(math, degrees);
    let terms = noise_terms(math, basis, n as int, n_sources as int, sine);
    assert forall|c: int| 0 <= c < n - n_sources implies #[trigger] seen(c) == terms(c) by {
        let f = |k: int|
            times(
                conjugate(wave(math, line::<R>(n)[k], degrees)),
                basis(k, n_sources + c),
            );
        let g = overlap_terms(math, basis, n as int, sine, n_sources + c);
        equal_terms(whole(0), f, g, n);
    }
    equal_terms(whole(0), seen, terms, (n - n_sources) as nat);
}

/// A MUSIC spectrum holds the scanned angles, and at each of them the level of the
/// pseudo-spectrum there: ten times the logarithm of its share of the strongest one, which
/// stands at `top`. There is one exactly where the eigenvalues of the covariance can be put in
/// order.
pub proof fn music_spectra_hold_the_pseudo_spectrum<R: Real, M: Fn(Elementary<R>) -> R>(
    math: M,
    n_elements: int,
    snapshots: Matrix<Complex<R>>,
    n_sources: int,
    n_angles: nat,
    i: int,
    top: int,
)
    requires
        ordered_field::<R>(),
        0 <= i < n_angles,
        0 <= top < n_angles,
        ({
            let basis = eigenbasis(math, snapshots);
            let seen = |k: int|
                pseudo_spectrum(math, basis, n_elements, n_sources, scan_angle(n_angles as int, k));
            &&& at_most(whole(0), seen(top))
            &&& forall|k: int| 0 <= k < n_angles ==> at_most(#[trigger] seen(k), seen(top))
        }),
    ensures
        ({
            let basis = eigenbasis(math, snapshots);
            let here = plus(
                whole::<R>(-90),
                over(times(whole(180), count(i)), count(n_angles - 1)),
            );
            let there = plus(
                whole::<R>(-90),
                over(times(whole(180), count(top)), count(n_angles - 1)),
            );
            let share = over(
                pseudo_spectrum(math, basis, n_elements, n_sources, here),
                pseudo_spectrum(math, basis, n_elements, n_sources, there),
            );
            match music_result(math, n_elements, snapshots, n_sources, n_angles) {
                Some((theta_deg, spectrum_db)) => {
                    &&& theta_deg.len() == n_angles && spectrum_db.len() == n_angles
                    &&& theta_deg[i] == here
                    &&& spectrum_db[i] == times(
                        whole(10),
                        value(math, Elementary::Log10(share)),
                    )
                },
                None => false,
            }
        }),
{
    order_is_total::<R>();
    let basis = eigenbasis(math, snapshots);
    let seen = |k: int|
        pseudo_spectrum(math, basis, n_elements, n_sources, scan_angle(n_angles as int, k));
    let powers = Seq::new(n_angles, seen);
    assert forall|k: int| 0 <= k < powers.len() implies at_most(
        #[trigger] powers[k],
        powers[top],
    ) by {
        assert(at_most(seen(k), seen(top)));
    }
    levels_are_below_the_strongest(math, powers, i, top);
    let d = covariance_spectrum(math, snapshots).0;
    assert forall|a: int, b: int|
        0 <= a < d.len() && 0 <= b < d.len() && a != b implies #[trigger] comparable(
        d[a],
        d[b],
    ) by {}
    assert(rankable(d));
    let shown = Seq::new(
        n_angles,
        |k: int|
            pseudo_spectrum(math, basis, n_elements, n_sources, scan_angle(n_angles as int, k)),
    );
    assert(shown =~= powers);
}

/// Where two eigenvalues of the covariance cannot be put in order, there is neither a MUSIC
/// spectrum nor an ESPRIT estimate.
pub proof fn no_order_no_estimate<
    R: Real,
    M: Fn(Elementary<R>) -> R,
    Q: Fn(Complex<R>) -> Complex<R>,
>(
    math: M,
    root: Q,
    n_elements: int,
    snapshots: Matrix<Complex<R>>,
    n_sources: int,
    n_angles: nat,
    i: int,
    j: int,
)
    requires
        0 <= i < snapshots.height(),
        0 <= j < snapshots.height(),
        i != j,
        !comparable(
            covariance_spectrum(math, snapshots).0[i],
            covariance_spectrum(math, snapshots).0[j],
        ),
    ensures
        music_result(math, n_elements, snapshots, n_sources, n_angles) is None,
        esprit_result(math, root, n_elements, snapshots, n_sources) is None,
{
}

/// Where the eigenvalues of the covariance can be put in order, an ESPRIT estimate holds the two
/// directions, the lower one first, exactly where the two compare.
pub proof fn esprit_estimates_hold_both_directions<
    R: Real,
    M: Fn(Elementary<R>) -> R,
    Q: Fn(Complex<R>) -> Complex<R>,
>(math: M, root: Q, n_elements: int, snapshots: Matrix<Complex<R>>, n_sources: int)
    requires
        ordering::<R>(),
        forall|i: int, j: int|
            0 <= i < snapshots.height() && 0 <= j < snapshots.height() && i != j ==> #[trigger]
            comparable(
                covariance_spectrum(math, snapshots).0[i],
                covariance_spectrum(math, snapshots).0[j],
            ),
    ensures
        ({
            let (s, t) = esprit_directions(
                math,
                root,
                eigenbasis(math, snapshots),
                n_elements,
                n_sources,
            );
            match esprit_result(math, root, n_elements, snapshots, n_sources) {
                Some(found) => {
                    &&& comparable(s, t)
                    &&& found == seq![s, t] || found == seq![t, s]
                    &&& !less(found[1], found[0])
                },
                None => !comparable(s, t),
            }
        }),
{
    assert(rankable(covariance_spectrum(math, snapshots).0));
}

/// The columns that MUSIC and ESPRIT work on are the eigenvectors of the covariance, from the
/// largest eigenvalue down, where nothing is rounded and the rotations leave nothing off the
/// diagonal.
pub proof fn columns_are_eigenvectors_of_the_covariance<R: Real, M: Fn(Elementary<R>) -> R>(
    math: M,
    snapshots: Matrix<Complex<R>>,
    j: int,
    k: int,
)
    requires
        field::<R>(),
        powers_tell::<R>(),
        two_is_one_and_one::<R>(),
        exact_trigonometry(math),
        exact_order::<R>(),
        snapshots.height() <= usize::MAX,
        count::<R>(snapshots.breadth() as int) != whole::<R>(0),
        forall|r: int, c: int|
            0 <= r < snapshots.height() && 0 <= c < snapshots.height() && r != c ==> #[trigger]
            diagonalized(
                math,
                snapshots.height() as int,
                covariance(snapshots.entry(), snapshots.breadth()),
                identity(),
                50 * snapshots.height(),
            ).0(r, c) == whole::<Complex<R>>(0),
        0 <= j < snapshots.height(),
        0 <= k < snapshots.height(),
    ensures
        ({
            let n = snapshots.height();
            let cov = covariance(snapshots.entry(), snapshots.breadth());
            let v = eigenbasis(math, snapshots);
            let d = covariance_spectrum(math, snapshots).0;
            let values = arranged(d, ranking(d, n));
            &&& total(whole(0), |l: int| times(cov(k, l), v(l, j)), n) == Complex {
                re: times(v(k, j).re, values[j]),
                im: times(v(k, j).im, values[j]),
            }
            &&& j + 1 < n ==> !less(values[j], values[j + 1])
        }),
{
    let n = snapshots.height();
    let cov = covariance(snapshots.entry(), snapshots.breadth());
    covariance_is_hermitian(snapshots.entry(), snapshots.breadth(), n);
    eigenpairs_in_order(math, cov, n, j, k);
    let v = eigenbasis(math, snapshots);
    let f = |l: int| times(cov(k, l), v(l, j));
    assert(f =~= image_terms(cov, column(v, j), k));
}

/// The levels of powers are ten times the logarithms of their shares of the strongest one.
pub proof fn levels_are_below_the_strongest<R: Real, M: Fn(Elementary<R>) -> R>(
    math: M,
    powers: Seq<R>,
    i: int,
    top: int,
)
    requires
        ordered_field::<R>(),
        0 <= i < powers.len(),
        0 <= top < powers.len(),
        at_most(whole(0), powers[top]),
        forall|k: int| 0 <= k < powers.len() ==> at_most(#[trigger] powers[k], powers[top]),
    ensures
        relative_levels(math, powers).len() == powers.len(),
        relative_levels(math, powers)[i] == times(
            whole(10),
            value(math, Elementary::Log10(over(powers[i], powers[top]))),
        ),
{
    order_is_total::<R>();
    let all = seq![whole::<R>(0)] + powers;
    assert forall|a: int, b: int|
        0 <= a < all.len() && 0 <= b < all.len() implies #[trigger] comparable(all[a], all[b]) by {}
    largest_is_the_largest(whole(0), powers);
    let m = largest(whole(0), powers);
    order_decides(m, powers[top]);
    assert(!less(m, powers[top]));
    if m != whole::<R>(0) {
        let k = choose|k: int| 0 <= k < powers.len() && #[trigger] powers[k] == m;
        assert(at_most(powers[k], powers[top]));
    } else {
        order_decides(whole(0), powers[top]);
    }
}

// ---- ESPRIT -----------------------------------------------------------------

/// The rotation between the subarrays solves the normal equations of carrying the upper rows
/// of the basis to the lower ones, where nothing is rounded and elimination passes over no
/// column: the upper rows, the basis but its last, and the lower ones, the basis but its first.
pub proof fn rotations_solve_the_normal_equations<R: Real, M: Fn(Elementary<R>) -> R>(
    math: M,
    basis: spec_fn(int, int) -> Complex<R>,
    n: int,
    k: int,
    i: int,
    j: int,
)
    requires
        field::<R>(),
        powers_tell::<R>(),
        less(modulus(math, whole(0)), pivot_floor()),
        1 <= n,
        all_pivots_used(
            product(adjoint(basis), basis, (n - 1) as nat),
            usable_pivot(math),
            k,
        ),
        0 <= i < k,
        0 <= j < k,
    ensures
        ({
            let m = (n - 1) as nat;
            let lower = |r: int, c: int| basis(r + 1, c);
            product(
                product(adjoint(basis), basis, m),
                subarray_rotation(math, basis, n, k),
                k as nat,
            )(i, j) == product(adjoint(basis), lower, m)(i, j)
        }),
{
    complex_field::<R>();
    let m = (n - 1) as nat;
    let upper = rows_from(basis, 0);
    let lower = rows_from(basis, 1);
    assert(upper =~= basis);
    let shown = |r: int, c: int| basis(r + 1, c);
    assert(lower =~= shown);
    let gram = product(adjoint(basis), basis, m);
    let inv = inverse(gram, usable_pivot(math), k);
    let right = product(adjoint(basis), lower, m);
    let psi = subarray_rotation(math, basis, n, k);
    assert(psi == product(inv, right, k as nat));
    products_regroup(gram, inv, right, k as nat, k as nat, i, j);
    assert forall|c: int| 0 <= c < k implies #[trigger] product(gram, inv, k as nat)(i, c)
        == identity::<Complex<R>>()(i, c) by {
        inverse_inverts_on_the_right(gram, usable_pivot(math), k, i, c);
    }
    equal_products(product(gram, inv, k as nat), right, identity(), right, k as nat, i, j);
    identity_times(right, k as nat, i, j);
}

/// The directions that ESPRIT finds belong to the two eigenvalues of the first two rows and
/// columns of the rotation between the subarrays, which add up to the trace and multiply to
/// the determinant, where nothing is rounded and roots are roots. The sine of a direction,
/// times half a turn, is the opposite of the angle of its eigenvalue.
pub proof fn esprit_directions_belong_to_eigenvalues<
    R: Real,
    M: Fn(Elementary<R>) -> R,
    Q: Fn(Complex<R>) -> Complex<R>,
>(
    math: M,
    root: Q,
    basis: spec_fn(int, int) -> Complex<R>,
    n: int,
    k: int,
)
    requires
        ordered_field::<R>(),
        counts_add::<R>(),
        less(whole(0), value(math, Elementary::Pi)),
        forall|z: Complex<R>| times(#[trigger] answer(root, z), answer(root, z)) == z,
        forall|z: Complex<R>|
            #[trigger] angle_is_a_half_turn_at_most(math, z),
        forall|a: R|
            #[trigger] value(
                math,
                Elementary::ToRadians(value(math, Elementary::ToDegrees(a))),
            ) == a,
    ensures
        exists|a: Complex<R>, b: Complex<R>|
            {
                let psi = subarray_rotation(math, basis, n, k);
                let found = esprit_directions(math, root, basis, n, k);
                let half_turn = value(math, Elementary::Pi);
                let sine = |t: R|
                    value(math, Elementary::Sin(value(math, Elementary::ToRadians(t))));
                &&& #[trigger] plus(a, b) == plus(psi(0, 0), psi(1, 1))
                &&& times(a, b) == minus(
                    times(psi(0, 0), psi(1, 1)),
                    times(psi(0, 1), psi(1, 0)),
                )
                &&& times(half_turn, sine(found.0)) == negated(
                    value(math, Elementary::Atan2(a.im, a.re)),
                )
                &&& times(half_turn, sine(found.1)) == negated(
                    value(math, Elementary::Atan2(b.im, b.re)),
                )
            },
{
    order_is_total::<R>();
    ordered_powers_tell::<R>();
    sum_of_counts::<R>(1, 1);
    sum_of_counts::<R>(2, 2);
    let two: R = whole(2);
    times_distributes(two, whole(1), whole(1));
    times_one(two);
    counts_keep_order::<R>(0, 2);
    assert(count::<R>(0) == whole::<R>(0));
    order_decides(whole(0), two);
    let psi = subarray_rotation(math, basis, n, k);
    eigenvalue_pair_solves(root, psi);
    let pair = eigenvalue_pair(root, psi);
    let (a, b) = (pair[0], pair[1]);
    directions_undo_angles(math, a);
    directions_undo_angles(math, b);
    assert(plus(a, b) == plus(psi(0, 0), psi(1, 1)));
}

/// The opposite of the angle of `z` is at most half a turn, either way: its share of half a
/// turn is the sine of its arcsine.
pub open spec fn angle_is_a_half_turn_at_most<R: Real, M: Fn(Elementary<R>) -> R>(
    math: M,
    z: Complex<R>,
) -> bool {
    let share = over(
        negated(value(math, Elementary::Atan2(z.im, z.re))),
        value(math, Elementary::Pi),
    );
    value(math, Elementary::Sin(value(math, Elementary::Asin(share)))) == share
}

/// The sine of the direction of `z`, times half a turn, is the opposite of its angle.
proof fn directions_undo_angles<R: Real, M: Fn(Elementary<R>) -> R>(math: M, z: Complex<R>)
    requires
        ordered_field::<R>(),
        counts_add::<R>(),
        less(whole(0), value(math, Elementary::Pi)),
        angle_is_a_half_turn_at_most(math, z),
        forall|a: R|
            #[trigger] value(
                math,
                Elementary::ToRadians(value(math, Elementary::ToDegrees(a))),
            ) == a,
    ensures
        times(
            value(math, Elementary::Pi),
            value(
                math,
                Elementary::Sin(value(math, Elementary::ToRadians(direction(math, z)))),
            ),
        ) == negated(value(math, Elementary::Atan2(z.im, z.re))),
{
    order_is_total::<R>();
    let pi = value(math, Elementary::Pi);
    let two: R = whole(2);
    let half: R = ratio(1, 2);
    counts_keep_order::<R>(0, 2);
    assert(count::<R>(0) == whole::<R>(0));
    order_decides(whole(0), two);
    order_decides(whole(0), pi);
    over_undoes_times(whole::<R>(1), two);
    times_commutes(two, pi);
    times_regroups(pi, two, half);
    times_commutes(two, half);
    times_one(pi);
    assert(times(times(two, pi), half) == pi);
    let turned = negated(value(math, Elementary::Atan2(z.im, z.re)));
    let share = over(turned, pi);
    let a = value(math, Elementary::Asin(share));
    assert(value(math, Elementary::ToRadians(value(math, Elementary::ToDegrees(a)))) == a);
    over_undoes_times(turned, pi);
    times_commutes(pi, share);
}

// ---- MVDR -------------------------------------------------------------------

/// The look vector of MVDR is the wave from the look direction at each element, where nothing
/// is rounded.
pub proof fn look_vectors_are_waves<R: Real, M: Fn(Elementary<R>) -> R>(
    math: M,
    x: Seq<R>,
    degrees: R,
    i: int,
)
    requires
        field::<R>(),
        whole::<R>(-2) == negated(whole::<R>(2)),
        forall|t: R| #[trigger] mirrored(math, t),
    ensures
        look_vector(
            math,
            x,
            value(math, Elementary::Sin(value(math, Elementary::ToRadians(degrees)))),
        )(i) == wave(math, x[i], degrees),
{
    let pi = value(math, Elementary::Pi);
    let s = value(math, Elementary::Sin(value(math, Elementary::ToRadians(degrees))));
    opposite_of_product(whole(2), pi);
    opposite_of_product(times(whole(2), pi), x[i]);
    opposite_of_product(times(times(whole(2), pi), x[i]), s);
    assert(mirrored(math, times(times(times(whole(2), pi), x[i]), s)));
}

// ---- thresholds -------------------------------------------------------------

/// A pivot is used down to a modulus of ten to the power of -12, rotations go on down to one
/// of ten to the power of -10, and powers are kept ten to the power of -15 apart from nothing.
pub proof fn thresholds_are_powers_of_ten<R: Real, M: Fn(Elementary<R>) -> R>(
    math: M,
    z: Complex<R>,
)
    requires
        ordered_field::<R>(),
        counts_add::<R>(),
    ensures
        times(pivot_floor::<R>(), times(whole(1_000_000), whole(1_000_000))) == whole::<R>(1),
        times(tolerance::<R>(), times(whole(100_000), whole(100_000))) == whole::<R>(1),
        times(faintest::<R>(), times(whole(1_000_000_000), whole(1_000_000))) == whole::<R>(1),
        usable_pivot(math)(z) <==> !less(
            value(math, Elementary::Hypot(z.re, z.im)),
            over(whole(1), times(whole(1_000_000), whole(1_000_000))),
        ),
{
    order_is_total::<R>();
    counts_keep_order::<R>(0, 1_000_000);
    counts_keep_order::<R>(0, 100_000);
    counts_keep_order::<R>(0, 1_000_000_000);
    assert(count::<R>(0) == whole::<R>(0));
    let (a, b, c): (R, R, R) = (whole(1_000_000), whole(100_000), whole(1_000_000_000));
    order_decides(whole(0), a);
    order_decides(whole(0), b);
    order_decides(whole(0), c);
    products_have_signs(a, a);
    products_have_signs(b, b);
    products_have_signs(c, a);
    order_decides(whole(0), times(a, a));
    order_decides(whole(0), times(b, b));
    order_decides(whole(0), times(c, a));
    over_undoes_times(whole::<R>(1), times(a, a));
    over_undoes_times(whole::<R>(1), times(b, b));
    over_undoes_times(whole::<R>(1), times(c, a));
}

/// Where no pivot is used, elimination changes nothing, and the identity comes back.
pub proof fn without_pivots_the_identity_comes_back<T: Scalar>(
    a: spec_fn(int, int) -> T,
    usable: spec_fn(T) -> bool,
    n: int,
    i: int,
    j: int,
)
    requires
        forall|z: T| !#[trigger] usable(z),
        0 <= i < n,
        0 <= j < n,
    ensures
        inverse(a, usable, n)(i, j) == if i == j {
            whole::<T>(1)
        } else {
            whole::<T>(0)
        },
{
    nothing_is_eliminated(augmented(a, n), usable, n as nat);
}

/// Where nothing is rounded, a diagonal matrix is inverted entry by entry: an entry that is
/// used as a pivot gives its reciprocal, and one that is passed over gives one.
pub proof fn diagonal_matrices_are_inverted_entry_by_entry<T: Scalar>(
    a: spec_fn(int, int) -> T,
    usable: spec_fn(T) -> bool,
    n: int,
    i: int,
    j: int,
)
    requires
        field::<T>(),
        forall|z: T| #[trigger] usable(z) ==> z != whole::<T>(0),
        forall|r: int, c: int|
            0 <= r < n && 0 <= c < n && r != c ==> #[trigger] a(r, c) == whole::<T>(0),
        0 <= i < n,
        0 <= j < n,
    ensures
        i != j ==> inverse(a, usable, n)(i, j) == whole::<T>(0),
        usable(a(i, i)) ==> inverse(a, usable, n)(i, i) == over(whole(1), a(i, i)),
        !usable(a(i, i)) ==> inverse(a, usable, n)(i, i) == whole::<T>(1),
{
    diagonal_stage(a, usable, n, n as nat, i, j);
}

/// What elimination has made of a diagonal matrix after `cols` columns.
proof fn diagonal_stage<T: Scalar>(
    a: spec_fn(int, int) -> T,
    usable: spec_fn(T) -> bool,
    n: int,
    cols: nat,
    i: int,
    j: int,
)
    requires
        field::<T>(),
        forall|z: T| #[trigger] usable(z) ==> z != whole::<T>(0),
        forall|r: int, c: int|
            0 <= r < n && 0 <= c < n && r != c ==> #[trigger] a(r, c) == whole::<T>(0),
        cols <= n,
        0 <= i < n,
        0 <= j < n,
    ensures
        ({
            let m = eliminated(augmented(a, n), usable, cols);
            let used = i < cols && usable(a(i, i));
            &&& i != j ==> m(i, j) == whole::<T>(0) && m(i, n + j) == whole::<T>(0)
            &&& used ==> m(i, i) == whole::<T>(1) && m(i, n + i) == over(whole(1), a(i, i))
            &&& !used ==> m(i, i) == a(i, i) && m(i, n + i) == whole::<T>(1)
        }),
    decreases cols,
{
    if cols > 0 {
        let c = cols - 1;
        let before = eliminated(augmented(a, n), usable, c as nat);
        diagonal_stage(a, usable, n, c as nat, i, j);
        diagonal_stage(a, usable, n, c as nat, i, c);
        diagonal_stage(a, usable, n, c as nat, c, i);
        diagonal_stage(a, usable, n, c as nat, c, j);
        let p = before(c, c);
        assert(p == a(c, c));
        if usable(p) {
            let zero: T = whole(0);
            over_itself(p);
            nothing_over(p);
            if i != c {
                assert(before(i, c) == zero);
                unchanged_by_nothing(before(i, j), over(before(c, j), p));
                unchanged_by_nothing(before(i, n + j), over(before(c, n + j), p));
                unchanged_by_nothing(before(i, i), over(before(c, i), p));
                unchanged_by_nothing(before(i, n + i), over(before(c, n + i), p));
            }
        }
    }
}

/// Taking nothing times anything away changes nothing.
proof fn unchanged_by_nothing<T: Scalar>(a: T, b: T)
    requires
        field::<T>(),
    ensures
        minus(a, times(whole(0), b)) == a,
{
    times_commutes(whole(0), b);
    times_nothing(b);
    minus_adds_opposite(a, whole(0));
    opposites_cancel(whole::<T>(0));
    plus_commutes(whole(0), negated(whole::<T>(0)));
    plus_nothing(negated(whole::<T>(0)));
    plus_nothing(a);
}

proof fn nothing_is_eliminated<T: Scalar>(
    m: spec_fn(int, int) -> T,
    usable: spec_fn(T) -> bool,
    cols: nat,
)
    requires
        forall|z: T| !#[trigger] usable(z),
    ensures
        eliminated(m, usable, cols) == m,
    decreases cols,
{
    if cols > 0 {
        nothing_is_eliminated(m, usable, (cols - 1) as nat);
    }
}

} // verus!
