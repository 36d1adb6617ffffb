//! Direction finding with a uniform linear array: synthetic snapshots, MUSIC, ESPRIT
//! and MVDR weights.
use vstd::prelude::*;
use core::ops::Neg;
use crate::complex::{
    angle, complex_operators, conjugate, divided, modulus, phasor, power, scaled, Complex,
};
use crate::exact::{
    arithmetic_on_axis, complex_field, conjugate_of_product, conjugate_of_sum, conjugate_twice,
    counts_add, field, middle_cancels, minus_adds_opposite, negative_quotient, nothing_over,
    on_axis, opposite_of_nothing, opposite_of_product, opposite_of_sum, opposite_twice,
    opposites_cancel, over_of_product, over_undoes_times, plus_cancels, plus_commutes,
    plus_exchanges, plus_nothing, plus_regroups, powers_tell, quotient_is_unique,
    scaling_is_product, times_commutes, times_distributes, times_exchanges, times_nothing,
    times_one, times_regroups, total_of_multiples, total_of_nothing, two_is_one_and_one,
};
use crate::eigen::{agree, arranged, columns_arranged, eigen_hermitian, equal_spectra, spectrum};
use crate::levels::{faintest, in_line, largest, largest_is_the_largest, least_magnitude, maximum};
use crate::linalg::{
    adjoint, all_pivots_used, along, apply, conjugate_transpose, equal_inverses, equal_products,
    identity, identity_times, image, image_terms, inner_terms, inverse, inverse_inverts,
    inverse_solves, invert_2d, multiply, pivot_floor, product, product_entry, products_regroup,
    usable_pivot,
};
use crate::parallel::{collectable, map_indices};
use crate::random::{draw, drawn, word_stream, words};
use crate::ranking::{rankable, ranking};
use crate::scalar::{
    answer, answers, arithmetic, comparable, count, counted, equal_terms, evaluates, fraction,
    in_order, less, minus, negated, ordering, over, plus, ratio, times, total, value, whole,
    Elementary, Real,
};
use crate::forms::{form, form_is_hermitian};
use crate::similarity::{
    combines, hermitian, image_of_combination, inner, inner_is_hermitian, inner_of_combination,
    inner_with_combination,
};
use crate::table::{cell_is_inside, vector_of, Matrix};

verus! {

// ---- the linear array -------------------------------------------------------

/// The position of element `i` of `n`, half a wavelength apart and centred.
pub open spec fn line_position<R: Real>(n: int, i: int) -> R {
    times(minus(count(i), over(count(n - 1), whole(2))), ratio(1, 2))
}

/// The positions of the `n` elements.
pub open spec fn line<R: Real>(n: nat) -> Seq<R> {
    Seq::new(n, |i: int| line_position(n as int, i))
}

/// The positions of the `n` elements.
pub fn line_positions<R: Real>(n: usize) -> (r: Vec<R>)
    requires
        arithmetic::<R>(),
    ensures
        r@ == line::<R>(n as nat),
{
    vector_of(
        n,
        |i: usize| -> (x: R)
            requires
                i < n,
            ensures
                x == line_position::<R>(n as int, i as int),
            {
                (counted::<R>(i as u64) - counted::<R>((n - 1) as u64) / R::from(2))
                    * fraction(1, 2)
            })
}

/// The sine of an angle given in degrees.
pub open spec fn sine_of_degrees<R: Real, M: Fn(Elementary<R>) -> R>(math: M, degrees: R) -> R {
    value(math, Elementary::Sin(value(math, Elementary::ToRadians(degrees))))
}

/// How a wave from a direction with this sine arrives at this position.
pub open spec fn arrival<R: Real, M: Fn(Elementary<R>) -> R>(
    math: M,
    position: R,
    sine: R,
) -> Complex<R> {
    phasor(math, times(times(times(whole(-2), value(math, Elementary::Pi)), position), sine))
}

/// How a wave from a direction with this sine arrives at this position.
fn arriving<R: Real, M: Fn(Elementary<R>) -> R>(position: R, sine: R, math: &M) -> (r: Complex<R>)
    requires
        arithmetic::<R>(),
        evaluates(*math),
    ensures
        r == arrival(*math, position, sine),
{
    Complex::cis(R::from(-2) * math(Elementary::Pi) * position * sine, math)
}

// ---- snapshots --------------------------------------------------------------

/// Entry `(i, j)`: how source `j` arrives at element `i`.
pub open spec fn steering<R: Real, M: Fn(Elementary<R>) -> R>(
    math: M,
    n: int,
    angles: Seq<R>,
) -> spec_fn(int, int) -> Complex<R> {
    |i: int, j: int| arrival(math, line_position(n, i), sine_of_degrees(math, angles[j]))
}

/// Entry `(j, k)`: what source `j` emits in snapshot `k`.
pub open spec fn signals<R: Real, M: Fn(Elementary<R>) -> R>(
    math: M,
    words: Seq<u64>,
    n_snapshots: int,
) -> spec_fn(int, int) -> Complex<R> {
    |j: int, k: int|
        scaled(draw(words, j * n_snapshots + k), value(math, Elementary::Sqrt(whole(1))))
}

/// The power of the noise under signals of unit power.
pub open spec fn noise_power<R: Real, M: Fn(Elementary<R>) -> R>(math: M, snr_db: R) -> R {
    over(whole(1), value(math, Elementary::Pow(whole(10), over(snr_db, whole(10)))))
}

/// Entry `(i, k)`: the noise at element `i` in snapshot `k`, drawn after the signals of
/// `n_sources` sources.
pub open spec fn noise<R: Real, M: Fn(Elementary<R>) -> R>(
    math: M,
    words: Seq<u64>,
    n_snapshots: int,
    n_sources: int,
    snr_db: R,
) -> spec_fn(int, int) -> Complex<R> {
    |i: int, k: int|
        scaled(
            draw(words, (n_sources + i) * n_snapshots + k),
            value(math, Elementary::Sqrt(over(noise_power(math, snr_db), whole(2)))),
        )
}

/// Entry `(i, k)`: what element `i` receives in snapshot `k`.
pub open spec fn received<R: Real, M: Fn(Elementary<R>) -> R>(
    math: M,
    words: Seq<u64>,
    n_elements: int,
    n_snapshots: int,
    angles: Seq<R>,
    snr_db: R,
) -> spec_fn(int, int) -> Complex<R> {
    |i: int, k: int|
        plus(
            product(
                steering(math, n_elements, angles),
                signals(math, words, n_snapshots),
                angles.len(),
            )(i, k),
            noise(math, words, n_snapshots, angles.len() as int, snr_db)(i, k),
        )
}

/// Snapshots of sources at the given angles, out of the given random words.
pub fn snapshots_from<R: Real, M: Fn(Elementary<R>) -> R>(
    n_elements: usize,
    n_snapshots: usize,
    source_angles_deg: &[R],
    snr_db: R,
    words: &[u64],
    math: &M,
) -> (r: Matrix<Complex<R>>)
    requires
        arithmetic::<R>(),
        evaluates(*math),
        2 * ((source_angles_deg@.len() + n_elements) * n_snapshots) <= words@.len(),
    ensures
        r.holds(
            n_elements as int,
            n_snapshots as int,
            received(
                *math,
                words@,
                n_elements as int,
                n_snapshots as int,
                source_angles_deg@,
                snr_db,
            ),
        ),
{
    let n_sources = source_angles_deg.len();
    assert(2 * ((n_sources + n_elements) * n_snapshots) <= words.len());
    let positions: Vec<R> = line_positions(n_elements);
    let sines = vector_of(
        n_sources,
        |j: usize| -> (x: R)
            requires
                j < n_sources,
            ensures
                x == sine_of_degrees(*math, source_angles_deg@[j as int]),
            { math(Elementary::Sin(math(Elementary::ToRadians(source_angles_deg[j])))) });
    let a = Matrix::build(
        n_elements,
        n_sources,
        |i: usize, j: usize| -> (z: Complex<R>)
            requires
                i < n_elements,
                j < n_sources,
            ensures
                z == steering(*math, n_elements as int, source_angles_deg@)(i as int, j as int),
            { arriving(positions[i], sines[j], math) });
    let signal_scale = math(Elementary::Sqrt(R::from(1)));
    let power = R::from(1) / math(Elementary::Pow(R::from(10), snr_db / R::from(10)));
    let noise_scale = math(Elementary::Sqrt(power / R::from(2)));
    let s = Matrix::build(
        n_sources,
        n_snapshots,
        |j: usize, k: usize| -> (z: Complex<R>)
            requires
                j < n_sources,
                k < n_snapshots,
            ensures
                z == signals::<R, M>(*math, words@, n_snapshots as int)(j as int, k as int),
            {
                proof {
                    cell_is_inside(
                        j as int,
                        k as int,
                        n_sources + n_elements,
                        n_snapshots as int,
                    );
                }
                drawn(words, j * n_snapshots + k).scale(signal_scale)
            });
    proof {
        complex_operators::<R>();
    }
    let x = multiply(&a, &s);
    Matrix::build(
        n_elements,
        n_snapshots,
        |i: usize, k: usize| -> (z: Complex<R>)
            requires
                i < n_elements,
                k < n_snapshots,
            ensures
                z == received(
                    *math,
                    words@,
                    n_elements as int,
                    n_snapshots as int,
                    source_angles_deg@,
                    snr_db,
                )(i as int, k as int),
            {
                proof {
                    cell_is_inside(
                        n_sources + i,
                        k as int,
                        n_sources + n_elements,
                        n_snapshots as int,
                    );
                    equal_products(
                        a.entry(),
                        s.entry(),
                        steering(*math, n_elements as int, source_angles_deg@),
                        signals(*math, words@, n_snapshots as int),
                        n_sources as nat,
                        i as int,
                        k as int,
                    );
                }
                x.get(i, k) + drawn(words, (n_sources + i) * n_snapshots + k).scale(noise_scale)
            })
}

/// Synthetic snapshots of sources at the given angles, reproducible by their seed.
pub fn generate_snapshots<R: Real, M: Fn(Elementary<R>) -> R>(
    n_elements: usize,
    n_snapshots: usize,
    source_angles_deg: &[R],
    snr_db: R,
    seed: u64,
    math: &M,
) -> (r: Matrix<Complex<R>>)
    requires
        arithmetic::<R>(),
        evaluates(*math),
        16 * ((source_angles_deg@.len() + n_elements) * n_snapshots) <= isize::MAX,
    ensures
        r.holds(
            n_elements as int,
            n_snapshots as int,
            received(
                *math,
                word_stream(
                    seed,
                    (2 * ((source_angles_deg@.len() + n_elements) * n_snapshots)) as nat,
                ),
                n_elements as int,
                n_snapshots as int,
                source_angles_deg@,
                snr_db,
            ),
        ),
{
    let ghost room = (source_angles_deg@.len() + n_elements) * n_snapshots;
    let n_sources = source_angles_deg.len();
    proof {
        if n_snapshots > 0 {
            assert(n_sources + n_elements <= room) by (nonlinear_arith)
                requires
                    room == (n_sources + n_elements) * n_snapshots,
                    n_snapshots > 0,
            ;
        }
    }
    let stream = if n_snapshots == 0 {
        Vec::new()
    } else {
        words(seed, 2 * ((n_sources + n_elements) * n_snapshots))
    };
    assert(stream@ =~= word_stream(seed, (2 * room) as nat));
    snapshots_from(
        n_elements,
        n_snapshots,
        source_angles_deg,
        snr_db,
        stream.as_slice(),
        math,
    )
}

// ---- covariance -------------------------------------------------------------

/// The entries of the covariance of the snapshots `x`.
pub open spec fn covariance<R: Real>(
    x: spec_fn(int, int) -> Complex<R>,
    n_snapshots: nat,
) -> spec_fn(int, int) -> Complex<R> {
    |i: int, j: int|
        divided(product(x, adjoint(x), n_snapshots)(i, j), count(n_snapshots as int))
}

/// The eigenvalues of the covariance of the snapshots, in the order of the diagonal,
/// and the eigenvectors.
pub open spec fn covariance_spectrum<R: Real, M: Fn(Elementary<R>) -> R>(
    math: M,
    snapshots: Matrix<Complex<R>>,
) -> (Seq<R>, spec_fn(int, int) -> Complex<R>) {
    spectrum(math, covariance(snapshots.entry(), snapshots.breadth()), snapshots.height())
}

/// The eigenvectors of the covariance, as columns from the largest eigenvalue down.
pub open spec fn eigenbasis<R: Real, M: Fn(Elementary<R>) -> R>(
    math: M,
    snapshots: Matrix<Complex<R>>,
) -> spec_fn(int, int) -> Complex<R> {
    let (d, v) = covariance_spectrum(math, snapshots);
    columns_arranged(v, ranking(d, snapshots.height()))
}

/// The covariance of the snapshots.
pub fn covariance_of<R: Real>(snapshots: &Matrix<Complex<R>>) -> (r: Matrix<Complex<R>>)
    requires
        arithmetic::<R>(),
        snapshots.wf(),
    ensures
        r.holds(
            snapshots.height() as int,
            snapshots.height() as int,
            covariance(snapshots.entry(), snapshots.breadth()),
        ),
{
    let n = snapshots.rows();
    let n_snapshots = snapshots.cols();
    let turned = conjugate_transpose(snapshots);
    proof {
        complex_operators::<R>();
    }
    Matrix::build(
        n,
        n,
        |i: usize, j: usize| -> (z: Complex<R>)
            requires
                i < n,
                j < n,
            ensures
                z == covariance(snapshots.entry(), snapshots.breadth())(i as int, j as int),
            {
                proof {
                    equal_products(
                        snapshots.entry(),
                        turned.entry(),
                        snapshots.entry(),
                        adjoint(snapshots.entry()),
                        n_snapshots as nat,
                        i as int,
                        j as int,
                    );
                }
                product_entry(snapshots, &turned, i, j).unscale(counted(n_snapshots as u64))
            })
}

/// The eigenvalues of the covariance of the snapshots from the largest down, and the
/// eigenvectors as columns in the same order; `None` where the eigenvalues cannot be
/// put in order.
pub fn covariance_eigendecomp<R: Real, M: Fn(Elementary<R>) -> R>(
    snapshots: &Matrix<Complex<R>>,
    math: &M,
) -> (e: Option<(Vec<R>, Matrix<Complex<R>>)>)
    requires
        arithmetic::<R>(),
        evaluates(*math),
        snapshots.wf(),
        50 * snapshots.height() <= usize::MAX,
    ensures
        e is Some <==> rankable(covariance_spectrum(*math, *snapshots).0),
        e matches Some((values, vectors)) ==> {
            let d = covariance_spectrum(*math, *snapshots).0;
            &&& values@ == arranged(d, ranking(d, snapshots.height()))
            &&& vectors.holds(
                snapshots.height() as int,
                snapshots.height() as int,
                eigenbasis(*math, *snapshots),
            )
        },
{
    let r = covariance_of(snapshots);
    let n = snapshots.rows();
    proof {
        equal_spectra(
            *math,
            r.entry(),
            covariance(snapshots.entry(), snapshots.breadth()),
            n as nat,
        );
    }
    eigen_hermitian(&r, n, math)
}

// ---- MUSIC ------------------------------------------------------------------

/// Angle `i` of `n` between -90 and 90 degrees.
pub open spec fn scan_angle<R: Real>(n: int, i: int) -> R {
    plus(whole(-90), over(times(whole(180), count(i)), count(n - 1)))
}

/// The terms of the inner product of the wave from a direction with this sine and
/// column `col` of `basis`.
pub open spec fn overlap_terms<R: Real, M: Fn(Elementary<R>) -> R>(
    math: M,
    basis: spec_fn(int, int) -> Complex<R>,
    n_elements: int,
    sine: R,
    col: int,
) -> spec_fn(int) -> Complex<R> {
    |k: int|
        times(
            conjugate(arrival(math, line_position(n_elements, k), sine)),
            basis(k, col),
        )
}

/// The power of the wave in the columns of `basis` from `n_sources` on.
pub open spec fn noise_terms<R: Real, M: Fn(Elementary<R>) -> R>(
    math: M,
    basis: spec_fn(int, int) -> Complex<R>,
    n_elements: int,
    n_sources: int,
    sine: R,
) -> spec_fn(int) -> R {
    |c: int|
        power(
            total(
                whole(0),
                overlap_terms(math, basis, n_elements, sine, n_sources + c),
                n_elements as nat,
            ),
        )
}

/// The number of columns from `n_sources` on.
pub open spec fn noise_columns(n_elements: int, n_sources: int) -> nat {
    if n_sources < n_elements {
        (n_elements - n_sources) as nat
    } else {
        0
    }
}

/// The pseudo-spectrum in a direction: the reciprocal of the power in the noise
/// columns.
pub open spec fn pseudo_spectrum<R: Real, M: Fn(Elementary<R>) -> R>(
    math: M,
    basis: spec_fn(int, int) -> Complex<R>,
    n_elements: int,
    n_sources: int,
    degrees: R,
) -> R {
    over(
        whole(1),
        plus(
            total(
                whole(0),
                noise_terms(
                    math,
                    basis,
                    n_elements,
                    n_sources,
                    sine_of_degrees(math, degrees),
                ),
                noise_columns(n_elements, n_sources),
            ),
            faintest(),
        ),
    )
}

/// The levels of the powers below the strongest one.
pub open spec fn relative_levels<R: Real, M: Fn(Elementary<R>) -> R>(math: M, powers: Seq<R>) -> Seq<
    R,
> {
    Seq::new(
        powers.len(),
        |i: int|
            times(
                whole(10),
                value(math, Elementary::Log10(over(powers[i], largest(whole(0), powers)))),
            ),
    )
}

/// The pseudo-spectrum in one direction.
pub fn music_power<R: Real, M: Fn(Elementary<R>) -> R>(
    basis: &Matrix<Complex<R>>,
    positions: &[R],
    n_sources: usize,
    degrees: R,
    math: &M,
) -> (r: R)
    requires
        arithmetic::<R>(),
        evaluates(*math),
        basis.wf(),
        n_sources < positions@.len() ==> positions@.len() <= basis.height(),
        n_sources < positions@.len() ==> positions@.len() <= basis.breadth(),
        positions@ == Seq::new(
            positions@.len(),
            |i: int| line_position::<R>(positions@.len() as int, i),
        ),
    ensures
        r == pseudo_spectrum(
            *math,
            basis.entry(),
            positions@.len() as int,
            n_sources as int,
            degrees,
        ),
{
    let n = positions.len();
    let sine = math(Elementary::Sin(math(Elementary::ToRadians(degrees))));
    let a = vector_of(
        n,
        |k: usize| -> (z: Complex<R>)
            requires
                k < n,
            ensures
                z == arrival(*math, line_position(n as int, k as int), sine),
            { arriving(positions[k], sine, math) });
    let columns: usize = if n_sources < n {
        n - n_sources
    } else {
        0
    };
    let mut denom: R = R::from(0);
    for c in 0..columns
        invariant
            arithmetic::<R>(),
            evaluates(*math),
            basis.wf(),
            n_sources < n ==> n <= basis.height(),
            n_sources < n ==> n <= basis.breadth(),
            columns == noise_columns(n as int, n_sources as int),
            a@.len() == n,
            forall|k: int|
                0 <= k < n ==> #[trigger] a@[k] == arrival(*math, line_position(n as int, k), sine),
            denom == total(
                whole(0),
                noise_terms(*math, basis.entry(), n as int, n_sources as int, sine),
                c as nat,
            ),
    {
        let mut dot: Complex<R> = Complex::from(0);
        for k in 0..n
            invariant
                arithmetic::<R>(),
                evaluates(*math),
                basis.wf(),
                n <= basis.height(),
                n <= basis.breadth(),
                c < columns,
                columns == noise_columns(n as int, n_sources as int),
                a@.len() == n,
                forall|k: int|
                    0 <= k < n ==> #[trigger] a@[k] == arrival(
                        *math,
                        line_position(n as int, k),
                        sine,
                    ),
                dot == total(
                    whole(0),
                    overlap_terms(*math, basis.entry(), n as int, sine, n_sources + c),
                    k as nat,
                ),
        {
            dot = dot + a[k].conj() * basis.get(k, n_sources + c);
        }
        denom = denom + dot.norm_sqr();
    }
    R::from(1) / (denom + least_magnitude())
}

/// Powers as levels below the strongest one.
pub fn to_relative_levels<R: Real, M: Fn(Elementary<R>) -> R>(powers: &[R], math: &M) -> (r: Vec<R>)
    requires
        arithmetic::<R>(),
        evaluates(*math),
    ensures
        r@ == relative_levels(*math, powers@),
{
    let strongest = maximum(R::from(0), powers);
    vector_of(
        powers.len(),
        |i: usize| -> (x: R)
            requires
                i < powers@.len(),
            ensures
                x == relative_levels(*math, powers@)[i as int],
            { R::from(10) * math(Elementary::Log10(powers[i] / strongest)) })
}

/// The MUSIC pseudo-spectrum of a uniform linear array: the scanned angles in degrees and
/// the level at each of them; `None` where the eigenvalues of the covariance cannot be put
/// in order.
pub open spec fn music_result<R: Real, M: Fn(Elementary<R>) -> R>(
    math: M,
    n_elements: int,
    snapshots: Matrix<Complex<R>>,
    n_sources: int,
    n_angles: nat,
) -> Option<(Seq<R>, Seq<R>)> {
    if rankable(covariance_spectrum(math, snapshots).0) {
        let basis = eigenbasis(math, snapshots);
        let powers = Seq::new(
            n_angles,
            |i: int|
                pseudo_spectrum(
                    math,
                    basis,
                    n_elements,
                    n_sources,
                    scan_angle(n_angles as int, i),
                ),
        );
        Some(
            (
                Seq::new(n_angles, |i: int| scan_angle::<R>(n_angles as int, i)),
                relative_levels(math, powers),
            ),
        )
    } else {
        None
    }
}

/// The MUSIC pseudo-spectrum of a uniform linear array: the scanned angles in degrees
/// and the level at each of them; `None` where the eigenvalues of the covariance cannot
/// be put in order.
pub fn music_ula<R: Real, M: Fn(Elementary<R>) -> R + Sync>(
    n_elements: usize,
    snapshots: &Matrix<Complex<R>>,
    n_sources: usize,
    n_angles: usize,
    math: &M,
) -> (r: Option<(Vec<R>, Vec<R>)>)
    requires
        arithmetic::<R>(),
        evaluates(*math),
        snapshots.wf(),
        n_sources < n_elements ==> n_elements <= snapshots.height(),
        50 * snapshots.height() <= usize::MAX,
        collectable::<R>(n_angles as nat),
    ensures
        (match r {
            Some((theta_deg, spectrum_db)) => Some((theta_deg@, spectrum_db@)),
            None => None,
        }) == music_result(
            *math,
            n_elements as int,
            *snapshots,
            n_sources as int,
            n_angles as nat,
        ),
{
    match covariance_eigendecomp(snapshots, math) {
        None => None,
        Some((_, basis)) => {
            let positions: Vec<R> = line_positions(n_elements);
            let theta_deg = vector_of(
                n_angles,
                |i: usize| -> (x: R)
                    requires
                        i < n_angles,
                    ensures
                        x == scan_angle::<R>(n_angles as int, i as int),
                    {
                        R::from(-90) + R::from(180) * counted(i as u64) / counted(
                            (n_angles - 1) as u64,
                        )
                    });
            let powers = map_indices(
                n_angles,
                |i: usize| -> (x: R)
                    requires
                        i < n_angles,
                    ensures
                        x == pseudo_spectrum(
                            *math,
                            eigenbasis(*math, *snapshots),
                            n_elements as int,
                            n_sources as int,
                            scan_angle(n_angles as int, i as int),
                        ),
                    {
                        proof {
                            same_pseudo_spectrum(
                                *math,
                                basis.entry(),
                                eigenbasis(*math, *snapshots),
                                n_elements as int,
                                n_sources as int,
                                theta_deg@[i as int],
                            );
                        }
                        music_power(&basis, positions.as_slice(), n_sources, theta_deg[i], math)
                    });
            let spectrum_db = to_relative_levels(powers.as_slice(), math);
            assert(theta_deg@ =~= Seq::new(
                n_angles as nat,
                |i: int| scan_angle::<R>(n_angles as int, i),
            ));
            assert(powers@ =~= Seq::new(
                n_angles as nat,
                |i: int|
                    pseudo_spectrum(
                        *math,
                        eigenbasis(*math, *snapshots),
                        n_elements as int,
                        n_sources as int,
                        scan_angle(n_angles as int, i),
                    ),
            ));
            Some((theta_deg, spectrum_db))
        },
    }
}

/// The pseudo-spectrum depends on the first `n_elements` rows and columns alone.
proof fn same_pseudo_spectrum<R: Real, M: Fn(Elementary<R>) -> R>(
    math: M,
    a: spec_fn(int, int) -> Complex<R>,
    b: spec_fn(int, int) -> Complex<R>,
    n_elements: int,
    n_sources: int,
    degrees: R,
)
    requires
        n_sources < n_elements ==> agree(a, b, n_elements),
        0 <= n_sources,
    ensures
        pseudo_spectrum(math, a, n_elements, n_sources, degrees) == pseudo_spectrum(
            math,
            b,
            n_elements,
            n_sources,
            degrees,
        ),
{
    let sine = sine_of_degrees(math, degrees);
    let f = noise_terms(math, a, n_elements, n_sources, sine);
    let g = noise_terms(math, b, n_elements, n_sources, sine);
    let n = noise_columns(n_elements, n_sources);
    assert forall|c: int| 0 <= c < n implies #[trigger] f(c) == g(c) by {
        equal_terms(
            whole(0),
            overlap_terms(math, a, n_elements, sine, n_sources + c),
            overlap_terms(math, b, n_elements, sine, n_sources + c),
            n_elements as nat,
        );
    }
    equal_terms(whole(0), f, g, n);
}

// ---- ESPRIT -----------------------------------------------------------------

/// The entries of `v` from row `first` on.
pub open spec fn rows_from<T>(v: spec_fn(int, int) -> T, first: int) -> spec_fn(int, int) -> T {
    |i: int, j: int| v(i + first, j)
}

/// The entries of the rotation between the two subarrays of `n - 1` elements in the
/// first `k` columns of `basis`: the least-squares solution of `upper * psi = lower`.
pub open spec fn subarray_rotation<R: Real, M: Fn(Elementary<R>) -> R>(
    math: M,
    basis: spec_fn(int, int) -> Complex<R>,
    n: int,
    k: int,
) -> spec_fn(int, int) -> Complex<R> {
    let m = (n - 1) as nat;
    let upper = rows_from(basis, 0);
    let lower = rows_from(basis, 1);
    product(
        inverse(product(adjoint(upper), upper, m), usable_pivot(math), k),
        product(adjoint(upper), lower, m),
        k as nat,
    )
}

/// The trace of the first two rows and columns.
pub open spec fn trace<R: Real>(a: spec_fn(int, int) -> Complex<R>) -> Complex<R> {
    plus(a(0, 0), a(1, 1))
}

/// The determinant of the first two rows and columns.
pub open spec fn determinant<R: Real>(a: spec_fn(int, int) -> Complex<R>) -> Complex<R> {
    minus(times(a(0, 0), a(1, 1)), times(a(0, 1), a(1, 0)))
}

/// The square root of the discriminant of the characteristic polynomial.
pub open spec fn discriminant_root<R: Real, Q: Fn(Complex<R>) -> Complex<R>>(
    root: Q,
    a: spec_fn(int, int) -> Complex<R>,
) -> Complex<R> {
    answer(root, minus(times(trace(a), trace(a)), scaled(determinant(a), whole(4))))
}

/// The two eigenvalues of the first two rows and columns: half of the trace plus and
/// minus the root of the discriminant.
pub open spec fn eigenvalue_pair<R: Real, Q: Fn(Complex<R>) -> Complex<R>>(
    root: Q,
    a: spec_fn(int, int) -> Complex<R>,
) -> Seq<Complex<R>> {
    seq![
        divided(plus(trace(a), discriminant_root(root, a)), whole(2)),
        divided(minus(trace(a), discriminant_root(root, a)), whole(2)),
    ]
}

/// The two eigenvalues of the first two rows and columns of `a`.
pub fn eigen_2x2<R: Real, Q: Fn(Complex<R>) -> Complex<R>>(a: &Matrix<Complex<R>>, root: &Q) -> (r:
    Vec<Complex<R>>)
    requires
        arithmetic::<R>(),
        answers::<Complex<R>, Complex<R>, Q>(*root),
        a.wf(),
        a.height() >= 2,
        a.breadth() >= 2,
    ensures
        r@ == eigenvalue_pair(*root, a.entry()),
{
    let sum = a.get(0, 0) + a.get(1, 1);
    let det = a.get(0, 0) * a.get(1, 1) - a.get(0, 1) * a.get(1, 0);
    let disc = root(sum * sum - det.scale(R::from(4)));
    let mut r: Vec<Complex<R>> = Vec::new();
    r.push((sum + disc).unscale(R::from(2)));
    r.push((sum - disc).unscale(R::from(2)));
    r
}

/// The direction, in degrees, that a rotation between neighbouring elements stands for.
pub open spec fn direction<R: Real, M: Fn(Elementary<R>) -> R>(math: M, z: Complex<R>) -> R {
    value(
        math,
        Elementary::ToDegrees(
            value(
                math,
                Elementary::Asin(
                    over(
                        negated(angle(math, z)),
                        times(times(whole(2), value(math, Elementary::Pi)), ratio(1, 2)),
                    ),
                ),
            ),
        ),
    )
}

/// The direction of one rotation.
fn direction_of<R: Real, M: Fn(Elementary<R>) -> R>(z: Complex<R>, math: &M) -> (r: R)
    requires
        arithmetic::<R>(),
        evaluates(*math),
    ensures
        r == direction(*math, z),
{
    math(
        Elementary::ToDegrees(
            math(
                Elementary::Asin(
                    z.arg(math).neg() / (R::from(2) * math(Elementary::Pi) * fraction(1, 2)),
                ),
            ),
        ),
    )
}

/// The two directions that the rotation between the subarrays stands for, as the
/// eigenvalues come.
pub open spec fn esprit_directions<R: Real, M: Fn(Elementary<R>) -> R, Q: Fn(Complex<R>) -> Complex<R>>(
    math: M,
    root: Q,
    basis: spec_fn(int, int) -> Complex<R>,
    n: int,
    k: int,
) -> (R, R) {
    let z = eigenvalue_pair(root, subarray_rotation(math, basis, n, k));
    (direction(math, z[0]), direction(math, z[1]))
}

/// The ESPRIT estimate of the directions of arrival at a uniform linear array, in
/// degrees and ascending; `None` where the eigenvalues of the covariance or the
/// directions cannot be put in order.
pub open spec fn esprit_result<
    R: Real,
    M: Fn(Elementary<R>) -> R,
    Q: Fn(Complex<R>) -> Complex<R>,
>(
    math: M,
    root: Q,
    n_elements: int,
    snapshots: Matrix<Complex<R>>,
    n_sources: int,
) -> Option<Seq<R>> {
    let (s, t) = esprit_directions(
        math,
        root,
        eigenbasis(math, snapshots),
        n_elements,
        n_sources,
    );
    if rankable(covariance_spectrum(math, snapshots).0) && comparable(s, t) {
        Some(
            if less(t, s) {
                seq![t, s]
            } else {
                seq![s, t]
            },
        )
    } else {
        None
    }
}

/// The ESPRIT estimate of the directions of arrival at a uniform linear array, in
/// degrees and ascending; `None` where the eigenvalues of the covariance or the
/// directions cannot be put in order.
pub fn esprit_ula<
    R: Real,
    M: Fn(Elementary<R>) -> R,
    Q: Fn(Complex<R>) -> Complex<R>,
>(
    n_elements: usize,
    snapshots: &Matrix<Complex<R>>,
    n_sources: usize,
    math: &M,
    root: &Q,
) -> (r: Option<Vec<R>>)
    requires
        arithmetic::<R>(),
        evaluates(*math),
        answers::<Complex<R>, Complex<R>, Q>(*root),
        snapshots.wf(),
        1 <= n_elements <= snapshots.height(),
        2 <= n_sources <= snapshots.height(),
        50 * snapshots.height() <= usize::MAX,
    ensures
        (match r {
            Some(angles) => Some(angles@),
            None => None,
        }) == esprit_result(*math, *root, n_elements as int, *snapshots, n_sources as int),
{
    match covariance_eigendecomp(snapshots, math) {
        None => None,
        Some((_, basis)) => {
            let m = n_elements - 1;
            let ghost gb = eigenbasis(*math, *snapshots);
            let upper = Matrix::build(
                m,
                n_sources,
                |i: usize, j: usize| -> (z: Complex<R>)
                    requires
                        i < m,
                        j < n_sources,
                    ensures
                        z == rows_from(gb, 0)(i as int, j as int),
                    { basis.get(i, j) });
            let lower = Matrix::build(
                m,
                n_sources,
                |i: usize, j: usize| -> (z: Complex<R>)
                    requires
                        i < m,
                        j < n_sources,
                    ensures
                        z == rows_from(gb, 1)(i as int, j as int),
                    { basis.get(i + 1, j) });
            let psi = solve_rotation(&upper, &lower, math, Ghost(gb), Ghost(n_elements as int));
            let z = eigen_2x2(&psi, root);
            let s = direction_of(z[0], math);
            let t = direction_of(z[1], math);
            if !in_order(s, t) {
                return None;
            }
            let mut angles: Vec<R> = Vec::new();
            if t < s {
                angles.push(t);
                angles.push(s);
            } else {
                angles.push(s);
                angles.push(t);
            }
            assert(angles@ =~= if less(t, s) {
                seq![t, s]
            } else {
                seq![s, t]
            });
            Some(angles)
        },
    }
}

/// The least-squares rotation between two subarrays.
fn solve_rotation<R: Real, M: Fn(Elementary<R>) -> R>(
    upper: &Matrix<Complex<R>>,
    lower: &Matrix<Complex<R>>,
    math: &M,
    Ghost(basis): Ghost<spec_fn(int, int) -> Complex<R>>,
    Ghost(n): Ghost<int>,
) -> (r: Matrix<Complex<R>>)
    requires
        arithmetic::<R>(),
        evaluates(*math),
        n >= 1,
        upper.holds(n - 1, upper.breadth() as int, rows_from(basis, 0)),
        lower.holds(n - 1, upper.breadth() as int, rows_from(basis, 1)),
        2 * upper.breadth() <= usize::MAX,
    ensures
        r.holds(
            upper.breadth() as int,
            upper.breadth() as int,
            subarray_rotation(*math, basis, n, upper.breadth() as int),
        ),
{
    proof {
        complex_operators::<R>();
    }
    let adj = conjugate_transpose(upper);
    let gram = multiply(&adj, upper);
    let inv = invert_2d(&gram, math);
    let cross = multiply(&adj, lower);
    let psi = multiply(&inv, &cross);
    proof {
        let k = upper.breadth() as int;
        let m = (n - 1) as nat;
        let u = rows_from(basis, 0);
        let l = rows_from(basis, 1);
        assert forall|i: int, j: int| 0 <= i < k && 0 <= j < k implies #[trigger] gram.at(i, j)
            == product(adjoint(u), u, m)(i, j) by {
            equal_products(adj.entry(), upper.entry(), adjoint(u), u, m, i, j);
        }
        assert forall|i: int, j: int| 0 <= i < k && 0 <= j < k implies #[trigger] cross.at(i, j)
            == product(adjoint(u), l, m)(i, j) by {
            equal_products(adj.entry(), lower.entry(), adjoint(u), l, m, i, j);
        }
        equal_inverses(gram.entry(), product(adjoint(u), u, m), usable_pivot(*math), k);
        assert forall|i: int, j: int| 0 <= i < k && 0 <= j < k implies #[trigger] psi.at(i, j)
            == subarray_rotation(*math, basis, n, k)(i, j) by {
            equal_products(
                inv.entry(),
                cross.entry(),
                inverse(product(adjoint(u), u, m), usable_pivot(*math), k),
                product(adjoint(u), l, m),
                k as nat,
                i,
                j,
            );
        }
    }
    psi
}

// ---- MVDR -------------------------------------------------------------------

/// The entries of the covariance with its lower half mirrored from the upper one and
/// its diagonal raised by `loading`.
pub open spec fn loaded<R: Real>(
    x: spec_fn(int, int) -> Complex<R>,
    n_snapshots: nat,
    loading: R,
) -> spec_fn(int, int) -> Complex<R> {
    let c = covariance(x, n_snapshots);
    |i: int, j: int|
        if i == j {
            Complex { re: plus(c(i, i).re, loading), im: c(i, i).im }
        } else if i < j {
            c(i, j)
        } else {
            conjugate(c(j, i))
        }
}

/// How a wave from the look direction is steered at this position.
pub open spec fn look<R: Real, M: Fn(Elementary<R>) -> R>(math: M, position: R, sine: R) -> Complex<
    R,
> {
    conjugate(
        phasor(
            math,
            times(times(times(whole(2), value(math, Elementary::Pi)), position), sine),
        ),
    )
}

/// The look vector over the positions.
pub open spec fn look_vector<R: Real, M: Fn(Elementary<R>) -> R>(
    math: M,
    x: Seq<R>,
    sine: R,
) -> spec_fn(int) -> Complex<R> {
    |i: int| look(math, x[i], sine)
}

/// The weights of least output power under unit response in the look direction: the
/// inverse of the loaded covariance applied to the look vector, divided by the response
/// of that vector to itself.
pub open spec fn capon<R: Real, M: Fn(Elementary<R>) -> R>(
    math: M,
    x: Seq<R>,
    snapshots: Matrix<Complex<R>>,
    theta_look_deg: R,
    loading: R,
) -> spec_fn(int) -> Complex<R> {
    let a = look_vector(math, x, sine_of_degrees(math, theta_look_deg));
    let inv = inverse(
        loaded(snapshots.entry(), snapshots.breadth(), loading),
        usable_pivot(math),
        x.len() as int,
    );
    let raw = image(inv, a, x.len());
    |i: int| over(raw(i), total(whole(0), inner_terms(a, raw), x.len()))
}

/// An entry of the covariance of the snapshots, of which `c` holds those of the elements
/// that are there. Without snapshots every entry is the same.
fn covariance_at<R: Real>(
    snapshots: &Matrix<Complex<R>>,
    c: &Matrix<Complex<R>>,
    i: usize,
    j: usize,
) -> (z: Complex<R>)
    requires
        arithmetic::<R>(),
        c.holds(
            snapshots.height() as int,
            snapshots.height() as int,
            covariance(snapshots.entry(), snapshots.breadth()),
        ),
        snapshots.breadth() > 0 ==> i < snapshots.height() && j < snapshots.height(),
    ensures
        z == covariance(snapshots.entry(), snapshots.breadth())(i as int, j as int),
{
    if snapshots.cols() == 0 {
        let nothing: Complex<R> = Complex::from(0);
        nothing.unscale(counted(0))
    } else {
        c.get(i, j)
    }
}

/// The covariance of the first `n` elements, mirrored and loaded.
fn load<R: Real>(snapshots: &Matrix<Complex<R>>, n: usize, loading: R) -> (r: Matrix<Complex<R>>)
    requires
        arithmetic::<R>(),
        snapshots.wf(),
        snapshots.breadth() > 0 ==> n <= snapshots.height(),
    ensures
        r.holds(n as int, n as int, loaded(snapshots.entry(), snapshots.breadth(), loading)),
{
    let c = covariance_of(snapshots);
    Matrix::build(
        n,
        n,
        |i: usize, j: usize| -> (z: Complex<R>)
            requires
                i < n,
                j < n,
            ensures
                z == loaded(snapshots.entry(), snapshots.breadth(), loading)(i as int, j as int),
            {
                if i == j {
                    let d = covariance_at(snapshots, &c, i, i);
                    Complex { re: d.re + loading, im: d.im }
                } else if i < j {
                    covariance_at(snapshots, &c, i, j)
                } else {
                    covariance_at(snapshots, &c, j, i).conj()
                }
            })
}

/// The MVDR (Capon) weights for the look direction. Only the positions along `x` enter;
/// the array is taken to be linear.
pub fn mvdr_weights<R: Real, M: Fn(Elementary<R>) -> R>(
    x: &[R],
    y: &[R],
    snapshots: &Matrix<Complex<R>>,
    theta_look_deg: R,
    diagonal_loading: R,
    math: &M,
) -> (w: Vec<Complex<R>>)
    requires
        arithmetic::<R>(),
        evaluates(*math),
        snapshots.wf(),
        snapshots.breadth() > 0 ==> x@.len() <= snapshots.height(),
        2 * x@.len() <= usize::MAX,
    ensures
        w@ == Seq::new(
            x@.len(),
            capon(*math, x@, *snapshots, theta_look_deg, diagonal_loading),
        ),
{
    let n = x.len();
    let sine = math(Elementary::Sin(math(Elementary::ToRadians(theta_look_deg))));
    let ghost ga = look_vector(*math, x@, sine);
    let ghost gm = loaded(snapshots.entry(), snapshots.breadth(), diagonal_loading);
    let ghost gi = inverse(gm, usable_pivot(*math), n as int);
    let ghost graw = image(gi, ga, n as nat);
    let a = vector_of(
        n,
        |i: usize| -> (z: Complex<R>)
            requires
                i < n,
            ensures
                z == ga(i as int),
            {
                let phase = R::from(2) * math(Elementary::Pi) * x[i] * sine;
                Complex::cis(phase, math).conj()
            });
    let r = load(snapshots, n, diagonal_loading);
    let inv = invert_2d(&r, math);
    proof {
        equal_inverses(r.entry(), gm, usable_pivot(*math), n as int);
    }
    proof {
        assert forall|i: int| 0 <= i < n implies #[trigger] image(inv.entry(), along(a@), n as nat)(i)
            == graw(i) by {
            equal_terms(
                whole(0),
                image_terms(inv.entry(), along(a@), i),
                image_terms(gi, ga, i),
                n as nat,
            );
        }
    }
    let raw = apply(&inv, a.as_slice());
    let mut denom: Complex<R> = Complex::from(0);
    for i in 0..n
        invariant
            arithmetic::<R>(),
            a@.len() == n,
            raw@.len() == n,
            forall|k: int| 0 <= k < n ==> #[trigger] a@[k] == ga(k),
            forall|k: int| 0 <= k < n ==> #[trigger] raw@[k] == graw(k),
            denom == total(whole(0), inner_terms(ga, graw), i as nat),
    {
        denom = denom + a[i].conj() * raw[i];
    }
    vector_of(
        n,
        |i: usize| -> (z: Complex<R>)
            requires
                i < n,
            ensures
                z == capon(*math, x@, *snapshots, theta_look_deg, diagonal_loading)(i as int),
            { raw[i] / denom })
}

// ---- what holds of the estimates --------------------------------------------

/// The response of the unscaled MVDR weights in the look direction.
pub open spec fn look_response<R: Real, M: Fn(Elementary<R>) -> R>(
    math: M,
    x: Seq<R>,
    snapshots: Matrix<Complex<R>>,
    theta_look_deg: R,
    loading: R,
) -> Complex<R> {
    let a = look_vector(math, x, sine_of_degrees(math, theta_look_deg));
    let inv = inverse(
        loaded(snapshots.entry(), snapshots.breadth(), loading),
        usable_pivot(math),
        x.len() as int,
    );
    total(whole(0), inner_terms(a, image(inv, a, x.len())), x.len())
}

/// Where nothing is rounded, the MVDR weights let the look direction pass undistorted: the
/// response there is one.
pub proof fn mvdr_is_distortionless<R: Real, M: Fn(Elementary<R>) -> R>(
    math: M,
    x: Seq<R>,
    snapshots: Matrix<Complex<R>>,
    theta_look_deg: R,
    loading: R,
)
    requires
        field::<R>(),
        powers_tell::<R>(),
        look_response(math, x, snapshots, theta_look_deg, loading) != whole::<Complex<R>>(0),
    ensures
        total(
            whole(0),
            inner_terms(
                look_vector(math, x, sine_of_degrees(math, theta_look_deg)),
                capon(math, x, snapshots, theta_look_deg, loading),
            ),
            x.len(),
        ) == whole::<Complex<R>>(1),
{
    complex_field::<R>();
    let a = look_vector(math, x, sine_of_degrees(math, theta_look_deg));
    let inv = inverse(
        loaded(snapshots.entry(), snapshots.breadth(), loading),
        usable_pivot(math),
        x.len() as int,
    );
    let raw = image(inv, a, x.len());
    let w = capon(math, x, snapshots, theta_look_deg, loading);
    let d = look_response(math, x, snapshots, theta_look_deg, loading);
    let one: Complex<R> = whole(1);
    let before = inner_terms(a, raw);
    let after = inner_terms(a, w);
    assert forall|k: int| 0 <= k < x.len() implies #[trigger] after(k) == times(
        over(one, d),
        before(k),
    ) by {
        over_of_product(conjugate(a(k)), raw(k), d);
        times_one(before(k));
        over_of_product(one, before(k), d);
    }
    total_of_multiples(over(one, d), before, after, x.len());
    over_undoes_times(one, d);
}

/// Where nothing is rounded and elimination passes over no column, the loaded covariance
/// takes the MVDR weights to a multiple of the look vector.
pub proof fn mvdr_meets_the_normal_equations<R: Real, M: Fn(Elementary<R>) -> R>(
    math: M,
    x: Seq<R>,
    snapshots: Matrix<Complex<R>>,
    theta_look_deg: R,
    loading: R,
    i: int,
)
    requires
        field::<R>(),
        powers_tell::<R>(),
        less(modulus(math, whole(0)), pivot_floor()),
        all_pivots_used(
            loaded(snapshots.entry(), snapshots.breadth(), loading),
            usable_pivot(math),
            x.len() as int,
        ),
        look_response(math, x, snapshots, theta_look_deg, loading) != whole::<Complex<R>>(0),
        0 <= i < x.len(),
    ensures
        image(
            loaded(snapshots.entry(), snapshots.breadth(), loading),
            capon(math, x, snapshots, theta_look_deg, loading),
            x.len(),
        )(i) == over(
            look_vector(math, x, sine_of_degrees(math, theta_look_deg))(i),
            look_response(math, x, snapshots, theta_look_deg, loading),
        ),
{
    complex_field::<R>();
    let a = look_vector(math, x, sine_of_degrees(math, theta_look_deg));
    let r = loaded(snapshots.entry(), snapshots.breadth(), loading);
    let raw = image(inverse(r, usable_pivot(math), x.len() as int), a, x.len());
    let w = capon(math, x, snapshots, theta_look_deg, loading);
    let d = look_response(math, x, snapshots, theta_look_deg, loading);
    let one: Complex<R> = whole(1);
    inverse_solves(r, usable_pivot(math), x.len() as int, a, i);
    let before = image_terms(r, raw, i);
    let after = image_terms(r, w, i);
    assert forall|k: int| 0 <= k < x.len() implies #[trigger] after(k) == times(
        over(one, d),
        before(k),
    ) by {
        over_of_product(r(i, k), raw(k), d);
        times_one(before(k));
        over_of_product(one, before(k), d);
    }
    total_of_multiples(over(one, d), before, after, x.len());
    times_one(a(i));
    over_of_product(one, a(i), d);
}

/// Below its diagonal the loaded covariance holds the conjugates of what stands above it.
pub proof fn loaded_covariance_is_hermitian<R: Real>(
    x: spec_fn(int, int) -> Complex<R>,
    n_snapshots: nat,
    loading: R,
    i: int,
    j: int,
)
    requires
        j < i,
    ensures
        loaded(x, n_snapshots, loading)(i, j) == conjugate(
            loaded(x, n_snapshots, loading)(j, i),
        ),
{
}

/// The ESPRIT estimate holds two directions, the second not below the first.
pub proof fn esprit_ascends<R: Real, M: Fn(Elementary<R>) -> R, Q: Fn(Complex<R>) -> Complex<R>>(
    math: M,
    root: Q,
    n_elements: int,
    snapshots: Matrix<Complex<R>>,
    n_sources: int,
)
    requires
        ordering::<R>(),
        esprit_result(math, root, n_elements, snapshots, n_sources) is Some,
    ensures
        esprit_result(math, root, n_elements, snapshots, n_sources)->Some_0.len() == 2,
        !less(
            esprit_result(math, root, n_elements, snapshots, n_sources)->Some_0[1],
            esprit_result(math, root, n_elements, snapshots, n_sources)->Some_0[0],
        ),
{
}

/// The strongest power of a spectrum stands at zero decibels and the others not above it,
/// where division and the logarithm keep the order.
pub proof fn relative_levels_peak_at_zero<R: Real, M: Fn(Elementary<R>) -> R>(
    math: M,
    powers: Seq<R>,
    k: int,
)
    requires
        ordering::<R>(),
        in_line(seq![whole::<R>(0)] + powers),
        0 <= k < powers.len(),
        less(whole(0), powers[k]),
        forall|p: R| less(whole(0), p) ==> #[trigger] tells_level(math, p, p) == whole::<R>(0),
        forall|a: R, p: R|
            less(whole(0), p) && !less(p, a) ==> !less(
                whole(0),
                #[trigger] tells_level(math, a, p),
            ),
    ensures
        exists|i: int|
            0 <= i < powers.len() && #[trigger] relative_levels(math, powers)[i] == whole::<R>(0),
        forall|i: int|
            0 <= i < powers.len() ==> !less(whole(0), #[trigger] relative_levels(math, powers)[i]),
{
    largest_is_the_largest(whole(0), powers);
    let p = largest(whole(0), powers);
    assert(!less(p, powers[k]));
    let all = seq![whole::<R>(0)] + powers;
    assert(all[0] == whole::<R>(0));
    assert(all[k + 1] == powers[k]);
    assert(p != whole::<R>(0));
    let m = choose|i: int| 0 <= i < powers.len() && #[trigger] powers[i] == p;
    assert(all[m + 1] == p);
    assert(comparable(all[0], all[k + 1]) && comparable(all[k + 1], all[m + 1]) && comparable(
        all[0],
        all[m + 1],
    ));
    assert(less(whole(0), p));
    assert(tells_level(math, p, p) == whole::<R>(0));
    assert(relative_levels(math, powers)[m] == whole::<R>(0));
    assert forall|i: int| 0 <= i < powers.len() implies !less(
        whole(0),
        #[trigger] relative_levels(math, powers)[i],
    ) by {
        assert(!less(p, powers[i]));
        assert(!less(whole(0), tells_level(math, powers[i], p)));
    }
}

/// The level of the power `a` below the power `p`.
pub open spec fn tells_level<R: Real, M: Fn(Elementary<R>) -> R>(math: M, a: R, p: R) -> R {
    times(whole(10), value(math, Elementary::Log10(over(a, p))))
}

/// Where nothing is rounded and roots are square roots, the two eigenvalues add up to the
/// trace and multiply to the determinant: they are the roots of the characteristic
/// polynomial.
pub proof fn eigenvalue_pair_solves<R: Real, Q: Fn(Complex<R>) -> Complex<R>>(
    root: Q,
    a: spec_fn(int, int) -> Complex<R>,
)
    requires
        field::<R>(),
        powers_tell::<R>(),
        two_is_one_and_one::<R>(),
        whole::<R>(2) != whole::<R>(0),
        whole::<R>(4) == times(whole::<R>(2), whole::<R>(2)),
        forall|z: Complex<R>| times(#[trigger] answer(root, z), answer(root, z)) == z,
    ensures
        plus(eigenvalue_pair(root, a)[0], eigenvalue_pair(root, a)[1]) == trace(a),
        times(eigenvalue_pair(root, a)[0], eigenvalue_pair(root, a)[1]) == determinant(a),
{
    complex_field::<R>();
    let (t, d, r) = (trace(a), determinant(a), discriminant_root(root, a));
    let (p, q) = (plus(t, r), minus(t, r));
    let half: R = over(whole(1), whole(2));
    let h = on_axis(half);
    let two = on_axis(whole::<R>(2));
    let one: Complex<R> = whole(1);
    // Two halves are one.
    over_undoes_times(whole::<R>(1), whole(2));
    arithmetic_on_axis(half, whole(2));
    arithmetic_on_axis(whole::<R>(1), whole(1));
    assert(times(h, two) == one);
    assert(two == plus(one, one));
    halves_are_products(p);
    halves_are_products(q);
    // The sum.
    minus_adds_opposite(t, r);
    plus_exchanges(t, r, t, negated(r));
    opposites_cancel(r);
    plus_nothing(plus(t, t));
    times_distributes(h, p, q);
    times_distributes(t, one, one);
    times_one(t);
    times_commutes(h, two);
    times_regroups(t, two, h);
    assert(plus(times(p, h), times(q, h)) == t);
    // The product.
    let tt = times(t, t);
    let four = scaled(d, whole(4));
    times_distributes(plus(t, r), t, negated(r));
    times_distributes(t, t, r);
    times_distributes(negated(r), t, r);
    opposite_of_product(t, r);
    opposite_of_product(r, r);
    times_commutes(t, r);
    assert(times(p, q) == plus(plus(tt, times(r, t)), plus(negated(times(r, t)), negated(
        times(r, r),
    )))) by {
        times_commutes(p, q);
        times_commutes(plus(t, r), t);
        times_commutes(t, r);
        opposite_of_product(t, r);
        times_commutes(plus(t, r), negated(r));
        times_commutes(negated(r), t);
        times_commutes(negated(r), r);
    }
    middle_cancels(tt, times(r, t), negated(times(r, r)));
    minus_adds_opposite(tt, four);
    assert(times(r, r) == minus(tt, four));
    opposite_of_sum(tt, negated(four));
    opposite_twice(four);
    plus_regroups(tt, negated(tt), four);
    opposites_cancel(tt);
    plus_nothing(four);
    assert(times(p, q) == four);
    scaling_is_product(d, whole(4));
    arithmetic_on_axis(whole::<R>(2), whole(2));
    times_exchanges(p, h, q, h);
    assert(four == times(d, times(two, two)));
    times_regroups(d, times(two, two), times(h, h));
    times_exchanges(two, two, h, h);
    times_one(one);
    times_one(d);
}

/// Half of a complex number is its product with one half.
proof fn halves_are_products<R: Real>(z: Complex<R>)
    requires
        field::<R>(),
        whole::<R>(2) != whole::<R>(0),
    ensures
        divided(z, whole(2)) == times(z, on_axis(over(whole(1), whole(2)))),
{
    times_one(z.re);
    times_one(z.im);
    over_of_product(z.re, whole(1), whole(2));
    over_of_product(z.im, whole(1), whole(2));
    scaling_is_product(z, over(whole(1), whole(2)));
}

/// Where nothing is rounded and elimination passes over no column, ESPRIT recovers the
/// rotation between the subarrays: if the lower one is the upper one times `psi`, the
/// least-squares solution is `psi`.
pub proof fn esprit_recovers_the_rotation<R: Real, M: Fn(Elementary<R>) -> R>(
    math: M,
    basis: spec_fn(int, int) -> Complex<R>,
    psi: spec_fn(int, int) -> Complex<R>,
    n: int,
    k: int,
    i: int,
    j: int,
)
    requires
        field::<R>(),
        powers_tell::<R>(),
        less(modulus(math, whole(0)), pivot_floor()),
        1 <= n,
        all_pivots_used(
            product(adjoint(rows_from(basis, 0)), rows_from(basis, 0), (n - 1) as nat),
            usable_pivot(math),
            k,
        ),
        forall|r: int, c: int|
            0 <= r < n - 1 && 0 <= c < k ==> #[trigger] rows_from(basis, 1)(r, c) == product(
                rows_from(basis, 0),
                psi,
                k as nat,
            )(r, c),
        0 <= i < k,
        0 <= j < k,
    ensures
        subarray_rotation(math, basis, n, k)(i, j) == psi(i, j),
{
    complex_field::<R>();
    let m = (n - 1) as nat;
    let upper = rows_from(basis, 0);
    let lower = rows_from(basis, 1);
    let turned = adjoint(upper);
    let gram = product(turned, upper, m);
    let inv = inverse(gram, usable_pivot(math), k);
    let right = product(turned, lower, m);
    // The right-hand side is the Gram matrix times `psi`.
    assert forall|r: int| 0 <= r < k implies #[trigger] right(r, j) == product(
        gram,
        psi,
        k as nat,
    )(r, j) by {
        equal_products(turned, lower, turned, product(upper, psi, k as nat), m, r, j);
        products_regroup(turned, upper, psi, m, k as nat, r, j);
    }
    equal_products(inv, right, inv, product(gram, psi, k as nat), k as nat, i, j);
    products_regroup(inv, gram, psi, k as nat, k as nat, i, j);
    // The inverse cancels the Gram matrix.
    assert forall|c: int| 0 <= c < k implies #[trigger] product(inv, gram, k as nat)(i, c)
        == identity::<Complex<R>>()(i, c) by {
        inverse_inverts(gram, usable_pivot(math), k, i, c);
    }
    equal_products(product(inv, gram, k as nat), psi, identity(), psi, k as nat, i, j);
    identity_times(psi, k as nat, i, j);
}

/// Where nothing is rounded, a covariance is Hermitian.
pub proof fn covariance_is_hermitian<R: Real>(
    x: spec_fn(int, int) -> Complex<R>,
    n_snapshots: nat,
    n: nat,
)
    requires
        field::<R>(),
        powers_tell::<R>(),
        count::<R>(n_snapshots as int) != whole::<R>(0),
    ensures
        hermitian(covariance(x, n_snapshots), n),
{
    complex_field::<R>();
    let c: R = count(n_snapshots as int);
    let r = covariance(x, n_snapshots);
    assert forall|i: int, j: int| 0 <= i < n && 0 <= j < n implies #[trigger] r(j, i) == conjugate(
        r(i, j),
    ) by {
        products_across_the_diagonal(x, n_snapshots, i, j);
        let z = product(x, adjoint(x), n_snapshots)(i, j);
        negative_quotient(z.im, c);
    }
    assert forall|i: int| 0 <= i < n implies (#[trigger] r(i, i)).im == whole::<R>(0) by {
        powers_are_real(x, n_snapshots, i);
        nothing_over(c);
    }
}

/// The products of two rows with each other's conjugates are conjugate to each other.
proof fn products_across_the_diagonal<R: Real>(
    x: spec_fn(int, int) -> Complex<R>,
    n: nat,
    i: int,
    j: int,
)
    requires
        field::<R>(),
        powers_tell::<R>(),
    ensures
        product(x, adjoint(x), n)(j, i) == conjugate(product(x, adjoint(x), n)(i, j)),
    decreases n,
{
    complex_field::<R>();
    if n == 0 {
        opposite_of_nothing::<R>();
    } else {
        let k = n - 1;
        products_across_the_diagonal(x, k as nat, i, j);
        let term = times(x(i, k), conjugate(x(j, k)));
        conjugate_of_sum(product(x, adjoint(x), k as nat)(i, j), term);
        conjugate_of_product(x(i, k), conjugate(x(j, k)));
        conjugate_twice(x(j, k));
        times_commutes(conjugate(x(i, k)), x(j, k));
    }
}

/// The product of a row with its own conjugate is real.
proof fn powers_are_real<R: Real>(x: spec_fn(int, int) -> Complex<R>, n: nat, i: int)
    requires
        field::<R>(),
    ensures
        product(x, adjoint(x), n)(i, i).im == whole::<R>(0),
    decreases n,
{
    if n > 0 {
        let k = n - 1;
        powers_are_real(x, k as nat, i);
        let z = x(i, k);
        opposite_of_product(z.re, z.im);
        times_commutes(z.re, z.im);
        opposites_cancel(times(z.re, z.im));
        plus_nothing(whole::<R>(0));
    }
}

/// In a direction that no noise column sees, the pseudo-spectrum is as high as it can be:
/// the reciprocal of the floor under the power.
pub proof fn music_peaks_where_no_noise_is_seen<R: Real, M: Fn(Elementary<R>) -> R>(
    math: M,
    basis: spec_fn(int, int) -> Complex<R>,
    n_elements: int,
    n_sources: int,
    degrees: R,
)
    requires
        field::<R>(),
        forall|c: int|
            0 <= c < noise_columns(n_elements, n_sources) ==> total(
                whole(0),
                #[trigger] overlap_terms(
                    math,
                    basis,
                    n_elements,
                    sine_of_degrees(math, degrees),
                    n_sources + c,
                ),
                n_elements as nat,
            ) == whole::<Complex<R>>(0),
    ensures
        pseudo_spectrum(math, basis, n_elements, n_sources, degrees) == over(
            whole(1),
            faintest::<R>(),
        ),
{
    let sine = sine_of_degrees(math, degrees);
    let terms = noise_terms(math, basis, n_elements, n_sources, sine);
    assert forall|c: int| 0 <= c < noise_columns(n_elements, n_sources) implies #[trigger] terms(c)
        == whole::<R>(0) by {
        assert(total(
            whole(0),
            overlap_terms(math, basis, n_elements, sine, n_sources + c),
            n_elements as nat,
        ) == whole::<Complex<R>>(0));
        times_nothing(whole::<R>(0));
        plus_nothing(whole::<R>(0));
    }
    total_of_nothing(terms, noise_columns(n_elements, n_sources));
    plus_nothing(faintest::<R>());
}

/// Where nothing is rounded, the loaded covariance is Hermitian.
pub proof fn loaded_covariance_is_a_hermitian_matrix<R: Real>(
    x: spec_fn(int, int) -> Complex<R>,
    n_snapshots: nat,
    loading: R,
    n: nat,
)
    requires
        field::<R>(),
        count::<R>(n_snapshots as int) != whole::<R>(0),
    ensures
        hermitian(loaded(x, n_snapshots, loading), n),
{
    let l = loaded(x, n_snapshots, loading);
    let c = covariance(x, n_snapshots);
    opposite_of_nothing::<R>();
    assert forall|i: int| 0 <= i < n implies (#[trigger] l(i, i)).im == whole::<R>(0) by {
        powers_are_real(x, n_snapshots, i);
        nothing_over(count::<R>(n_snapshots as int));
    }
    assert forall|i: int, j: int| 0 <= i < n && 0 <= j < n implies #[trigger] l(j, i) == conjugate(
        l(i, j),
    ) by {
        conjugate_twice(c(i, j));
        conjugate_twice(c(j, i));
        assert(l(i, i).im == whole::<R>(0));
    }
}

/// Where nothing is rounded and elimination passes over no column, the MVDR weights `w` have
/// the least output power: that of any other `v` with unit response in the look direction is
/// the power of `w` and the power of the difference.
pub proof fn mvdr_has_least_power<R: Real, M: Fn(Elementary<R>) -> R>(
    math: M,
    x: Seq<R>,
    snapshots: Matrix<Complex<R>>,
    theta_look_deg: R,
    loading: R,
    v: spec_fn(int) -> Complex<R>,
)
    requires
        field::<R>(),
        powers_tell::<R>(),
        count::<R>(snapshots.breadth() as int) != whole::<R>(0),
        less(modulus(math, whole(0)), pivot_floor()),
        all_pivots_used(
            loaded(snapshots.entry(), snapshots.breadth(), loading),
            usable_pivot(math),
            x.len() as int,
        ),
        look_response(math, x, snapshots, theta_look_deg, loading) != whole::<Complex<R>>(0),
        inner(
            look_vector(math, x, sine_of_degrees(math, theta_look_deg)),
            v,
            x.len(),
        ) == whole::<Complex<R>>(1),
    ensures
        ({
            let r = loaded(snapshots.entry(), snapshots.breadth(), loading);
            let w = capon(math, x, snapshots, theta_look_deg, loading);
            let u = |i: int| minus(v(i), w(i));
            form(r, v, v, x.len()) == plus(form(r, w, w, x.len()), form(r, u, u, x.len()))
        }),
{
    complex_field::<R>();
    let n = x.len();
    let r = loaded(snapshots.entry(), snapshots.breadth(), loading);
    let w = capon(math, x, snapshots, theta_look_deg, loading);
    let u = |i: int| minus(v(i), w(i));
    let a = look_vector(math, x, sine_of_degrees(math, theta_look_deg));
    let d = look_response(math, x, snapshots, theta_look_deg, loading);
    let one: Complex<R> = whole(1);
    let zero: Complex<R> = whole(0);
    // The difference is not seen in the look direction.
    assert forall|i: int| 0 <= i < n implies #[trigger] v(i) == plus(
        times(one, w(i)),
        times(one, u(i)),
    ) by {
        times_one(w(i));
        times_one(u(i));
        minus_adds_opposite(v(i), w(i));
        plus_commutes(w(i), plus(v(i), negated(w(i))));
        plus_regroups(v(i), negated(w(i)), w(i));
        opposites_cancel(w(i));
        plus_nothing(v(i));
    }
    assert(combines(v, one, w, one, u, n));
    mvdr_is_distortionless(math, x, snapshots, theta_look_deg, loading);
    inner_with_combination(a, v, one, w, one, u, n);
    times_one(inner(a, w, n));
    times_one(inner(a, u, n));
    plus_nothing(one);
    plus_commutes(one, inner(a, u, n));
    plus_cancels(inner(a, u, n), zero, one);
    inner_is_hermitian(u, a, n);
    opposite_of_nothing::<R>();
    assert(inner(u, a, n) == zero);
    // The matrix takes the weights to a multiple of the look vector.
    let rw = image(r, w, n);
    let q = over(one, d);
    assert forall|i: int| 0 <= i < n implies #[trigger] rw(i) == plus(
        times(q, a(i)),
        times(zero, a(i)),
    ) by {
        mvdr_meets_the_normal_equations(math, x, snapshots, theta_look_deg, loading, i);
        times_one(a(i));
        over_of_product(one, a(i), d);
        times_nothing(a(i));
        plus_nothing(times(q, a(i)));
    }
    assert(combines(rw, q, a, zero, a, n));
    inner_with_combination(u, rw, q, a, zero, a, n);
    times_nothing(q);
    times_nothing(zero);
    plus_nothing(zero);
    assert(form(r, u, w, n) == zero);
    loaded_covariance_is_a_hermitian_matrix(
        snapshots.entry(),
        snapshots.breadth(),
        loading,
        n,
    );
    form_is_hermitian(r, w, u, n);
    assert(form(r, w, u, n) == zero);
    // The form of the sum.
    let rv = image(r, v, n);
    let ru = image(r, u, n);
    assert forall|i: int| 0 <= i < n implies #[trigger] rv(i) == plus(
        times(one, rw(i)),
        times(one, ru(i)),
    ) by {
        image_of_combination(r, v, one, w, one, u, n, i);
    }
    assert(combines(rv, one, rw, one, ru, n));
    inner_of_combination(rv, v, one, w, one, u, n);
    inner_with_combination(w, rv, one, rw, one, ru, n);
    inner_with_combination(u, rv, one, rw, one, ru, n);
    assert(conjugate(one) == one);
    times_one(form(r, w, w, n));
    times_one(form(r, u, u, n));
    times_one(zero);
    plus_nothing(form(r, w, w, n));
    plus_nothing(form(r, u, u, n));
}

/// The middle element of an odd line stands at nothing.
proof fn middle_stands_at_nothing<R: Real>(m: int)
    requires
        field::<R>(),
        counts_add::<R>(),
        two_is_one_and_one::<R>(),
        whole::<R>(2) != whole::<R>(0),
        0 <= m,
    ensures
        line_position::<R>(2 * m + 1, m) == whole::<R>(0),
{
    let c: R = count(m);
    assert(count::<R>(m + m) == plus(c, c));
    times_distributes(c, whole::<R>(1), whole::<R>(1));
    times_one(c);
    assert(times(c, whole(2)) == count::<R>(2 * m));
    quotient_is_unique(c, count(2 * m), whole(2));
    opposites_cancel(c);
    times_nothing(over(whole::<R>(1), whole(2)));
}

/// The middle element of an odd line sees every direction alike, where nothing is rounded:
/// what it receives does not depend on where the sources stand.
pub proof fn middle_element_sees_no_direction<R: Real, M: Fn(Elementary<R>) -> R>(
    math: M,
    words: Seq<u64>,
    m: int,
    n_snapshots: int,
    here: Seq<R>,
    there: Seq<R>,
    snr_db: R,
    k: int,
)
    requires
        field::<R>(),
        counts_add::<R>(),
        two_is_one_and_one::<R>(),
        whole::<R>(2) != whole::<R>(0),
        0 <= m,
        here.len() == there.len(),
    ensures
        received(math, words, 2 * m + 1, n_snapshots, here, snr_db)(m, k) == received(
            math,
            words,
            2 * m + 1,
            n_snapshots,
            there,
            snr_db,
        )(m, k),
{
    let n = 2 * m + 1;
    middle_stands_at_nothing::<R>(m);
    let turn = times(whole(-2), value(math, Elementary::Pi));
    times_nothing(turn);
    let (a, b) = (steering(math, n, here), steering(math, n, there));
    assert forall|j: int| 0 <= j < here.len() implies #[trigger] a(m, j) == b(m, j) by {
        times_nothing(sine_of_degrees(math, here[j]));
        times_nothing(sine_of_degrees(math, there[j]));
    }
    let s = signals(math, words, n_snapshots);
    equal_products(a, s, b, s, here.len(), m, k);
}

} // verus!
