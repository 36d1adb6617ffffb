//! Steering, tapering and array factors.
use vstd::prelude::*;
use crate::array::{full_turn, turn_part};
use crate::complex::{conjugate, modulus, phasor, Complex};
use crate::exact::{
    field, minus_adds_opposite, on_circle, opposite_of_product, opposite_twice, opposites_cancel,
    times_commutes,
};
use crate::levels::{
    in_line, largest, level, maximum, normalize, normalized, peak, peak_is_the_largest, peak_of,
    to_db,
};
use crate::parallel::{collectable, map_indices};
use crate::scalar::{
    arithmetic, count, counted, evaluates, fraction, larger, less, max_of, min_of, minus, negated,
    ordering, over, plus, ratio, smaller, times, total, value, whole, Elementary, Real,
};
use crate::table::{cell_is_inside, place_has_cell, vector_of, Matrix};
use crate::text::same_text;

verus! {

/// The amplitude taper of an array.
#[derive(Clone, Copy, Debug, PartialEq, Eq, Structural)]
pub enum TaperType {
    Uniform,
    Taylor,
    Hamming,
    Hanning,
}

impl TaperType {
    /// The name of the taper in lower case.
    pub open spec fn id(self) -> Seq<char> {
        match self {
            TaperType::Uniform => "uniform"@,
            TaperType::Taylor => "taylor"@,
            TaperType::Hamming => "hamming"@,
            TaperType::Hanning => "hanning"@,
        }
    }

    /// The name of the taper in lower case.
    pub fn name(&self) -> (r: &'static str)
        ensures
            r@ == self.id(),
    {
        match self {
            TaperType::Uniform => "uniform",
            TaperType::Taylor => "taylor",
            TaperType::Hamming => "hamming",
            TaperType::Hanning => "hanning",
        }
    }
}

/// A beam: its direction, its taper and the sidelobe level that the taper aims at.
#[derive(Clone, Copy, Debug)]
pub struct BeamConfig<R> {
    pub theta_deg: R,
    pub phi_deg: R,
    pub taper: TaperType,
    pub sidelobe_db: R,
}

impl<R: Real> BeamConfig<R> {
    /// The beam that is meant where nothing else is said: broadside, without a taper.
    pub fn standard() -> (r: Self)
        requires
            arithmetic::<R>(),
        ensures
            r == (BeamConfig::<R> {
                theta_deg: whole(0),
                phi_deg: whole(0),
                taper: TaperType::Uniform,
                sidelobe_db: whole(-30),
            }),
    {
        BeamConfig {
            theta_deg: R::from(0),
            phi_deg: R::from(0),
            taper: TaperType::Uniform,
            sidelobe_db: R::from(-30),
        }
    }
}

// ---- steering ---------------------------------------------------------------

/// The phase that the direction cosines `u` and `v` give an element at `(x, y)`.
pub open spec fn path_phase<R: Real, M: Fn(Elementary<R>) -> R>(math: M, x: R, y: R, u: R, v: R) -> R {
    times(full_turn(math), plus(times(x, u), times(y, v)))
}

/// The phase that the direction cosines `u` and `v` give an element at `(x, y)`.
pub(crate) fn phase_of<R: Real, M: Fn(Elementary<R>) -> R>(x: R, y: R, u: R, v: R, math: &M) -> (r: R)
    requires
        arithmetic::<R>(),
        evaluates(*math),
    ensures
        r == path_phase(*math, x, y, u, v),
{
    R::from(2) * math(Elementary::Pi) * (x * u + y * v)
}

/// The direction cosines of a direction given in radians.
pub open spec fn direction_cosines<R: Real, M: Fn(Elementary<R>) -> R>(math: M, theta: R, phi: R) -> (R, R) {
    (
        times(value(math, Elementary::Sin(theta)), value(math, Elementary::Cos(phi))),
        times(value(math, Elementary::Sin(theta)), value(math, Elementary::Sin(phi))),
    )
}

/// The steering weights for a direction given in degrees.
pub open spec fn steering_weights<R: Real, M: Fn(Elementary<R>) -> R>(
    math: M,
    x: Seq<R>,
    y: Seq<R>,
    theta_deg: R,
    phi_deg: R,
) -> Seq<Complex<R>> {
    let (u, v) = direction_cosines(
        math,
        value(math, Elementary::ToRadians(theta_deg)),
        value(math, Elementary::ToRadians(phi_deg)),
    );
    Seq::new(x.len(), |i: int| conjugate(phasor(math, path_phase(math, x[i], y[i], u, v))))
}

/// The steering weights for a direction: each element is turned back by its phase.
pub fn steering_vector<R: Real, M: Fn(Elementary<R>) -> R>(
    x: &[R],
    y: &[R],
    theta_deg: R,
    phi_deg: R,
    math: &M,
) -> (w: Vec<Complex<R>>)
    requires
        arithmetic::<R>(),
        evaluates(*math),
        x@.len() <= y@.len(),
    ensures
        w@ == steering_weights(*math, x@, y@, theta_deg, phi_deg),
{
    let theta = math(Elementary::ToRadians(theta_deg));
    let phi = math(Elementary::ToRadians(phi_deg));
    let u = math(Elementary::Sin(theta)) * math(Elementary::Cos(phi));
    let v = math(Elementary::Sin(theta)) * math(Elementary::Sin(phi));
    vector_of(
        x.len(),
        |i: usize| -> (z: Complex<R>)
            requires
                i < x@.len(),
            ensures
                z == conjugate(phasor(*math, path_phase(*math, x@[i as int], y@[i as int], u, v))),
            { Complex::cis(phase_of(x[i], y[i], u, v, math), math).conj() })
}

// ---- tapering ---------------------------------------------------------------

/// A raised-cosine window with offset `a` and swing `b`.
pub open spec fn raised_cosine<R: Real, M: Fn(Elementary<R>) -> R>(math: M, a: R, b: R, n: nat) -> Seq<
    R,
> {
    Seq::new(
        n,
        |i: int| minus(a, times(b, value(math, Elementary::Cos(turn_part(math, n as int, i))))),
    )
}

/// The window over a grid whose columns are weighted by `wx` and whose rows by `wy`, read
/// row by row.
pub open spec fn separable<R: Real>(wx: Seq<R>, wy: Seq<R>) -> Seq<R> {
    Seq::new(
        wx.len() * wy.len(),
        |k: int| times(wy[k / wx.len() as int], wx[k % wx.len() as int]),
    )
}

/// The number of sidelobes on either side that a Taylor window keeps level.
pub open spec fn taylor_lobes(n: int) -> int {
    if n / 2 > 5 {
        5
    } else if n / 2 < 1 {
        1
    } else {
        n / 2
    }
}

/// The square of the Taylor parameter for a sidelobe level.
pub open spec fn taylor_square<R: Real, M: Fn(Elementary<R>) -> R>(math: M, sll_db: R) -> R {
    let a = over(
        value(
            math,
            Elementary::Acosh(
                value(
                    math,
                    Elementary::Pow(
                        whole(10),
                        over(value(math, Elementary::Abs(sll_db)), whole(20)),
                    ),
                ),
            ),
        ),
        value(math, Elementary::Pi),
    );
    times(a, a)
}

/// The squared zero of the ideal pattern that lobe `m` is measured against.
pub open spec fn taylor_zero<R: Real>(a2: R, m: int) -> R {
    plus(a2, times(minus(count(m), ratio(1, 2)), minus(count(m), ratio(1, 2))))
}

/// The product over the lobes from 1 to `p - 1` in the coefficient of lobe `m`.
pub open spec fn taylor_product<R: Real>(a2: R, m: int, p: int) -> R
    decreases p,
{
    if p <= 1 {
        whole(1)
    } else {
        let q = p - 1;
        let before = taylor_product(a2, m, q);
        if q == m {
            over(
                times(before, if m % 2 == 1 {
                    whole(1)
                } else {
                    whole(-1)
                }),
                times(whole(2), count(q)),
            )
        } else {
            over(times(times(before, count(q)), count(q)), taylor_zero(a2, m))
        }
    }
}

/// The place of entry `i` of `n` between -1 and 1.
pub open spec fn taylor_place<R: Real>(n: int, i: int) -> R {
    times(over(minus(count(i), over(count(n - 1), whole(2))), count(n)), whole(2))
}

/// What lobe `k + 1` adds to the window at `place`.
pub open spec fn taylor_terms<R: Real, M: Fn(Elementary<R>) -> R>(
    math: M,
    a2: R,
    lobes: int,
    place: R,
) -> spec_fn(int) -> R {
    |k: int|
        times(
            times(
                taylor_product(a2, k + 1, lobes),
                value(math, Elementary::Sqrt(taylor_zero(a2, k + 1))),
            ),
            value(
                math,
                Elementary::Cos(times(times(value(math, Elementary::Pi), count(k + 1)), place)),
            ),
        )
}

/// A Taylor window before it is scaled.
pub open spec fn taylor_raw<R: Real, M: Fn(Elementary<R>) -> R>(math: M, n: nat, sll_db: R) -> Seq<R> {
    let lobes = taylor_lobes(n as int);
    Seq::new(
        n,
        |i: int|
            plus(
                whole(1),
                times(
                    whole(2),
                    total(
                        whole(0),
                        taylor_terms(
                            math,
                            taylor_square(math, sll_db),
                            lobes,
                            taylor_place(n as int, i),
                        ),
                        (lobes - 1) as nat,
                    ),
                ),
            ),
    )
}

/// The values over their peak; values without a peak stay as they are.
pub open spec fn scaled_to_peak<R: Real>(values: Seq<R>) -> Seq<R> {
    match peak(values) {
        Some(best) => Seq::new(values.len(), |i: int| over(values[i], best)),
        None => values,
    }
}

/// The distances of the elements from the centre, over the largest of them or one.
pub open spec fn relative_radii<R: Real, M: Fn(Elementary<R>) -> R>(
    math: M,
    x: Seq<R>,
    y: Seq<R>,
) -> Seq<R> {
    let r = Seq::new(
        x.len(),
        |i: int|
            value(math, Elementary::Sqrt(plus(times(x[i], x[i]), times(y[i], y[i])))),
    );
    Seq::new(x.len(), |i: int| over(r[i], larger(largest(whole(0), r), whole(1))))
}

/// The radial taper at a relative radius.
pub open spec fn radial_weight<R: Real, M: Fn(Elementary<R>) -> R>(
    math: M,
    taper: TaperType,
    sll_db: R,
    radius: R,
) -> R {
    match taper {
        TaperType::Taylor => value(
            math,
            Elementary::Pow(
                value(
                    math,
                    Elementary::Cos(
                        times(
                            over(value(math, Elementary::Pi), whole(2)),
                            minus(whole(1), smaller(radius, ratio(99, 100))),
                        ),
                    ),
                ),
                larger(over(value(math, Elementary::Abs(sll_db)), whole(30)), ratio(1, 2)),
            ),
        ),
        TaperType::Hamming => minus(
            ratio(54, 100),
            times(
                ratio(46, 100),
                value(math, Elementary::Cos(times(full_turn(math), radius))),
            ),
        ),
        TaperType::Hanning => minus(
            ratio(1, 2),
            times(ratio(1, 2), value(math, Elementary::Cos(times(full_turn(math), radius)))),
        ),
        TaperType::Uniform => whole(1),
    }
}

/// The taper of an array: by rows and columns on a rectangular grid, by the distance from
/// the centre elsewhere.
pub open spec fn taper_weights<R: Real, M: Fn(Elementary<R>) -> R>(
    math: M,
    x: Seq<R>,
    y: Seq<R>,
    nx: nat,
    ny: nat,
    taper: TaperType,
    sidelobe_db: R,
    geometry: Seq<char>,
) -> Seq<R> {
    if taper == TaperType::Uniform {
        Seq::new(x.len(), |i: int| whole(1))
    } else if geometry != "rectangular"@ {
        let radii = relative_radii(math, x, y);
        Seq::new(x.len(), |i: int| radial_weight(math, taper, sidelobe_db, radii[i]))
    } else {
        match taper {
            TaperType::Taylor => separable(
                scaled_to_peak(taylor_raw(math, nx, sidelobe_db)),
                scaled_to_peak(taylor_raw(math, ny, sidelobe_db)),
            ),
            TaperType::Hamming => separable(
                raised_cosine(math, ratio(54, 100), ratio(46, 100), nx),
                raised_cosine(math, ratio(54, 100), ratio(46, 100), ny),
            ),
            _ => separable(
                raised_cosine(math, ratio(1, 2), ratio(1, 2), nx),
                raised_cosine(math, ratio(1, 2), ratio(1, 2), ny),
            ),
        }
    }
}

/// A taper has one weight for each element.
pub proof fn taper_covers_the_array<R: Real, M: Fn(Elementary<R>) -> R>(
    math: M,
    x: Seq<R>,
    y: Seq<R>,
    nx: nat,
    ny: nat,
    taper: TaperType,
    sidelobe_db: R,
    geometry: Seq<char>,
)
    requires
        geometry == "rectangular"@ ==> x.len() == nx * ny,
    ensures
        taper_weights(math, x, y, nx, ny, taper, sidelobe_db, geometry).len() == x.len(),
{
}

/// The amplitude taper of an array.
pub fn apply_taper<R: Real, M: Fn(Elementary<R>) -> R>(
    x: &[R],
    y: &[R],
    nx: usize,
    ny: usize,
    taper: &TaperType,
    sidelobe_db: R,
    geometry: &str,
    math: &M,
) -> (w: Vec<R>)
    requires
        arithmetic::<R>(),
        evaluates(*math),
        *taper != TaperType::Uniform && geometry@ != "rectangular"@ ==> x@.len() <= y@.len(),
        *taper != TaperType::Uniform && geometry@ == "rectangular"@ ==> nx * ny <= usize::MAX,
    ensures
        w@ == taper_weights(
            *math,
            x@,
            y@,
            nx as nat,
            ny as nat,
            *taper,
            sidelobe_db,
            geometry@,
        ),
{
    let n = x.len();
    if *taper == TaperType::Uniform {
        return vector_of(
            n,
            |i: usize| -> (v: R)
                ensures
                    v == whole::<R>(1),
                { R::from(1) });
    }
    if !same_text(geometry, "rectangular") {
        return radial_taper(x, y, taper, sidelobe_db, math);
    }
    match taper {
        TaperType::Taylor => {
            let tx = taylor_1d(nx, sidelobe_db, math);
            let ty = taylor_1d(ny, sidelobe_db, math);
            separable_window(tx.as_slice(), ty.as_slice())
        },
        TaperType::Hamming => {
            let wx = cosine_window(nx, fraction(54, 100), fraction(46, 100), math);
            let wy = cosine_window(ny, fraction(54, 100), fraction(46, 100), math);
            separable_window(wx.as_slice(), wy.as_slice())
        },
        _ => {
            let wx = cosine_window(nx, fraction(1, 2), fraction(1, 2), math);
            let wy = cosine_window(ny, fraction(1, 2), fraction(1, 2), math);
            separable_window(wx.as_slice(), wy.as_slice())
        },
    }
}

/// A raised-cosine window with offset `a` and swing `b`.
pub fn cosine_window<R: Real, M: Fn(Elementary<R>) -> R>(n: usize, a: R, b: R, math: &M) -> (w: Vec<R>)
    requires
        arithmetic::<R>(),
        evaluates(*math),
    ensures
        w@ == raised_cosine(*math, a, b, n as nat),
{
    vector_of(
        n,
        |i: usize| -> (v: R)
            requires
                i < n,
            ensures
                v == raised_cosine(*math, a, b, n as nat)[i as int],
            {
                a - b * math(
                    Elementary::Cos(
                        R::from(2) * math(Elementary::Pi) * counted(i as u64) / counted(n as u64),
                    ),
                )
            })
}

/// The window over a grid whose columns are weighted by `wx` and whose rows by `wy`.
pub fn separable_window<R: Real>(wx: &[R], wy: &[R]) -> (w: Vec<R>)
    requires
        arithmetic::<R>(),
        wx@.len() * wy@.len() <= usize::MAX,
    ensures
        w@ == separable(wx@, wy@),
{
    let nx = wx.len();
    let n = nx * wy.len();
    vector_of(
        n,
        |k: usize| -> (v: R)
            requires
                k < n,
            ensures
                v == separable(wx@, wy@)[k as int],
            {
                proof {
                    place_has_cell(k as int, nx as int, wy@.len() as int);
                }
                wy[k / nx] * wx[k % nx]
            })
}

/// The coefficient product of lobe `m`.
fn taylor_factor<R: Real>(a2: R, m: usize, lobes: usize) -> (r: R)
    requires
        arithmetic::<R>(),
        1 <= lobes,
    ensures
        r == taylor_product(a2, m as int, lobes as int),
{
    let half: R = fraction(1, 2);
    let away: R = counted::<R>(m as u64) - half;
    let zero = a2 + away * away;
    let mut product: R = R::from(1);
    for q in 1..lobes
        invariant
            arithmetic::<R>(),
            zero == taylor_zero(a2, m as int),
            product == taylor_product(a2, m as int, q as int),
    {
        let order: R = counted(q as u64);
        if q == m {
            let sign: R = if m % 2 == 1 {
                R::from(1)
            } else {
                R::from(-1)
            };
            product = product * sign / (R::from(2) * order);
        } else {
            product = product * order * order / zero;
        }
    }
    product
}

/// A Taylor window for a sidelobe level, scaled to a peak of one.
pub fn taylor_1d<R: Real, M: Fn(Elementary<R>) -> R>(n: usize, sll_db: R, math: &M) -> (w: Vec<R>)
    requires
        arithmetic::<R>(),
        evaluates(*math),
    ensures
        w@ == scaled_to_peak(taylor_raw(*math, n as nat, sll_db)),
{
    let lobes: usize = if n / 2 > 5 {
        5
    } else if n / 2 < 1 {
        1
    } else {
        n / 2
    };
    let a = math(
        Elementary::Acosh(
            math(
                Elementary::Pow(R::from(10), math(Elementary::Abs(sll_db)) / R::from(20)),
            ),
        ),
    ) / math(Elementary::Pi);
    let a2 = a * a;
    let raw = vector_of(
        n,
        |i: usize| -> (v: R)
            requires
                i < n,
            ensures
                v == taylor_raw(*math, n as nat, sll_db)[i as int],
            {
                let place = (counted::<R>(i as u64) - counted::<R>((n - 1) as u64) / R::from(2))
                    / counted(n as u64) * R::from(2);
                let mut f: R = R::from(0);
                for m in 1..lobes
                    invariant
                        arithmetic::<R>(),
                        evaluates(*math),
                        1 <= lobes,
                        f == total(
                            whole(0),
                            taylor_terms(*math, a2, lobes as int, place),
                            (m - 1) as nat,
                        ),
                {
                    let away: R = counted::<R>(m as u64) - fraction(1, 2);
                    let c = taylor_factor(a2, m, lobes) * math(
                        Elementary::Sqrt(a2 + away * away),
                    );
                    f = f + c * math(
                        Elementary::Cos(math(Elementary::Pi) * counted(m as u64) * place),
                    );
                }
                R::from(1) + R::from(2) * f
            });
    assert(raw@ =~= taylor_raw(*math, n as nat, sll_db));
    let best = peak_of(raw.as_slice());
    vector_of(
        n,
        |i: usize| -> (v: R)
            requires
                i < n,
            ensures
                v == scaled_to_peak(raw@)[i as int],
            {
                match best {
                    Some(b) => raw[i] / b,
                    None => raw[i],
                }
            })
}

/// The taper of an array by the distance of its elements from the centre.
pub fn radial_taper<R: Real, M: Fn(Elementary<R>) -> R>(
    x: &[R],
    y: &[R],
    taper: &TaperType,
    sll_db: R,
    math: &M,
) -> (w: Vec<R>)
    requires
        arithmetic::<R>(),
        evaluates(*math),
        x@.len() <= y@.len(),
    ensures
        w@ == Seq::new(
            x@.len(),
            |i: int| radial_weight(*math, *taper, sll_db, relative_radii(*math, x@, y@)[i]),
        ),
{
    let n = x.len();
    let ghost gr = Seq::new(
        x@.len(),
        |i: int|
            value(*math, Elementary::Sqrt(plus(times(x@[i], x@[i]), times(y@[i], y@[i])))),
    );
    let r = vector_of(
        n,
        |i: usize| -> (v: R)
            requires
                i < n,
            ensures
                v == gr[i as int],
            { math(Elementary::Sqrt(x[i] * x[i] + y[i] * y[i])) });
    assert(r@ =~= gr);
    let far = max_of(maximum(R::from(0), r.as_slice()), R::from(1));
    vector_of(
        n,
        |i: usize| -> (v: R)
            requires
                i < n,
            ensures
                v == radial_weight(
                    *math,
                    *taper,
                    sll_db,
                    relative_radii(*math, x@, y@)[i as int],
                ),
            { radial_weight_of(taper, sll_db, r[i] / far, math) })
}

/// The radial taper at a relative radius.
fn radial_weight_of<R: Real, M: Fn(Elementary<R>) -> R>(
    taper: &TaperType,
    sll_db: R,
    radius: R,
    math: &M,
) -> (r: R)
    requires
        arithmetic::<R>(),
        evaluates(*math),
    ensures
        r == radial_weight(*math, *taper, sll_db, radius),
{
    match taper {
        TaperType::Taylor => {
            let shape = max_of(math(Elementary::Abs(sll_db)) / R::from(30), fraction(1, 2));
            let near = R::from(1) - min_of(radius, fraction(99, 100));
            math(
                Elementary::Pow(
                    math(Elementary::Cos(math(Elementary::Pi) / R::from(2) * near)),
                    shape,
                ),
            )
        },
        TaperType::Hamming => {
            let swing: R = fraction(46, 100);
            let offset: R = fraction(54, 100);
            offset - swing * math(Elementary::Cos(R::from(2) * math(Elementary::Pi) * radius))
        },
        TaperType::Hanning => {
            let half: R = fraction(1, 2);
            half - half * math(Elementary::Cos(R::from(2) * math(Elementary::Pi) * radius))
        },
        TaperType::Uniform => R::from(1),
    }
}

// ---- array factors ----------------------------------------------------------

/// What each element contributes to the response in the direction with the cosines `u`
/// and `v`.
pub open spec fn contributions<R: Real, M: Fn(Elementary<R>) -> R>(
    math: M,
    x: Seq<R>,
    y: Seq<R>,
    weights: Seq<Complex<R>>,
    u: R,
    v: R,
) -> spec_fn(int) -> Complex<R> {
    |i: int| times(weights[i], phasor(math, path_phase(math, x[i], y[i], u, v)))
}

/// The level of the response of the array in the direction with the cosines `u` and `v`.
pub open spec fn response_level<R: Real, M: Fn(Elementary<R>) -> R>(
    math: M,
    x: Seq<R>,
    y: Seq<R>,
    weights: Seq<Complex<R>>,
    u: R,
    v: R,
) -> R {
    level(
        math,
        modulus(math, total(whole(0), contributions(math, x, y, weights, u, v), x.len())),
    )
}

/// The levels over all directions, theta by theta.
pub open spec fn pattern_levels<R: Real, M: Fn(Elementary<R>) -> R>(
    math: M,
    x: Seq<R>,
    y: Seq<R>,
    weights: Seq<Complex<R>>,
    theta: Seq<R>,
    phi: Seq<R>,
) -> Seq<R> {
    Seq::new(
        theta.len() * phi.len(),
        |k: int|
            {
                let (u, v) = direction_cosines(
                    math,
                    theta[k / phi.len() as int],
                    phi[k % phi.len() as int],
                );
                response_level(math, x, y, weights, u, v)
            },
    )
}

/// The levels along a cut at `phi_deg`.
pub open spec fn cut_levels<R: Real, M: Fn(Elementary<R>) -> R>(
    math: M,
    x: Seq<R>,
    y: Seq<R>,
    weights: Seq<Complex<R>>,
    phi_deg: R,
    theta_deg: Seq<R>,
) -> Seq<R> {
    Seq::new(
        theta_deg.len(),
        |i: int|
            {
                let (u, v) = direction_cosines(
                    math,
                    value(math, Elementary::ToRadians(theta_deg[i])),
                    value(math, Elementary::ToRadians(phi_deg)),
                );
                response_level(math, x, y, weights, u, v)
            },
    )
}

/// The level of the response of the array in the direction with the cosines `u` and `v`.
pub fn response_db<R: Real, M: Fn(Elementary<R>) -> R>(
    x: &[R],
    y: &[R],
    weights: &[Complex<R>],
    u: R,
    v: R,
    math: &M,
) -> (r: R)
    requires
        arithmetic::<R>(),
        evaluates(*math),
        x@.len() <= y@.len(),
        x@.len() <= weights@.len(),
    ensures
        r == response_level(*math, x@, y@, weights@, u, v),
{
    let mut af: Complex<R> = Complex::from(0);
    for i in 0..x.len()
        invariant
            arithmetic::<R>(),
            evaluates(*math),
            x@.len() <= y@.len(),
            x@.len() <= weights@.len(),
            af == total(whole(0), contributions(*math, x@, y@, weights@, u, v), i as nat),
    {
        let phase = phase_of(x[i], y[i], u, v, math);
        af = af + weights[i] * Complex::cis(phase, math);
    }
    to_db(af.norm(math), math)
}

/// The array factor over all directions in radians, in decibels below its maximum; the
/// directions are shared out to all cores.
pub fn compute_array_factor<R: Real, M: Fn(Elementary<R>) -> R + Sync>(
    x: &[R],
    y: &[R],
    weights: &[Complex<R>],
    theta: &[R],
    phi: &[R],
    math: &M,
) -> (r: Matrix<R>)
    requires
        arithmetic::<R>(),
        evaluates(*math),
        theta@.len() * phi@.len() <= usize::MAX,
        collectable::<R>(theta@.len() * phi@.len()),
        theta@.len() * phi@.len() > 0 ==> x@.len() <= y@.len() && x@.len() <= weights@.len(),
    ensures
        r.holds(
            theta@.len() as int,
            phi@.len() as int,
            |i: int, j: int|
                normalized(pattern_levels(*math, x@, y@, weights@, theta@, phi@))[i
                    * phi@.len() + j],
        ),
{
    let n_theta = theta.len();
    let n_phi = phi.len();
    let n = n_theta * n_phi;
    let flat = map_indices(
        n,
        |k: usize| -> (v: R)
            requires
                k < n,
            ensures
                v == pattern_levels(*math, x@, y@, weights@, theta@, phi@)[k as int],
            {
                proof {
                    place_has_cell(k as int, n_phi as int, n_theta as int);
                }
                let sin_theta = math(Elementary::Sin(theta[k / n_phi]));
                let u = sin_theta * math(Elementary::Cos(phi[k % n_phi]));
                let v = sin_theta * math(Elementary::Sin(phi[k % n_phi]));
                response_db(x, y, weights, u, v, math)
            });
    assert(flat@ =~= pattern_levels(*math, x@, y@, weights@, theta@, phi@));
    rows_of(normalize(flat.as_slice()).as_slice(), n_theta, n_phi)
}

/// The rows of a table that is read row by row.
pub fn rows_of<R: Real>(flat: &[R], rows: usize, cols: usize) -> (r: Matrix<R>)
    requires
        flat@.len() == rows * cols,
    ensures
        r.holds(rows as int, cols as int, |i: int, j: int| flat@[i * cols + j]),
{
    assert(rows * cols <= flat.len());
    Matrix::build(
        rows,
        cols,
        |i: usize, j: usize| -> (v: R)
            requires
                i < rows,
                j < cols,
            ensures
                v == flat@[i * cols + j],
            {
                proof {
                    cell_is_inside(i as int, j as int, rows as int, cols as int);
                }
                flat[i * cols + j]
            })
}

/// The array factor along a cut at `phi_deg`, in decibels below its maximum; the angles,
/// in degrees, are shared out to all cores.
pub fn compute_beam_cut<R: Real, M: Fn(Elementary<R>) -> R + Sync>(
    x: &[R],
    y: &[R],
    weights: &[Complex<R>],
    phi_deg: R,
    theta_range: &[R],
    math: &M,
) -> (r: Vec<R>)
    requires
        arithmetic::<R>(),
        evaluates(*math),
        collectable::<R>(theta_range@.len()),
        theta_range@.len() > 0 ==> x@.len() <= y@.len() && x@.len() <= weights@.len(),
    ensures
        r@ == normalized(cut_levels(*math, x@, y@, weights@, phi_deg, theta_range@)),
{
    let phi = math(Elementary::ToRadians(phi_deg));
    let cos_phi = math(Elementary::Cos(phi));
    let sin_phi = math(Elementary::Sin(phi));
    let levels = map_indices(
        theta_range.len(),
        |i: usize| -> (v: R)
            requires
                i < theta_range@.len(),
            ensures
                v == cut_levels(*math, x@, y@, weights@, phi_deg, theta_range@)[i as int],
            {
                let theta = math(Elementary::ToRadians(theta_range[i]));
                let u = math(Elementary::Sin(theta)) * cos_phi;
                let v = math(Elementary::Sin(theta)) * sin_phi;
                response_db(x, y, weights, u, v, math)
            });
    assert(levels@ =~= cut_levels(*math, x@, y@, weights@, phi_deg, theta_range@));
    normalize(levels.as_slice())
}


// ---- sidelobes --------------------------------------------------------------

/// The first place in `low..high` that `wanted` picks.
pub open spec fn first_place(wanted: spec_fn(int) -> bool, low: int, high: int) -> Option<int>
    decreases high - low,
{
    if low >= high {
        None
    } else if wanted(low) {
        Some(low)
    } else {
        first_place(wanted, low + 1, high)
    }
}

/// The last place in `low..high` that `wanted` picks.
pub open spec fn last_place(wanted: spec_fn(int) -> bool, low: int, high: int) -> Option<int>
    decreases high - low,
{
    if low >= high {
        None
    } else if wanted(high - 1) {
        Some(high - 1)
    } else {
        last_place(wanted, low, high - 1)
    }
}

/// The places that lie more than three decibels down.
pub open spec fn off_beam<R: Real>(pattern: Seq<R>) -> spec_fn(int) -> bool {
    |i: int| less(pattern[i], whole(-3))
}

/// The places that stand out between their neighbours and above -50 decibels.
pub open spec fn local_peak<R: Real>(pattern: Seq<R>) -> spec_fn(int) -> bool {
    |i: int|
        less(pattern[i - 1], pattern[i]) && less(pattern[i + 1], pattern[i]) && less(
            whole(-50),
            pattern[i],
        )
}

/// The last place before the beam that lies off it, or the beam itself.
pub open spec fn left_edge_of_beam<R: Real>(pattern: Seq<R>, beam: int) -> int {
    match last_place(off_beam(pattern), 0, beam) {
        Some(i) => i,
        None => beam,
    }
}

/// The first place from the beam on that lies off it, or the beam itself.
pub open spec fn right_edge_of_beam<R: Real>(pattern: Seq<R>, beam: int) -> int {
    match first_place(off_beam(pattern), beam, pattern.len() as int) {
        Some(i) => i,
        None => beam,
    }
}

/// How far beyond the edges of the beam no sidelobe is looked for: nine fifths of the
/// larger half of the beam, which counts as two places at the least.
pub open spec fn guard_width<R: Real>(pattern: Seq<R>, beam: int) -> int {
    let right = right_edge_of_beam(pattern, beam) - beam;
    let left = beam - left_edge_of_beam(pattern, beam);
    let half = if right < left {
        left
    } else {
        right
    };
    (if half < 2 {
        2
    } else {
        half
    }) * 9 / 5
}

/// The range in which the first sidelobe to the right is looked for.
pub open spec fn right_range<R: Real>(pattern: Seq<R>, beam: int) -> (int, int) {
    let n = pattern.len() as int;
    let edge = right_edge_of_beam(pattern, beam) + guard_width(pattern, beam);
    let from = if edge < n - 2 {
        edge + 5
    } else {
        n - 2 + 5
    };
    (
        if from < n - 3 {
            from
        } else {
            n - 3
        },
        n - 3,
    )
}

/// The range in which the first sidelobe to the left is looked for.
pub open spec fn left_range<R: Real>(pattern: Seq<R>, beam: int) -> (int, int) {
    let edge = left_edge_of_beam(pattern, beam) - guard_width(pattern, beam);
    (
        5,
        if edge < 1 {
            1 - 5
        } else {
            edge - 5
        },
    )
}

/// The larger of `best` and the pattern at `place`, if there is a place.
pub open spec fn raised_to<R: Real>(best: R, pattern: Seq<R>, place: Option<int>) -> R {
    match place {
        Some(i) => larger(best, pattern[i]),
        None => best,
    }
}

/// The level of the first sidelobe on either side of the beam, whichever is higher, and
/// -30 where there is none.
pub open spec fn sidelobe<R: Real>(pattern: Seq<R>, beam: int) -> R {
    let (rl, rh) = right_range(pattern, beam);
    let (ll, lh) = left_range(pattern, beam);
    let best = raised_to(
        raised_to(whole(-50), pattern, first_place(local_peak(pattern), rl, rh)),
        pattern,
        last_place(local_peak(pattern), ll, lh),
    );
    if less(whole(-50), best) {
        best
    } else {
        whole(-30)
    }
}

/// Whether the pattern has a local peak at `i`.
fn peaks_at<R: Real>(pattern: &[R], i: usize) -> (r: bool)
    requires
        arithmetic::<R>(),
        1 <= i,
        i + 1 < pattern@.len(),
    ensures
        r == local_peak(pattern@)(i as int),
{
    let here = pattern[i];
    pattern[i - 1] < here && pattern[i + 1] < here && R::from(-50) < here
}

/// The first sidelobe level of a beam cut whose main beam is at `beam_idx`.
pub fn find_sidelobe<R: Real>(pattern: &[R], beam_idx: usize) -> (r: R)
    requires
        arithmetic::<R>(),
        3 <= pattern@.len(),
        4 * pattern@.len() <= usize::MAX,
        beam_idx <= pattern@.len(),
    ensures
        r == sidelobe(pattern@, beam_idx as int),
{
    let n = pattern.len();
    let edge: R = R::from(-3);
    let floor: R = R::from(-50);

    let mut left: usize = beam_idx;
    let mut i: usize = beam_idx;
    while i > 0 && left == beam_idx
        invariant
            arithmetic::<R>(),
            edge == whole::<R>(-3),
            i <= beam_idx <= n,
            n == pattern@.len(),
            left <= beam_idx,
            left != beam_idx ==> left == left_edge_of_beam(pattern@, beam_idx as int),
            left == beam_idx ==> last_place(off_beam(pattern@), 0, beam_idx as int)
                == last_place(off_beam(pattern@), 0, i as int),
        decreases i,
    {
        i = i - 1;
        if pattern[i] < edge {
            left = i;
        }
    }
    assert(left == left_edge_of_beam(pattern@, beam_idx as int));

    let mut right: usize = beam_idx;
    let mut found = false;
    let mut i: usize = beam_idx;
    while i < n && !found
        invariant
            arithmetic::<R>(),
            edge == whole::<R>(-3),
            beam_idx <= i <= n,
            n == pattern@.len(),
            beam_idx <= right <= n,
            !found ==> right == beam_idx,
            found ==> right == right_edge_of_beam(pattern@, beam_idx as int),
            !found ==> first_place(off_beam(pattern@), beam_idx as int, n as int) == first_place(
                off_beam(pattern@),
                i as int,
                n as int,
            ),
        decreases n - i + (if found { 0int } else { 1int }),
    {
        if pattern[i] < edge {
            right = i;
            found = true;
        } else {
            i = i + 1;
        }
    }
    assert(right == right_edge_of_beam(pattern@, beam_idx as int));

    let wider: usize = if right - beam_idx < beam_idx - left {
        beam_idx - left
    } else {
        right - beam_idx
    };
    let half_bw: usize = if wider < 2 {
        2
    } else {
        wider
    };
    let margin: usize = half_bw / 5 * 9 + half_bw % 5 * 9 / 5;
    assert(margin == guard_width(pattern@, beam_idx as int));
    let left_edge: usize = if left <= margin {
        1
    } else {
        left - margin
    };
    let right_edge: usize = if right + margin < n - 2 {
        right + margin
    } else {
        n - 2
    };

    let mut best = floor;
    let from: usize = if right_edge + 5 < n - 3 {
        right_edge + 5
    } else {
        n - 3
    };
    let mut i: usize = from;
    let mut found = false;
    while i < n - 3 && !found
        invariant
            arithmetic::<R>(),
            n == pattern@.len(),
            3 <= n,
            from <= i <= n - 3,
            i < n - 3 ==> 1 <= i,
            !found ==> best == floor && first_place(
                local_peak(pattern@),
                from as int,
                n - 3,
            ) == first_place(local_peak(pattern@), i as int, n - 3),
            found ==> best == raised_to(
                floor,
                pattern@,
                first_place(local_peak(pattern@), from as int, n - 3),
            ),
        decreases n - i + (if found { 0int } else { 1int }),
    {
        if peaks_at(pattern, i) {
            best = max_of(best, pattern[i]);
            found = true;
        } else {
            i = i + 1;
        }
    }

    let ghost sofar = best;
    let until: usize = if left_edge < 5 {
        0
    } else {
        left_edge - 5
    };
    let mut i: usize = until;
    let mut found = false;
    while i > 5 && !found
        invariant
            arithmetic::<R>(),
            n == pattern@.len(),
            i <= until < n,
            !found ==> best == sofar && last_place(
                local_peak(pattern@),
                5,
                until as int,
            ) == last_place(local_peak(pattern@), 5, i as int),
            found ==> best == raised_to(
                sofar,
                pattern@,
                last_place(local_peak(pattern@), 5, until as int),
            ),
        decreases i,
    {
        i = i - 1;
        if peaks_at(pattern, i) {
            best = max_of(best, pattern[i]);
            found = true;
        }
    }

    if floor < best {
        best
    } else {
        R::from(-30)
    }
}

// ---- what holds of every sidelobe -------------------------------------------

/// The first place is wanted, and none before it.
pub proof fn first_place_is_wanted(wanted: spec_fn(int) -> bool, low: int, high: int)
    ensures
        first_place(wanted, low, high) matches Some(i) ==> low <= i < high && wanted(i) && forall|
            k: int,
        |
            low <= k < i ==> !#[trigger] wanted(k),
        first_place(wanted, low, high) is None ==> forall|k: int|
            low <= k < high ==> !#[trigger] wanted(k),
    decreases high - low,
{
    if low < high && !wanted(low) {
        first_place_is_wanted(wanted, low + 1, high);
    }
}

/// The last place is wanted, and none behind it.
pub proof fn last_place_is_wanted(wanted: spec_fn(int) -> bool, low: int, high: int)
    ensures
        last_place(wanted, low, high) matches Some(i) ==> low <= i < high && wanted(i) && forall|
            k: int,
        |
            i < k < high ==> !#[trigger] wanted(k),
        last_place(wanted, low, high) is None ==> forall|k: int|
            low <= k < high ==> !#[trigger] wanted(k),
    decreases high - low,
{
    if low < high && !wanted(high - 1) {
        last_place_is_wanted(wanted, low, high - 1);
    }
}

/// The sidelobe level is that of a local peak off the beam and above -50 decibels, and -30
/// where neither side has such a peak.
pub proof fn sidelobe_is_a_peak<R: Real>(pattern: Seq<R>, beam: int)
    requires
        ordering::<R>(),
    ensures
        ({
            let (rl, rh) = right_range(pattern, beam);
            let (ll, lh) = left_range(pattern, beam);
            let level = sidelobe(pattern, beam);
            if exists|i: int|
                (rl <= i < rh || ll <= i < lh) && #[trigger] local_peak(pattern)(i) {
                exists|i: int|
                    (rl <= i < rh || ll <= i < lh) && #[trigger] local_peak(pattern)(i)
                        && pattern[i] == level
            } else {
                level == whole::<R>(-30)
            }
        }),
{
    let (rl, rh) = right_range(pattern, beam);
    let (ll, lh) = left_range(pattern, beam);
    let peaks = local_peak(pattern);
    first_place_is_wanted(peaks, rl, rh);
    last_place_is_wanted(peaks, ll, lh);
}

/// Before its weights are tapered, every element of a steered array contributes one in the
/// direction of the beam, where nothing is rounded and sine and cosine lie on the unit
/// circle.
pub proof fn steered_elements_add_up<R: Real, M: Fn(Elementary<R>) -> R>(
    math: M,
    x: Seq<R>,
    y: Seq<R>,
    theta_deg: R,
    phi_deg: R,
    i: int,
)
    requires
        field::<R>(),
        forall|t: R| #[trigger] on_circle(math, t),
        0 <= i < x.len(),
    ensures
        ({
            let (u, v) = direction_cosines(
                math,
                value(math, Elementary::ToRadians(theta_deg)),
                value(math, Elementary::ToRadians(phi_deg)),
            );
            contributions(
                math,
                x,
                y,
                steering_weights(math, x, y, theta_deg, phi_deg),
                u,
                v,
            )(i) == whole::<Complex<R>>(1)
        }),
{
    let (u, v) = direction_cosines(
        math,
        value(math, Elementary::ToRadians(theta_deg)),
        value(math, Elementary::ToRadians(phi_deg)),
    );
    let phase = path_phase(math, x[i], y[i], u, v);
    let (c, s) = (value(math, Elementary::Cos(phase)), value(math, Elementary::Sin(phase)));
    assert(on_circle(math, phase));
    opposite_of_product(s, s);
    minus_adds_opposite(times(c, c), times(negated(s), s));
    opposite_twice(times(s, s));
    opposite_of_product(s, c);
    times_commutes(s, c);
    opposites_cancel(times(c, s));
}

/// A window that is scaled to its peak reaches one, where a value over itself is one.
pub proof fn scaled_window_reaches_one<R: Real>(values: Seq<R>)
    requires
        ordering::<R>(),
        in_line(values),
        0 < values.len(),
        forall|i: int|
            0 <= i < values.len() ==> #[trigger] over(values[i], values[i]) == whole::<R>(1),
    ensures
        exists|i: int|
            0 <= i < values.len() && #[trigger] scaled_to_peak(values)[i] == whole::<R>(1),
{
    peak_is_the_largest(values);
    let k = choose|i: int| 0 <= i < values.len() && #[trigger] values[i] == peak(values)->Some_0;
    assert(over(values[k], values[k]) == whole::<R>(1));
    assert(scaled_to_peak(values)[k] == whole::<R>(1));
}

/// Each taper goes by its own name, in lower case.
pub proof fn tapers_go_by_their_names()
    ensures
        TaperType::Uniform.id() == "uniform"@,
        TaperType::Taylor.id() == "taylor"@,
        TaperType::Hamming.id() == "hamming"@,
        TaperType::Hanning.id() == "hanning"@,
        forall|a: TaperType, b: TaperType| #[trigger] a.id() == #[trigger] b.id() ==> a == b,
{
    reveal_strlit("uniform");
    reveal_strlit("taylor");
    reveal_strlit("hamming");
    reveal_strlit("hanning");
    assert("uniform"@[0] == 'u' && "taylor"@[0] == 't');
    assert("hamming"@[2] == 'm' && "hanning"@[2] == 'n' && "hamming"@[0] == 'h');
    assert("hanning"@[0] == 'h');
}

} // verus!
