//! What the simulator answers: whole patterns of ideal and of impaired arrays, directions of
//! arrival, adaptive weights and beam squint.
use vstd::prelude::*;
use vstd::arithmetic::power2::pow2;
use core::ops::Neg;
use crate::array::{
    full_turn, generate_positions, positions, positions_pair_up, ArrayConfig, ArrayGeometry,
};
use crate::beamforming::{
    apply_taper, contributions, cut_levels, direction_cosines, find_sidelobe, path_phase,
    pattern_levels, sidelobe, steered_elements_add_up, steering_vector, steering_weights,
    taper_covers_the_array, taper_weights, BeamConfig,
};
use crate::complex::{complex_operators, modulus, phasor, power, scaled, Complex};
use crate::exact::{
    complex_field, field, on_axis, on_circle, powers_tell, scaling_is_product, times_one,
    times_regroups,
};
use crate::gpu::cuda_ffi::DriverError;
use crate::gpu::job::{is_array_factor, is_beam_cut, DeviceJob};
use crate::gpu::{
    angle_levels, compute_array_factor, compute_beam_cut, direction_levels, dispatched, paired,
    serves,
};
use crate::levels::{normalize, normalized};
use crate::linalg::{along, apply, image, image_terms};
use crate::parallel::collectable;
use crate::physics::{
    apply_element_pattern, beam_squint_analysis, coupling_entries, element_level, failures,
    mutual_coupling_matrix, phase_levels, quantize_phase, quantized_weights, rms_error_deg,
    simulate_failures, squinted, weights_after, FailureType,
};
use crate::random::word_stream;
use crate::scalar::{
    answer, answers, arithmetic, count, counted, equal_terms, evaluates, fraction, less, minus,
    negated, over, plus, ratio, times, value, whole, Elementary, Real,
};
use crate::super_res::{
    capon, esprit_result, esprit_ula, generate_snapshots, line, line_positions, music_result,
    music_ula, mvdr_weights, received,
};
use crate::table::{cell_is_inside, place_has_cell, vector_of, Matrix};

verus! {

/// The resolution that is meant where nothing else is said.
pub fn default_resolution() -> (r: usize)
    ensures
        r == 91,
{
    91
}

/// The name of what computes the patterns.
pub fn backend_name(cuda: bool) -> (r: &'static str)
    ensures
        r@ == if cuda {
            "cuda"@
        } else {
            "cpu_rayon"@
        },
{
    if cuda {
        "cuda"
    } else {
        "cpu_rayon"
    }
}

// ---- weights ----------------------------------------------------------------

/// The weights of an array: its steering weights, each scaled by its taper.
pub open spec fn beam_weights<R: Real, M: Fn(Elementary<R>) -> R, T: Fn(R) -> usize>(
    array: ArrayConfig<R>,
    beam: BeamConfig<R>,
    math: M,
    truncate: T,
) -> Seq<Complex<R>> {
    let (x, y) = positions(array, math, truncate);
    let taper = taper_weights(
        math,
        x,
        y,
        array.nx as nat,
        array.ny as nat,
        beam.taper,
        beam.sidelobe_db,
        array.geometry.id(),
    );
    let steer = steering_weights(math, x, y, beam.theta_deg, beam.phi_deg);
    Seq::new(x.len(), |i: int| scaled(steer[i], taper[i]))
}

/// The weights of an array whose elements stand at `x` and `y`.
fn weigh<R: Real, M: Fn(Elementary<R>) -> R, T: Fn(R) -> usize>(
    x: &[R],
    y: &[R],
    array: &ArrayConfig<R>,
    beam: &BeamConfig<R>,
    math: &M,
    truncate: &T,
) -> (w: Vec<Complex<R>>)
    requires
        arithmetic::<R>(),
        evaluates(*math),
        (x@, y@) == positions(*array, *math, *truncate),
        array.geometry != ArrayGeometry::Circular ==> array.nx * array.ny <= usize::MAX,
    ensures
        w@ == beam_weights(*array, *beam, *math, *truncate),
{
    proof {
        positions_pair_up(*array, *math, *truncate);
        names_differ();
        taper_covers_the_array(
            *math,
            x@,
            y@,
            array.nx as nat,
            array.ny as nat,
            beam.taper,
            beam.sidelobe_db,
            array.geometry.id(),
        );
    }
    let taper = apply_taper(
        x,
        y,
        array.nx,
        array.ny,
        &beam.taper,
        beam.sidelobe_db,
        array.geometry.name(),
        math,
    );
    let steer = steering_vector(x, y, beam.theta_deg, beam.phi_deg, math);
    vector_of(
        x.len(),
        |i: usize| -> (z: Complex<R>)
            requires
                i < x@.len(),
            ensures
                z == beam_weights(*array, *beam, *math, *truncate)[i as int],
            { steer[i].scale(taper[i]) })
}

/// Only the rectangular geometry is named so.
proof fn names_differ()
    ensures
        forall|g: ArrayGeometry| #[trigger] g.id() == "rectangular"@ ==> g
            == ArrayGeometry::Rectangular,
{
    reveal_strlit("rectangular");
    reveal_strlit("circular");
    reveal_strlit("triangular");
    assert("triangular"@[0] != "rectangular"@[0]);
}

// ---- angles -----------------------------------------------------------------

/// `n` equal steps over half a turn.
pub open spec fn theta_grid<R: Real, M: Fn(Elementary<R>) -> R>(math: M, n: nat) -> Seq<R> {
    Seq::new(n, |i: int| over(times(value(math, Elementary::Pi), count(i)), count(n - 1)))
}

/// `n` equal steps over a full turn.
pub open spec fn phi_grid<R: Real, M: Fn(Elementary<R>) -> R>(math: M, n: nat) -> Seq<R> {
    Seq::new(n, |i: int| over(times(full_turn(math), count(i)), count(n - 1)))
}

/// The whole degrees from one horizon to the other.
pub open spec fn cut_angles<R: Real>() -> Seq<R> {
    Seq::new(181, |i: int| whole(i - 90))
}

/// The sines of the angles.
pub open spec fn sines<R: Real, M: Fn(Elementary<R>) -> R>(math: M, angles: Seq<R>) -> Seq<R> {
    Seq::new(angles.len(), |i: int| value(math, Elementary::Sin(angles[i])))
}

/// The cosines of the angles.
pub open spec fn cosines<R: Real, M: Fn(Elementary<R>) -> R>(math: M, angles: Seq<R>) -> Seq<R> {
    Seq::new(angles.len(), |i: int| value(math, Elementary::Cos(angles[i])))
}

/// The angles in degrees.
pub open spec fn degrees<R: Real, M: Fn(Elementary<R>) -> R>(math: M, angles: Seq<R>) -> Seq<R> {
    Seq::new(angles.len(), |i: int| value(math, Elementary::ToDegrees(angles[i])))
}

/// The sines of the angles.
fn sines_of<R: Real, M: Fn(Elementary<R>) -> R>(angles: &[R], math: &M) -> (r: Vec<R>)
    requires
        evaluates(*math),
    ensures
        r@ == sines(*math, angles@),
{
    vector_of(
        angles.len(),
        |i: usize| -> (v: R)
            requires
                i < angles@.len(),
            ensures
                v == sines(*math, angles@)[i as int],
            { math(Elementary::Sin(angles[i])) })
}

/// The cosines of the angles.
fn cosines_of<R: Real, M: Fn(Elementary<R>) -> R>(angles: &[R], math: &M) -> (r: Vec<R>)
    requires
        evaluates(*math),
    ensures
        r@ == cosines(*math, angles@),
{
    vector_of(
        angles.len(),
        |i: usize| -> (v: R)
            requires
                i < angles@.len(),
            ensures
                v == cosines(*math, angles@)[i as int],
            { math(Elementary::Cos(angles[i])) })
}

/// The angles in degrees.
fn degrees_of<R: Real, M: Fn(Elementary<R>) -> R>(angles: &[R], math: &M) -> (r: Vec<R>)
    requires
        evaluates(*math),
    ensures
        r@ == degrees(*math, angles@),
{
    vector_of(
        angles.len(),
        |i: usize| -> (v: R)
            requires
                i < angles@.len(),
            ensures
                v == degrees(*math, angles@)[i as int],
            { math(Elementary::ToDegrees(angles[i])) })
}

/// `n` equal steps over half a turn.
fn thetas<R: Real, M: Fn(Elementary<R>) -> R>(n: usize, math: &M) -> (r: Vec<R>)
    requires
        arithmetic::<R>(),
        evaluates(*math),
    ensures
        r@ == theta_grid(*math, n as nat),
{
    vector_of(
        n,
        |i: usize| -> (v: R)
            requires
                i < n,
            ensures
                v == theta_grid(*math, n as nat)[i as int],
            { math(Elementary::Pi) * counted(i as u64) / counted((n - 1) as u64) })
}

/// `n` equal steps over a full turn.
fn phis<R: Real, M: Fn(Elementary<R>) -> R>(n: usize, math: &M) -> (r: Vec<R>)
    requires
        arithmetic::<R>(),
        evaluates(*math),
    ensures
        r@ == phi_grid(*math, n as nat),
{
    vector_of(
        n,
        |i: usize| -> (v: R)
            requires
                i < n,
            ensures
                v == phi_grid(*math, n as nat)[i as int],
            {
                R::from(2) * math(Elementary::Pi) * counted(i as u64) / counted((n - 1) as u64)
            })
}

/// The whole degrees from one horizon to the other.
fn cut_thetas<R: Real>() -> (r: Vec<R>)
    requires
        arithmetic::<R>(),
    ensures
        r@ == cut_angles::<R>(),
{
    vector_of(
        181,
        |i: usize| -> (v: R)
            requires
                i < 181,
            ensures
                v == cut_angles::<R>()[i as int],
            { R::from(i as i32 - 90) })
}

// ---- the response of an array -----------------------------------------------

/// The real parts.
pub open spec fn real_parts<R: Real>(w: Seq<Complex<R>>) -> Seq<R> {
    Seq::new(w.len(), |i: int| w[i].re)
}

/// The imaginary parts.
pub open spec fn imaginary_parts<R: Real>(w: Seq<Complex<R>>) -> Seq<R> {
    Seq::new(w.len(), |i: int| w[i].im)
}

/// `flat` holds the levels of the response over all directions of the two grids of `n`
/// angles each, and `cut` those along the cut at `phi_deg`; either comes from the device
/// or from the host.
pub open spec fn measured<
    R: Real,
    M: Fn(Elementary<R>) -> R,
    D,
    G: Fn(&D, DeviceJob<R>) -> Result<Vec<R>, DriverError>,
>(
    x: Seq<R>,
    y: Seq<R>,
    w: Seq<Complex<R>>,
    n: nat,
    phi_deg: R,
    math: M,
    driver: Option<D>,
    device: G,
    flat: Seq<R>,
    cut: Seq<R>,
) -> bool {
    let sin_theta = sines(math, theta_grid(math, n));
    let cos_phi = cosines(math, phi_grid(math, n));
    let sin_phi = sines(math, phi_grid(math, n));
    let re = real_parts(w);
    let im = imaginary_parts(w);
    &&& dispatched(
        driver,
        device,
        |job: DeviceJob<R>| is_array_factor(job, x, y, re, im, sin_theta, cos_phi, sin_phi),
        direction_levels(math, x, y, w, sin_theta, cos_phi, sin_phi),
        flat,
    )
    &&& dispatched(
        driver,
        device,
        |job: DeviceJob<R>| is_beam_cut(job, math, x, y, re, im, cut_angles(), phi_deg),
        angle_levels(math, x, y, w, cut_angles(), phi_deg),
        cut,
    )
}

/// Measures the response over `n` thetas and `n` phis, and along the cut at `phi_deg`.
fn survey<
    R: Real,
    M: Fn(Elementary<R>) -> R + Sync,
    D,
    G: Fn(&D, DeviceJob<R>) -> Result<Vec<R>, DriverError>,
>(
    x: &[R],
    y: &[R],
    w: &[Complex<R>],
    n: usize,
    phi_deg: R,
    math: &M,
    driver: &Option<D>,
    device: &G,
) -> (r: (Vec<R>, Vec<R>))
    requires
        arithmetic::<R>(),
        evaluates(*math),
        serves(*driver, *device),
        x@.len() == y@.len(),
        x@.len() == w@.len(),
        1 <= n,
        n * n <= usize::MAX,
        collectable::<R>((n * n) as nat),
        collectable::<R>(181),
        driver is Some ==> ((n * n) as usize) as u32 + 255 <= u32::MAX,
    ensures
        r.0@.len() == n * n,
        r.1@.len() == 181,
        measured(
            x@,
            y@,
            w@,
            n as nat,
            phi_deg,
            *math,
            *driver,
            *device,
            r.0@,
            r.1@,
        ),
{
    let theta = thetas(n, math);
    let phi = phis(n, math);
    let cut_theta = cut_thetas();
    let sin_theta = sines_of(theta.as_slice(), math);
    let cos_phi = cosines_of(phi.as_slice(), math);
    let sin_phi = sines_of(phi.as_slice(), math);
    let w_real = vector_of(
        w.len(),
        |i: usize| -> (v: R)
            requires
                i < w@.len(),
            ensures
                v == w@[i as int].re,
            { w[i].re });
    let w_imag = vector_of(
        w.len(),
        |i: usize| -> (v: R)
            requires
                i < w@.len(),
            ensures
                v == w@[i as int].im,
            { w[i].im });
    assert(w_real@ =~= real_parts(w@));
    assert(w_imag@ =~= imaginary_parts(w@));
    assert(paired(w_real@, w_imag@) =~= w@);
    let flat = compute_array_factor(
        x,
        y,
        w_real.as_slice(),
        w_imag.as_slice(),
        sin_theta.as_slice(),
        cos_phi.as_slice(),
        sin_phi.as_slice(),
        math,
        driver,
        device,
    );
    let cut = compute_beam_cut(
        x,
        y,
        w_real.as_slice(),
        w_imag.as_slice(),
        cut_theta.as_slice(),
        phi_deg,
        math,
        driver,
        device,
    );
    (flat, cut)
}

// ---- patterns ---------------------------------------------------------------

/// The pattern of an array: the number of its elements, the level of the first sidelobe, the
/// estimated beamwidth, the levels below the maximum over all directions, and those along
/// the cut through the beam.
pub struct PatternReport<R> {
    pub n_elements: usize,
    pub first_sidelobe_db: R,
    pub estimated_beamwidth_deg: R,
    pub theta_deg: Vec<R>,
    pub phi_deg: Vec<R>,
    pub pattern_db: Vec<Vec<R>>,
    pub cut_theta_deg: Vec<R>,
    pub cut_pattern_db: Vec<R>,
}

/// The place of the beam in the cut.
pub open spec fn beam_place<R: Real, T: Fn(R) -> usize>(beam: BeamConfig<R>, truncate: T) -> usize {
    answer(truncate, plus(beam.theta_deg, whole(90)))
}

/// The estimated beamwidth in degrees.
pub open spec fn beamwidth<R: Real>(array: ArrayConfig<R>) -> R {
    over(whole(51), times(count(array.nx as int), array.dx))
}

/// Row `i` of a table of `n` columns that is read row by row.
pub open spec fn row<R>(flat: Seq<R>, n: nat, i: int) -> Seq<R> {
    Seq::new(n, |j: int| flat[i * n + j])
}

/// The report describes `n_elements` elements, a square grid of `n` angles and the levels
/// `cut` along the cut.
pub open spec fn describes<R: Real, M: Fn(Elementary<R>) -> R, T: Fn(R) -> usize>(
    report: PatternReport<R>,
    array: ArrayConfig<R>,
    beam: BeamConfig<R>,
    n_elements: nat,
    n: nat,
    cut: Seq<R>,
    math: M,
    truncate: T,
) -> bool {
    &&& report.n_elements == n_elements
    &&& report.first_sidelobe_db == sidelobe(
        normalized(cut),
        beam_place(beam, truncate) as int,
    )
    &&& report.estimated_beamwidth_deg == beamwidth(array)
    &&& report.theta_deg@ == degrees(math, theta_grid(math, n))
    &&& report.phi_deg@ == degrees(math, phi_grid(math, n))
    &&& report.cut_theta_deg@ == cut_angles::<R>()
    &&& report.cut_pattern_db@ == normalized(cut)
}

/// The report describes the response of an array with the weights `w`, whose levels are
/// `flat` over all directions and `cut` along the cut.
pub open spec fn reports<
    R: Real,
    M: Fn(Elementary<R>) -> R,
    T: Fn(R) -> usize,
    D,
    G: Fn(&D, DeviceJob<R>) -> Result<Vec<R>, DriverError>,
>(
    report: PatternReport<R>,
    array: ArrayConfig<R>,
    beam: BeamConfig<R>,
    resolution: usize,
    w: Seq<Complex<R>>,
    math: M,
    truncate: T,
    driver: Option<D>,
    device: G,
    flat: Seq<R>,
    cut: Seq<R>,
) -> bool {
    let (x, y) = positions(array, math, truncate);
    let n = (2 * resolution) as nat;
    &&& measured(x, y, w, n, beam.phi_deg, math, driver, device, flat, cut)
    &&& describes(report, array, beam, x.len(), n, cut, math, truncate)
}

/// The rows of the pattern are those of `flat` below its maximum.
pub open spec fn tabulates<R: Real>(rows: Seq<Vec<R>>, flat: Seq<R>, n: nat) -> bool {
    &&& rows.len() == n
    &&& forall|i: int| 0 <= i < n ==> (#[trigger] rows[i])@ == row(normalized(flat), n, i)
}

/// What a report needs: the machine can hold the pattern, and the beam lies in the cut.
pub open spec fn reportable<R: Real, M: Fn(Elementary<R>) -> R, T: Fn(R) -> usize>(
    array: ArrayConfig<R>,
    beam: BeamConfig<R>,
    resolution: usize,
    math: M,
    truncate: T,
) -> bool {
    &&& arithmetic::<R>()
    &&& evaluates(math)
    &&& answers::<R, usize, T>(truncate)
    &&& array.geometry != ArrayGeometry::Circular ==> array.nx * array.ny <= usize::MAX
    &&& 1 <= resolution
    &&& (2 * resolution) * (2 * resolution) <= usize::MAX
    &&& collectable::<R>(((2 * resolution) * (2 * resolution)) as nat)
    &&& collectable::<R>(181)
    &&& beam_place(beam, truncate) <= 181
}

/// The rows of a square table that is read row by row, below its maximum.
fn rows_below_peak<R: Real>(flat: &[R], n: usize) -> (r: Vec<Vec<R>>)
    requires
        arithmetic::<R>(),
        flat@.len() == n * n,
    ensures
        tabulates(r@, flat@, n as nat),
{
    let levels = normalize(flat);
    assert(n * n <= flat.len());
    let mut r: Vec<Vec<R>> = Vec::new();
    for i in 0..n
        invariant
            n * n <= usize::MAX,
            levels@.len() == n * n,
            levels@ == normalized(flat@),
            r@.len() == i,
            forall|k: int| 0 <= k < i ==> (#[trigger] r@[k])@ == row(levels@, n as nat, k),
    {
        let line = vector_of(
            n,
            |j: usize| -> (v: R)
                requires
                    j < n,
                ensures
                    v == levels@[i * n + j],
                {
                    proof {
                        cell_is_inside(i as int, j as int, n as int, n as int);
                    }
                    levels[i * n + j]
                });
        assert(line@ =~= row(levels@, n as nat, i as int));
        r.push(line);
    }
    r
}

/// The report on the levels `flat` over all directions of a square grid of `n` angles and
/// `cut` along the cut.
pub fn report_on<R: Real, M: Fn(Elementary<R>) -> R, T: Fn(R) -> usize>(
    array: &ArrayConfig<R>,
    beam: &BeamConfig<R>,
    n_elements: usize,
    n: usize,
    flat: &[R],
    cut: &[R],
    math: &M,
    truncate: &T,
) -> (r: PatternReport<R>)
    requires
        arithmetic::<R>(),
        evaluates(*math),
        answers::<R, usize, T>(*truncate),
        flat@.len() == n * n,
        cut@.len() == 181,
        beam_place(*beam, *truncate) <= 181,
    ensures
        describes(r, *array, *beam, n_elements as nat, n as nat, cut@, *math, *truncate),
        tabulates(r.pattern_db@, flat@, n as nat),
{
    let cut_pattern_db = normalize(cut);
    let beam_idx = truncate(beam.theta_deg + R::from(90));
    PatternReport {
        n_elements,
        first_sidelobe_db: find_sidelobe(cut_pattern_db.as_slice(), beam_idx),
        estimated_beamwidth_deg: R::from(51) / (counted::<R>(array.nx as u64) * array.dx),
        theta_deg: degrees_of(thetas(n, math).as_slice(), math),
        phi_deg: degrees_of(phis(n, math).as_slice(), math),
        pattern_db: rows_below_peak(flat, n),
        cut_theta_deg: cut_thetas(),
        cut_pattern_db,
    }
}

/// The pattern of an array over twice `resolution` thetas and phis.
pub fn compute_pattern<
    R: Real,
    M: Fn(Elementary<R>) -> R + Sync,
    T: Fn(R) -> usize,
    D,
    G: Fn(&D, DeviceJob<R>) -> Result<Vec<R>, DriverError>,
>(
    array: &ArrayConfig<R>,
    beam: &BeamConfig<R>,
    resolution: usize,
    math: &M,
    truncate: &T,
    driver: &Option<D>,
    device: &G,
) -> (r: PatternReport<R>)
    requires
        reportable(*array, *beam, resolution, *math, *truncate),
        serves(*driver, *device),
        driver is Some ==> (((2 * resolution) * (2 * resolution)) as usize) as u32 + 255
            <= u32::MAX,
    ensures
        exists|flat: Seq<R>, cut: Seq<R>|
            {
                &&& #[trigger] reports(
                    r,
                    *array,
                    *beam,
                    resolution,
                    beam_weights(*array, *beam, *math, *truncate),
                    *math,
                    *truncate,
                    *driver,
                    *device,
                    flat,
                    cut,
                )
                &&& tabulates(r.pattern_db@, flat, (2 * resolution) as nat)
            },
{
    let (x, y) = generate_positions(array, math, truncate);
    proof {
        positions_pair_up(*array, *math, *truncate);
        square_has_room(resolution as int);
    }
    let w = weigh(x.as_slice(), y.as_slice(), array, beam, math, truncate);
    let n = resolution * 2;
    let (flat, cut) = survey(
        x.as_slice(),
        y.as_slice(),
        w.as_slice(),
        n,
        beam.phi_deg,
        math,
        driver,
        device,
    );
    let r = report_on(
        array,
        beam,
        x.len(),
        n,
        flat.as_slice(),
        cut.as_slice(),
        math,
        truncate,
    );
    assert(reports(
        r,
        *array,
        *beam,
        resolution,
        w@,
        *math,
        *truncate,
        *driver,
        *device,
        flat@,
        cut@,
    ));
    r
}

// ---- impairments ------------------------------------------------------------

/// The seed of every simulation.
pub const SEED: u64 = 42;

/// What is wrong with an array. None of it applies where it is not positive.
#[derive(Clone, Copy, Debug)]
pub struct Impairments<R> {
    /// The exponent of the element pattern.
    pub element_q: R,
    /// How strongly neighbouring elements couple.
    pub coupling_strength: R,
    /// The number of bits of the phase shifters.
    pub phase_bits: u32,
    /// The share of the elements that fail.
    pub failure_rate: R,
}

/// What phase quantization did.
#[derive(Clone, Copy, Debug)]
pub struct Quantization<R> {
    pub bits: u32,
    pub levels: u32,
    pub rms_error_deg: R,
}

/// What failures did.
#[derive(Clone, Copy, Debug)]
pub struct Failures<R> {
    pub rate: R,
    pub n_failed: usize,
}

/// The impairments that applied to an array.
#[derive(Clone, Copy, Debug)]
pub struct ImpairmentReport<R> {
    pub phase_quantization: Option<Quantization<R>>,
    pub mutual_coupling: Option<R>,
    pub element_failures: Option<Failures<R>>,
    pub element_pattern: Option<R>,
}

/// The weights as they couple to each other, with a decay over two elements.
pub open spec fn coupled<R: Real, M: Fn(Elementary<R>) -> R>(
    math: M,
    strength: R,
    w: Seq<Complex<R>>,
) -> Seq<Complex<R>> {
    if less(whole(0), strength) {
        Seq::new(
            w.len(),
            |i: int| image(coupling_entries(math, strength, whole(2)), along(w), w.len())(i),
        )
    } else {
        w
    }
}

/// The weights with the failed elements open.
pub open spec fn opened<R: Real, M: Fn(Elementary<R>) -> R>(
    math: M,
    rate: R,
    w: Seq<Complex<R>>,
) -> Seq<Complex<R>> {
    if less(whole(0), rate) {
        weights_after(math, word_stream(SEED, 2 * w.len()), rate, FailureType::Open, w)
    } else {
        w
    }
}

/// The weights of an impaired array: quantized, then coupled, then with failures.
pub open spec fn impaired<R: Real, M: Fn(Elementary<R>) -> R>(
    math: M,
    imp: Impairments<R>,
    w: Seq<Complex<R>>,
) -> Seq<Complex<R>> {
    opened(
        math,
        imp.failure_rate,
        coupled(math, imp.coupling_strength, quantized_weights(math, imp.phase_bits as nat, w)),
    )
}

/// The impairments that apply to an array with the weights `w`.
pub open spec fn applied<R: Real, M: Fn(Elementary<R>) -> R>(
    math: M,
    imp: Impairments<R>,
    w: Seq<Complex<R>>,
) -> ImpairmentReport<R> {
    ImpairmentReport {
        phase_quantization: if imp.phase_bits > 0 {
            Some(
                Quantization {
                    bits: imp.phase_bits,
                    levels: pow2(imp.phase_bits as nat) as u32,
                    rms_error_deg: rms_error_deg(math, imp.phase_bits as nat, w),
                },
            )
        } else {
            None
        },
        mutual_coupling: if less(whole(0), imp.coupling_strength) {
            Some(imp.coupling_strength)
        } else {
            None
        },
        element_failures: if less(whole(0), imp.failure_rate) {
            Some(
                Failures {
                    rate: imp.failure_rate,
                    n_failed: failures(
                        word_stream(SEED, 2 * w.len()),
                        imp.failure_rate,
                        FailureType::Open,
                        w.len(),
                    ) as usize,
                },
            )
        } else {
            None
        },
        element_pattern: if less(whole(0), imp.element_q) {
            Some(imp.element_q)
        } else {
            None
        },
    }
}

/// Impairs the weights of an array, and reports the impairments that apply.
pub fn impair<R: Real, M: Fn(Elementary<R>) -> R>(
    weights: &mut Vec<Complex<R>>,
    imp: &Impairments<R>,
    math: &M,
) -> (r: ImpairmentReport<R>)
    requires
        arithmetic::<R>(),
        evaluates(*math),
        imp.phase_bits < 32,
        less(whole(0), imp.failure_rate) ==> 16 * old(weights)@.len() <= isize::MAX,
    ensures
        final(weights)@ == impaired(*math, *imp, old(weights)@),
        r == applied(*math, *imp, old(weights)@),
{
    let ghost w = weights@;
    let phase_quantization = if imp.phase_bits > 0 {
        let rms_error_deg = quantize_phase(weights, imp.phase_bits, math);
        let levels = phase_levels(imp.phase_bits);
        Some(Quantization { bits: imp.phase_bits, levels, rms_error_deg })
    } else {
        None
    };
    let ghost q = quantized_weights(*math, imp.phase_bits as nat, w);
    let mutual_coupling = if R::from(0) < imp.coupling_strength {
        let n = weights.len();
        let c = mutual_coupling_matrix(n, imp.coupling_strength, R::from(2), math);
        let ghost entries = coupling_entries(*math, imp.coupling_strength, whole(2));
        proof {
            complex_operators::<R>();
            assert forall|i: int| 0 <= i < n implies #[trigger] image(
                c.entry(),
                along(q),
                n as nat,
            )(i) == image(entries, along(q), n as nat)(i) by {
                equal_terms(
                    whole(0),
                    image_terms(c.entry(), along(q), i),
                    image_terms(entries, along(q), i),
                    n as nat,
                );
            }
        }
        *weights = apply(&c, weights.as_slice());
        Some(imp.coupling_strength)
    } else {
        None
    };
    assert(weights@ =~= coupled(*math, imp.coupling_strength, q));
    let element_failures = if R::from(0) < imp.failure_rate {
        let n_failed = simulate_failures(weights, imp.failure_rate, "open", SEED, math);
        Some(Failures { rate: imp.failure_rate, n_failed })
    } else {
        None
    };
    let element_pattern = if R::from(0) < imp.element_q {
        Some(imp.element_q)
    } else {
        None
    };
    ImpairmentReport { phase_quantization, mutual_coupling, element_failures, element_pattern }
}

/// Row `i` of a square table, raised by the element pattern where there is one.
pub open spec fn shaped_row<R: Real, M: Fn(Elementary<R>) -> R>(
    levels: Seq<R>,
    n: nat,
    math: M,
    q: R,
    i: int,
) -> Seq<R> {
    if less(whole(0), q) {
        let gain = element_level(math, theta_grid(math, n)[i], q);
        Seq::new(n, |j: int| plus(row(levels, n, i)[j], gain))
    } else {
        row(levels, n, i)
    }
}

/// The rows of the pattern are those of `flat` below its maximum, raised by the element
/// pattern where there is one.
pub open spec fn shapes<R: Real, M: Fn(Elementary<R>) -> R>(
    rows: Seq<Vec<R>>,
    flat: Seq<R>,
    n: nat,
    math: M,
    q: R,
) -> bool {
    &&& rows.len() == n
    &&& forall|i: int|
        0 <= i < n ==> (#[trigger] rows[i])@ == shaped_row(normalized(flat), n, math, q, i)
}

/// The pattern of an impaired array over twice `resolution` thetas and phis, and the
/// impairments that apply.
pub fn pattern_realistic<
    R: Real,
    M: Fn(Elementary<R>) -> R + Sync,
    T: Fn(R) -> usize,
    D,
    G: Fn(&D, DeviceJob<R>) -> Result<Vec<R>, DriverError>,
>(
    array: &ArrayConfig<R>,
    beam: &BeamConfig<R>,
    resolution: usize,
    imp: &Impairments<R>,
    math: &M,
    truncate: &T,
    driver: &Option<D>,
    device: &G,
) -> (r: (PatternReport<R>, ImpairmentReport<R>))
    requires
        reportable(*array, *beam, resolution, *math, *truncate),
        serves(*driver, *device),
        driver is Some ==> (((2 * resolution) * (2 * resolution)) as usize) as u32 + 255
            <= u32::MAX,
        imp.phase_bits < 32,
        less(whole(0), imp.failure_rate) ==> 16 * positions(*array, *math, *truncate).0.len()
            <= isize::MAX,
    ensures
        exists|flat: Seq<R>, cut: Seq<R>|
            {
                &&& #[trigger] reports(
                    r.0,
                    *array,
                    *beam,
                    resolution,
                    impaired(*math, *imp, beam_weights(*array, *beam, *math, *truncate)),
                    *math,
                    *truncate,
                    *driver,
                    *device,
                    flat,
                    cut,
                )
                &&& shapes(
                    r.0.pattern_db@,
                    flat,
                    (2 * resolution) as nat,
                    *math,
                    imp.element_q,
                )
            },
        r.1 == applied(*math, *imp, beam_weights(*array, *beam, *math, *truncate)),
{
    let (x, y) = generate_positions(array, math, truncate);
    proof {
        positions_pair_up(*array, *math, *truncate);
        square_has_room(resolution as int);
    }
    let mut w = weigh(x.as_slice(), y.as_slice(), array, beam, math, truncate);
    let impairments = impair(&mut w, imp, math);
    let n = resolution * 2;
    let (flat, cut) = survey(
        x.as_slice(),
        y.as_slice(),
        w.as_slice(),
        n,
        beam.phi_deg,
        math,
        driver,
        device,
    );
    let mut r = report_on(
        array,
        beam,
        x.len(),
        n,
        flat.as_slice(),
        cut.as_slice(),
        math,
        truncate,
    );
    if R::from(0) < imp.element_q {
        let theta = thetas(n, math);
        let phi = phis(n, math);
        apply_element_pattern(
            &mut r.pattern_db,
            theta.as_slice(),
            phi.as_slice(),
            imp.element_q,
            math,
        );
    }
    assert forall|i: int| 0 <= i < n implies (#[trigger] r.pattern_db@[i])@ == shaped_row(
        normalized(flat@),
        n as nat,
        *math,
        imp.element_q,
        i,
    ) by {
        assert(r.pattern_db@[i]@ =~= shaped_row(
            normalized(flat@),
            n as nat,
            *math,
            imp.element_q,
            i,
        ));
    }
    assert(shapes(r.pattern_db@, flat@, (2 * resolution) as nat, *math, imp.element_q));
    let result = (r, impairments);
    assert(reports(
        result.0,
        *array,
        *beam,
        resolution,
        impaired(*math, *imp, beam_weights(*array, *beam, *math, *truncate)),
        *math,
        *truncate,
        *driver,
        *device,
        flat@,
        cut@,
    ));
    result
}

/// Where a square of even sides fits, so does its side.
proof fn square_has_room(resolution: int)
    requires
        1 <= resolution,
    ensures
        2 * resolution <= (2 * resolution) * (2 * resolution),
{
    assert(2 * resolution <= (2 * resolution) * (2 * resolution)) by (nonlinear_arith)
        requires
            1 <= resolution,
    ;
}

// ---- direction finding ------------------------------------------------------

/// The number of angles that a MUSIC spectrum scans.
pub const SCANNED: usize = 360;

/// The snapshots that every direction finder works on are those of the fixed seed.
pub open spec fn snapshot_entries<R: Real, M: Fn(Elementary<R>) -> R>(
    math: M,
    n_elements: usize,
    n_snapshots: usize,
    angles: Seq<R>,
    snr_db: R,
) -> spec_fn(int, int) -> Complex<R> {
    received(
        math,
        word_stream(SEED, (2 * ((angles.len() + n_elements) * n_snapshots)) as nat),
        n_elements as int,
        n_snapshots as int,
        angles,
        snr_db,
    )
}

/// The snapshots fit the machine.
pub open spec fn snapshots_fit(n_elements: usize, n_snapshots: usize, n_sources: nat) -> bool {
    &&& 16 * ((n_sources + n_elements) * n_snapshots) <= isize::MAX
    &&& 50 * n_elements <= usize::MAX
}

/// The MUSIC spectrum of simulated sources: the scanned angles and the level at each of
/// them; `None` where the eigenvalues of the covariance cannot be put in order.
pub fn music_doa<R: Real, M: Fn(Elementary<R>) -> R + Sync>(
    n_elements: usize,
    n_snapshots: usize,
    source_angles_deg: &[R],
    snr_db: R,
    math: &M,
) -> (r: Option<(Vec<R>, Vec<R>)>)
    requires
        arithmetic::<R>(),
        evaluates(*math),
        snapshots_fit(n_elements, n_snapshots, source_angles_deg@.len()),
        collectable::<R>(SCANNED as nat),
    ensures
        exists|snapshots: Matrix<Complex<R>>|
            {
                &&& snapshots.holds(
                    n_elements as int,
                    n_snapshots as int,
                    snapshot_entries(
                        *math,
                        n_elements,
                        n_snapshots,
                        source_angles_deg@,
                        snr_db,
                    ),
                )
                &&& (match r {
                    Some((theta_deg, spectrum_db)) => Some((theta_deg@, spectrum_db@)),
                    None => None,
                }) == #[trigger] music_result(
                    *math,
                    n_elements as int,
                    snapshots,
                    source_angles_deg@.len() as int,
                    SCANNED as nat,
                )
            },
{
    let snapshots = generate_snapshots(
        n_elements,
        n_snapshots,
        source_angles_deg,
        snr_db,
        SEED,
        math,
    );
    music_ula(n_elements, &snapshots, source_angles_deg.len(), SCANNED, math)
}

/// The ESPRIT estimate of the directions of simulated sources; `None` where the eigenvalues
/// of the covariance or the directions cannot be put in order.
pub fn esprit_doa<R: Real, M: Fn(Elementary<R>) -> R, Q: Fn(Complex<R>) -> Complex<R>>(
    n_elements: usize,
    n_snapshots: usize,
    source_angles_deg: &[R],
    snr_db: R,
    math: &M,
    root: &Q,
) -> (r: Option<Vec<R>>)
    requires
        arithmetic::<R>(),
        evaluates(*math),
        answers::<Complex<R>, Complex<R>, Q>(*root),
        snapshots_fit(n_elements, n_snapshots, source_angles_deg@.len()),
        2 <= source_angles_deg@.len() <= n_elements,
    ensures
        exists|snapshots: Matrix<Complex<R>>|
            {
                &&& snapshots.holds(
                    n_elements as int,
                    n_snapshots as int,
                    snapshot_entries(
                        *math,
                        n_elements,
                        n_snapshots,
                        source_angles_deg@,
                        snr_db,
                    ),
                )
                &&& (match r {
                    Some(angles) => Some(angles@),
                    None => None,
                }) == #[trigger] esprit_result(
                    *math,
                    *root,
                    n_elements as int,
                    snapshots,
                    source_angles_deg@.len() as int,
                )
            },
{
    let snapshots = generate_snapshots(
        n_elements,
        n_snapshots,
        source_angles_deg,
        snr_db,
        SEED,
        math,
    );
    esprit_ula(n_elements, &snapshots, source_angles_deg.len(), math, root)
}

/// The MVDR weights of a linear array that looks broadside at simulated sources, with a
/// loading of one in ten thousand.
pub fn mvdr_beamform<R: Real, M: Fn(Elementary<R>) -> R>(
    n_elements: usize,
    n_snapshots: usize,
    source_angles_deg: &[R],
    snr_db: R,
    math: &M,
) -> (w: Vec<Complex<R>>)
    requires
        arithmetic::<R>(),
        evaluates(*math),
        snapshots_fit(n_elements, n_snapshots, source_angles_deg@.len()),
    ensures
        exists|snapshots: Matrix<Complex<R>>|
            {
                &&& snapshots.holds(
                    n_elements as int,
                    n_snapshots as int,
                    snapshot_entries(
                        *math,
                        n_elements,
                        n_snapshots,
                        source_angles_deg@,
                        snr_db,
                    ),
                )
                &&& w@ == Seq::new(
                    n_elements as nat,
                    #[trigger] capon(
                        *math,
                        line(n_elements as nat),
                        snapshots,
                        whole(0),
                        ratio(1, 10000),
                    ),
                )
            },
{
    let snapshots = generate_snapshots(
        n_elements,
        n_snapshots,
        source_angles_deg,
        snr_db,
        SEED,
        math,
    );
    let x: Vec<R> = line_positions(n_elements);
    let y = vector_of(
        n_elements,
        |i: usize| -> (v: R)
            ensures
                v == whole::<R>(0),
            { R::from(0) });
    mvdr_weights(
        x.as_slice(),
        y.as_slice(),
        &snapshots,
        R::from(0),
        fraction(1, 10000),
        math,
    )
}

// ---- beam squint ------------------------------------------------------------

/// The number of frequencies over a band.
pub const FREQUENCIES: usize = 51;

/// The offset of frequency `i` of those that cover a band from its centre.
pub open spec fn band_offset<R: Real>(bandwidth: R, i: int) -> R {
    plus(
        over(negated(bandwidth), whole(2)),
        over(times(bandwidth, count(i)), whole(50)),
    )
}

/// The squint over a band: the frequencies, where the beam points at each of them, and how
/// far that is from where it is steered.
pub struct SquintReport<R> {
    pub frequency_ghz: Vec<R>,
    pub theta_actual_deg: Vec<R>,
    pub squint_error_deg: Vec<R>,
}

/// The squint of a beam over a band round the frequency that it is steered for.
pub fn beam_squint<R: Real, M: Fn(Elementary<R>) -> R>(
    theta_steer_deg: R,
    f0: R,
    bandwidth_ghz: R,
    math: &M,
) -> (r: SquintReport<R>)
    requires
        arithmetic::<R>(),
        evaluates(*math),
    ensures
        r.frequency_ghz@ == Seq::new(
            FREQUENCIES as nat,
            |i: int| plus(f0, band_offset(bandwidth_ghz, i)),
        ),
        r.theta_actual_deg@ == Seq::new(
            FREQUENCIES as nat,
            |i: int| squinted(*math, theta_steer_deg, f0, band_offset(bandwidth_ghz, i)),
        ),
        r.squint_error_deg@ == Seq::new(
            FREQUENCIES as nat,
            |i: int|
                minus(
                    squinted(*math, theta_steer_deg, f0, band_offset(bandwidth_ghz, i)),
                    theta_steer_deg,
                ),
        ),
{
    let offsets = vector_of(
        FREQUENCIES,
        |i: usize| -> (v: R)
            requires
                i < FREQUENCIES,
            ensures
                v == band_offset(bandwidth_ghz, i as int),
            {
                bandwidth_ghz.neg() / R::from(2) + bandwidth_ghz * counted(i as u64) / R::from(50)
            });
    let (theta_actual_deg, squint_error_deg) = beam_squint_analysis(
        theta_steer_deg,
        f0,
        offsets.as_slice(),
        math,
    );
    let frequency_ghz = vector_of(
        FREQUENCIES,
        |i: usize| -> (v: R)
            requires
                i < FREQUENCIES,
            ensures
                v == plus(f0, band_offset(bandwidth_ghz, i as int)),
            { f0 + offsets[i] });
    SquintReport { frequency_ghz, theta_actual_deg, squint_error_deg }
}

// ---- what holds of every pattern --------------------------------------------

/// The host computes the levels of the array factor over the same directions, where the
/// modulus is the root of the power.
pub proof fn host_agrees_on_patterns<R: Real, M: Fn(Elementary<R>) -> R>(
    math: M,
    x: Seq<R>,
    y: Seq<R>,
    w: Seq<Complex<R>>,
    theta: Seq<R>,
    phi: Seq<R>,
)
    requires
        forall|z: Complex<R>| #[trigger]
            modulus(math, z) == value(math, Elementary::Sqrt(power(z))),
    ensures
        direction_levels(math, x, y, w, sines(math, theta), cosines(math, phi), sines(math, phi))
            == pattern_levels(math, x, y, w, theta, phi),
        normalized(
            direction_levels(
                math,
                x,
                y,
                w,
                sines(math, theta),
                cosines(math, phi),
                sines(math, phi),
            ),
        ) == normalized(pattern_levels(math, x, y, w, theta, phi)),
{
    let a = direction_levels(
        math,
        x,
        y,
        w,
        sines(math, theta),
        cosines(math, phi),
        sines(math, phi),
    );
    let b = pattern_levels(math, x, y, w, theta, phi);
    assert forall|k: int| 0 <= k < a.len() implies a[k] == b[k] by {
        place_has_cell(k, phi.len() as int, theta.len() as int);
    }
    assert(a =~= b);
}

/// The host computes the levels of the beam cut at the same angles, where the modulus is the
/// root of the power.
pub proof fn host_agrees_on_cuts<R: Real, M: Fn(Elementary<R>) -> R>(
    math: M,
    x: Seq<R>,
    y: Seq<R>,
    w: Seq<Complex<R>>,
    theta_deg: Seq<R>,
    phi_deg: R,
)
    requires
        forall|z: Complex<R>| #[trigger]
            modulus(math, z) == value(math, Elementary::Sqrt(power(z))),
    ensures
        angle_levels(math, x, y, w, theta_deg, phi_deg) == cut_levels(
            math,
            x,
            y,
            w,
            phi_deg,
            theta_deg,
        ),
        normalized(angle_levels(math, x, y, w, theta_deg, phi_deg)) == normalized(
            cut_levels(math, x, y, w, phi_deg, theta_deg),
        ),
{
    assert(angle_levels(math, x, y, w, theta_deg, phi_deg) =~= cut_levels(
        math,
        x,
        y,
        w,
        phi_deg,
        theta_deg,
    ));
}

/// An array without impairments has the weights that it is given.
pub proof fn no_impairment_changes_nothing<R: Real, M: Fn(Elementary<R>) -> R>(
    math: M,
    imp: Impairments<R>,
    w: Seq<Complex<R>>,
)
    requires
        imp.phase_bits == 0,
        !less(whole(0), imp.coupling_strength),
        !less(whole(0), imp.failure_rate),
    ensures
        impaired(math, imp, w) == w,
{
}

/// Where nothing is rounded and sine and cosine lie on the unit circle, every element
/// contributes its taper in the direction of the beam.
pub proof fn beam_adds_up_to_the_taper<
    R: Real,
    M: Fn(Elementary<R>) -> R,
    T: Fn(R) -> usize,
>(array: ArrayConfig<R>, beam: BeamConfig<R>, math: M, truncate: T, i: int)
    requires
        field::<R>(),
        powers_tell::<R>(),
        forall|t: R| #[trigger] on_circle(math, t),
        0 <= i < positions(array, math, truncate).0.len(),
    ensures
        ({
            let (x, y) = positions(array, math, truncate);
            let (u, v) = direction_cosines(
                math,
                value(math, Elementary::ToRadians(beam.theta_deg)),
                value(math, Elementary::ToRadians(beam.phi_deg)),
            );
            contributions(math, x, y, beam_weights(array, beam, math, truncate), u, v)(i)
                == on_axis(
                taper_weights(
                    math,
                    x,
                    y,
                    array.nx as nat,
                    array.ny as nat,
                    beam.taper,
                    beam.sidelobe_db,
                    array.geometry.id(),
                )[i],
            )
        }),
{
    complex_field::<R>();
    let (x, y) = positions(array, math, truncate);
    let (u, v) = direction_cosines(
        math,
        value(math, Elementary::ToRadians(beam.theta_deg)),
        value(math, Elementary::ToRadians(beam.phi_deg)),
    );
    let taper = taper_weights(
        math,
        x,
        y,
        array.nx as nat,
        array.ny as nat,
        beam.taper,
        beam.sidelobe_db,
        array.geometry.id(),
    )[i];
    let steer = steering_weights(math, x, y, beam.theta_deg, beam.phi_deg)[i];
    let arriving = phasor(math, path_phase(math, x[i], y[i], u, v));
    steered_elements_add_up(math, x, y, beam.theta_deg, beam.phi_deg, i);
    assert(times(steer, arriving) == whole::<Complex<R>>(1));
    scaling_is_product(steer, taper);
    times_regroups(on_axis(taper), steer, arriving);
    times_one(on_axis(taper));
}

} // verus!
