//! What the answers of the simulator hold: over which angles they run, which impairments
//! apply in which order, and what reports say.
use vstd::prelude::*;
use vstd::arithmetic::power2::pow2;
use crate::array::{positions, ArrayConfig, ArrayGeometry};
use crate::beamforming::{
    cut_levels, pattern_levels, sidelobe, steering_weights, taper_weights, BeamConfig,
};
use crate::complex::{modulus, power, Complex};
use crate::exact::{
    counts_add, counts_keep_order, field, negative_quotient, nothing_over, opposites_cancel,
    order_decides, order_is_total, ordered_field, over_of_sum, over_undoes_times, plus_commutes,
    plus_nothing, plus_regroups, quotient_is_unique, sum_of_counts, times_distributes,
    times_nothing, times_one,
};
use crate::gpu::cuda_ffi::DriverError;
use crate::gpu::job::{is_array_factor, is_beam_cut, DeviceJob};
use crate::gpu::dispatched;
use crate::levels::normalized;
use crate::linalg::{along, image_terms};
use crate::physics::{
    coupling_entries, element_level, failure_named, failures, quantized_weights, rms_error_deg,
    weights_after,
};
use crate::random::word_stream;
use crate::scalar::{
    answer, count, less, negated, over, plus, times, total, value, whole, Elementary, Real,
};
use crate::simulator::{
    applied, band_offset, beam_place, beam_weights, beamwidth, cosines, cut_angles, describes,
    host_agrees_on_cuts, host_agrees_on_patterns, imaginary_parts, impaired, phi_grid, real_parts,
    reports, row, shaped_row, shapes, sines, snapshot_entries, tabulates, theta_grid, FREQUENCIES,
    Impairments, PatternReport, SCANNED,
};
use crate::super_res::received;

verus! {

// ---- angles -----------------------------------------------------------------

/// Equal parts from nothing to `end`.
proof fn equal_parts<R: Real>(end: R, n: int, i: int)
    requires
        ordered_field::<R>(),
        counts_add::<R>(),
        2 <= n,
        0 <= i,
    ensures
        over(times(end, count(0)), count(n - 1)) == whole::<R>(0),
        over(times(end, count(n - 1)), count(n - 1)) == end,
        over(times(end, count(i + 1)), count(n - 1)) == plus(
            over(times(end, count(i)), count(n - 1)),
            over(end, count(n - 1)),
        ),
{
    order_is_total::<R>();
    let c: R = count(n - 1);
    counts_keep_order::<R>(0, n - 1);
    assert(count::<R>(0) == whole::<R>(0));
    order_decides(whole(0), c);
    times_nothing(end);
    nothing_over(c);
    quotient_is_unique(end, times(end, c), c);
    sum_of_counts::<R>(i, 1);
    times_distributes(end, count(i), whole(1));
    times_one(end);
    over_of_sum(times(end, count(i)), end, c);
}

/// The thetas of a pattern run from nothing to half a turn and its phis from nothing to a
/// full turn, each in equal steps, where nothing is rounded.
pub proof fn grids_run_over_all_directions<R: Real, M: Fn(Elementary<R>) -> R>(
    math: M,
    n: nat,
    i: int,
)
    requires
        ordered_field::<R>(),
        counts_add::<R>(),
        2 <= n,
        0 <= i < n - 1,
    ensures
        ({
            let pi = value(math, Elementary::Pi);
            let (theta, phi) = (theta_grid(math, n), phi_grid(math, n));
            &&& theta.len() == n && phi.len() == n
            &&& theta[0] == whole::<R>(0) && phi[0] == whole::<R>(0)
            &&& theta[n - 1] == pi && phi[n - 1] == times(whole(2), pi)
            &&& theta[i + 1] == plus(theta[i], over(pi, count(n - 1)))
            &&& phi[i + 1] == plus(phi[i], over(times(whole(2), pi), count(n - 1)))
        }),
{
    let pi = value(math, Elementary::Pi);
    equal_parts(pi, n as int, i);
    equal_parts(times(whole(2), pi), n as int, i);
}

/// A cut runs through the whole degrees from one horizon to the other.
pub proof fn cuts_run_from_horizon_to_horizon<R: Real>(i: int)
    requires
        0 <= i <= 180,
    ensures
        cut_angles::<R>().len() == 181,
        cut_angles::<R>()[i] == whole::<R>(i - 90),
        cut_angles::<R>()[0] == whole::<R>(-90),
        cut_angles::<R>()[180] == whole::<R>(90),
{
}

/// The place of a beam of whole degrees in a cut is where the cut stands at its angle, where
/// whole numbers add up and `truncate` leaves them as they are.
pub proof fn beams_stand_at_their_angle<R: Real, T: Fn(R) -> usize>(
    beam: BeamConfig<R>,
    truncate: T,
    d: int,
)
    requires
        -90 <= d <= 90,
        beam.theta_deg == whole::<R>(d),
        plus(whole::<R>(d), whole(90)) == whole::<R>(d + 90),
        answer(truncate, whole::<R>(d + 90)) == d + 90,
    ensures
        beam_place(beam, truncate) == d + 90,
        cut_angles::<R>()[beam_place(beam, truncate) as int] == beam.theta_deg,
{
}

/// The frequencies of a band lie round its centre, from half the bandwidth below to half the
/// bandwidth above, in fifty equal steps, where nothing is rounded.
pub proof fn bands_lie_round_their_centre<R: Real>(bandwidth: R, i: int)
    requires
        ordered_field::<R>(),
        counts_add::<R>(),
        0 <= i,
    ensures
        band_offset(bandwidth, 0) == negated(over(bandwidth, whole(2))),
        band_offset(bandwidth, 50) == over(bandwidth, whole(2)),
        band_offset(bandwidth, i + 1) == plus(
            band_offset(bandwidth, i),
            over(bandwidth, whole(50)),
        ),
        FREQUENCIES == 51,
{
    order_is_total::<R>();
    equal_parts(bandwidth, 51, i);
    counts_keep_order::<R>(0, 2);
    assert(count::<R>(0) == whole::<R>(0));
    order_decides(whole::<R>(0), whole(2));
    negative_quotient(bandwidth, whole(2));
    let half = over(bandwidth, whole(2));
    let low = over(negated(bandwidth), whole(2));
    plus_nothing(low);
    // A bandwidth less its half is its half.
    sum_of_counts::<R>(1, 1);
    over_undoes_times(bandwidth, whole(2));
    times_distributes(half, whole(1), whole(1));
    times_one(half);
    plus_regroups(negated(half), half, half);
    plus_commutes(negated(half), half);
    opposites_cancel(half);
    plus_commutes(whole(0), half);
    plus_nothing(half);
    plus_regroups(
        low,
        over(times(bandwidth, count(i)), whole(50)),
        over(bandwidth, whole(50)),
    );
}

/// The estimated beamwidth times the length of the array in wavelengths is 51 degrees, where
/// nothing is rounded.
pub proof fn beamwidths_go_by_the_length<R: Real>(array: ArrayConfig<R>)
    requires
        field::<R>(),
        times(count(array.nx as int), array.dx) != whole::<R>(0),
    ensures
        times(beamwidth(array), times(count(array.nx as int), array.dx)) == whole::<R>(51),
{
    over_undoes_times(whole::<R>(51), times(count(array.nx as int), array.dx));
}

// ---- weights ----------------------------------------------------------------

/// The weight of an element is its steering weight, scaled by its taper: by rows and columns
/// in a rectangular array, and by the distance from the centre in any other.
pub proof fn weights_are_steered_and_tapered<
    R: Real,
    M: Fn(Elementary<R>) -> R,
    T: Fn(R) -> usize,
>(array: ArrayConfig<R>, beam: BeamConfig<R>, math: M, truncate: T, other: Seq<char>, i: int)
    requires
        other != "rectangular"@,
        0 <= i < positions(array, math, truncate).0.len(),
    ensures
        ({
            let (x, y) = positions(array, math, truncate);
            let taper = taper_weights(
                math,
                x,
                y,
                array.nx as nat,
                array.ny as nat,
                beam.taper,
                beam.sidelobe_db,
                if array.geometry == ArrayGeometry::Rectangular {
                    "rectangular"@
                } else {
                    other
                },
            )[i];
            let steer = steering_weights(math, x, y, beam.theta_deg, beam.phi_deg)[i];
            let w = beam_weights(array, beam, math, truncate);
            &&& w.len() == x.len()
            &&& w[i].re == times(steer.re, taper)
            &&& w[i].im == times(steer.im, taper)
        }),
{
    reveal_strlit("rectangular");
    reveal_strlit("circular");
    reveal_strlit("triangular");
    assert("circular"@[0] == 'c' && "triangular"@[0] == 't' && "rectangular"@[0] == 'r');
}

// ---- impairments ------------------------------------------------------------

/// The only impairment is the number of bits of the phase shifters.
pub open spec fn only_bits<R: Real>(imp: Impairments<R>) -> Impairments<R> {
    Impairments {
        element_q: whole(0),
        coupling_strength: whole(0),
        phase_bits: imp.phase_bits,
        failure_rate: whole(0),
    }
}

/// The only impairment is coupling.
pub open spec fn only_coupling<R: Real>(imp: Impairments<R>) -> Impairments<R> {
    Impairments {
        element_q: whole(0),
        coupling_strength: imp.coupling_strength,
        phase_bits: 0,
        failure_rate: whole(0),
    }
}

/// The only impairment is failing elements.
pub open spec fn only_failures<R: Real>(imp: Impairments<R>) -> Impairments<R> {
    Impairments {
        element_q: whole(0),
        coupling_strength: whole(0),
        phase_bits: 0,
        failure_rate: imp.failure_rate,
    }
}

/// Impairments apply one after the other: first the phases are quantized, then the elements
/// couple, then some of them fail, open and by the seed 42. Coupling hands every element the
/// weights of all, each times how strongly it couples over a decay of two elements.
pub proof fn impairments_apply_one_after_the_other<R: Real, M: Fn(Elementary<R>) -> R>(
    math: M,
    imp: Impairments<R>,
    w: Seq<Complex<R>>,
    i: int,
)
    requires
        !less(whole::<R>(0), whole(0)),
        0 <= i < w.len(),
    ensures
        impaired(math, imp, w) == impaired(
            math,
            only_failures(imp),
            impaired(math, only_coupling(imp), impaired(math, only_bits(imp), w)),
        ),
        impaired(math, only_bits(imp), w) == quantized_weights(math, imp.phase_bits as nat, w),
        impaired(math, only_coupling(imp), w).len() == w.len(),
        less(whole(0), imp.coupling_strength) ==> impaired(math, only_coupling(imp), w)[i] == total(
            whole(0),
            |j: int|
                times(coupling_entries(math, imp.coupling_strength, whole(2))(i, j), w[j]),
            w.len(),
        ),
        !less(whole(0), imp.coupling_strength) ==> impaired(math, only_coupling(imp), w) == w,
        less(whole(0), imp.failure_rate) ==> impaired(math, only_failures(imp), w)
            == weights_after(
            math,
            word_stream(42, 2 * w.len()),
            imp.failure_rate,
            failure_named("open"@),
            w,
        ),
        !less(whole(0), imp.failure_rate) ==> impaired(math, only_failures(imp), w) == w,
{
    let e = coupling_entries(math, imp.coupling_strength, whole(2));
    let f = |j: int| times(e(i, j), w[j]);
    assert(f =~= image_terms(e, along(w), i));
    let q = quantized_weights(math, imp.phase_bits as nat, w);
    assert(quantized_weights(math, 0, w) == w);
    assert(quantized_weights(math, 0, q) == q);
}

/// The report names the impairments that apply, and only those: quantization where there are
/// bits, with as many levels as the bits can tell apart and its error; the others where they
/// are above nothing, failures with the number of elements that fail.
pub proof fn reports_name_what_applies<R: Real, M: Fn(Elementary<R>) -> R>(
    math: M,
    imp: Impairments<R>,
    w: Seq<Complex<R>>,
)
    ensures
        ({
            let r = applied(math, imp, w);
            &&& r.phase_quantization is Some <==> imp.phase_bits > 0
            &&& r.phase_quantization matches Some(q) ==> {
                &&& q.bits == imp.phase_bits
                &&& q.levels == pow2(imp.phase_bits as nat) as u32
                &&& q.rms_error_deg == rms_error_deg(math, imp.phase_bits as nat, w)
            }
            &&& r.mutual_coupling == if less(whole(0), imp.coupling_strength) {
                Some(imp.coupling_strength)
            } else {
                None
            }
            &&& r.element_failures is Some <==> less(whole(0), imp.failure_rate)
            &&& r.element_failures matches Some(f) ==> {
                &&& f.rate == imp.failure_rate
                &&& f.n_failed == failures(
                    word_stream(42, 2 * w.len()),
                    imp.failure_rate,
                    failure_named("open"@),
                    w.len(),
                ) as usize
            }
            &&& r.element_pattern == if less(whole(0), imp.element_q) {
                Some(imp.element_q)
            } else {
                None
            }
        }),
{
}

/// The element pattern raises every cell of a pattern by its level at the theta of the row,
/// and leaves the pattern where its exponent is not above nothing.
pub proof fn element_patterns_raise_rows<R: Real, M: Fn(Elementary<R>) -> R>(
    rows: Seq<Vec<R>>,
    flat: Seq<R>,
    n: nat,
    math: M,
    q: R,
    i: int,
    j: int,
)
    requires
        shapes(rows, flat, n, math, q),
        0 <= i < n,
        0 <= j < n,
    ensures
        ({
            let theta = over(times(value(math, Elementary::Pi), count(i)), count(n - 1));
            let level = normalized(flat)[i * n + j];
            &&& rows.len() == n && rows[i]@.len() == n
            &&& less(whole(0), q) ==> rows[i]@[j] == plus(level, element_level(math, theta, q))
            &&& !less(whole(0), q) ==> rows[i]@[j] == level
        }),
{
    assert(rows[i]@ == shaped_row(normalized(flat), n, math, q, i));
}

// ---- reports ----------------------------------------------------------------

/// A report holds the angles of its pattern in degrees, those of its cut, the cut below its
/// maximum, the sidelobe of this very cut at the place of the beam, and the estimated
/// beamwidth.
pub proof fn reports_hold_what_they_say<
    R: Real,
    M: Fn(Elementary<R>) -> R,
    T: Fn(R) -> usize,
>(
    report: PatternReport<R>,
    array: ArrayConfig<R>,
    beam: BeamConfig<R>,
    n_elements: nat,
    n: nat,
    cut: Seq<R>,
    math: M,
    truncate: T,
    i: int,
)
    requires
        describes(report, array, beam, n_elements, n, cut, math, truncate),
        0 <= i < n,
    ensures
        ({
            let pi = value(math, Elementary::Pi);
            let theta = over(times(pi, count(i)), count(n - 1));
            let phi = over(times(times(whole(2), pi), count(i)), count(n - 1));
            let place = answer(truncate, plus(beam.theta_deg, whole(90)));
            &&& report.n_elements == n_elements
            &&& report.theta_deg@.len() == n && report.phi_deg@.len() == n
            &&& report.theta_deg@[i] == value(math, Elementary::ToDegrees(theta))
            &&& report.phi_deg@[i] == value(math, Elementary::ToDegrees(phi))
            &&& report.cut_theta_deg@ == Seq::new(181, |k: int| whole::<R>(k - 90))
            &&& report.cut_pattern_db@ == normalized(cut)
            &&& report.first_sidelobe_db == sidelobe(report.cut_pattern_db@, place as int)
            &&& report.estimated_beamwidth_deg == over(
                whole(51),
                times(count(array.nx as int), array.dx),
            )
        }),
{
    assert(Seq::new(181, |k: int| whole::<R>(k - 90)) =~= cut_angles::<R>());
}

/// Without a device a report holds the array factor of the array with its weights, below its
/// maximum: over twice as many thetas and phis as the resolution says, and along the cut
/// through the beam, where the modulus is the root of the power.
pub proof fn reports_hold_the_array_factor<
    R: Real,
    M: Fn(Elementary<R>) -> R,
    T: Fn(R) -> usize,
    D,
    G: Fn(&D, DeviceJob<R>) -> Result<Vec<R>, DriverError>,
>(
    report: PatternReport<R>,
    array: ArrayConfig<R>,
    beam: BeamConfig<R>,
    resolution: usize,
    w: Seq<Complex<R>>,
    math: M,
    truncate: T,
    device: G,
    flat: Seq<R>,
    cut: Seq<R>,
    i: int,
    j: int,
)
    requires
        forall|z: Complex<R>| #[trigger]
            modulus(math, z) == value(math, Elementary::Sqrt(power(z))),
        reports(
            report,
            array,
            beam,
            resolution,
            w,
            math,
            truncate,
            None::<D>,
            device,
            flat,
            cut,
        ),
        tabulates(report.pattern_db@, flat, (2 * resolution) as nat),
        0 <= i < 2 * resolution,
        0 <= j < 2 * resolution,
    ensures
        ({
            let (x, y) = positions(array, math, truncate);
            let n = (2 * resolution) as nat;
            let pi = value(math, Elementary::Pi);
            let theta = Seq::new(n, |k: int| over(times(pi, count(k)), count::<R>(n - 1)));
            let phi = Seq::new(
                n,
                |k: int| over(times(times(whole(2), pi), count(k)), count::<R>(n - 1)),
            );
            let angles = Seq::new(181, |k: int| whole::<R>(k - 90));
            &&& report.n_elements == x.len()
            &&& report.pattern_db@.len() == n && report.pattern_db@[i]@.len() == n
            &&& report.pattern_db@[i]@[j] == normalized(
                pattern_levels(math, x, y, w, theta, phi),
            )[i * n + j]
            &&& report.cut_pattern_db@ == normalized(
                cut_levels(math, x, y, w, beam.phi_deg, angles),
            )
        }),
{
    let (x, y) = positions(array, math, truncate);
    let n = (2 * resolution) as nat;
    let pi = value(math, Elementary::Pi);
    let theta = Seq::new(n, |k: int| over(times(pi, count(k)), count::<R>(n - 1)));
    let phi = Seq::new(
        n,
        |k: int| over(times(times(whole(2), pi), count(k)), count::<R>(n - 1)),
    );
    let angles = Seq::new(181, |k: int| whole::<R>(k - 90));
    assert(theta =~= theta_grid(math, n));
    assert(phi =~= phi_grid(math, n));
    assert(angles =~= cut_angles::<R>());
    host_agrees_on_patterns(math, x, y, w, theta, phi);
    host_agrees_on_cuts(math, x, y, w, angles, beam.phi_deg);
    assert(report.pattern_db@[i]@ == row(normalized(flat), n, i));
}

/// With a device a report holds what the device makes of the array, or what the host makes of
/// it where the device fails: the device is handed the positions, the real and the imaginary
/// parts of the weights, and the sines and cosines of the angles of the pattern, and for the
/// cut its angles in degrees and the plane of the beam.
pub proof fn reports_hold_what_the_device_makes<
    R: Real,
    M: Fn(Elementary<R>) -> R,
    T: Fn(R) -> usize,
    D,
    G: Fn(&D, DeviceJob<R>) -> Result<Vec<R>, DriverError>,
>(
    report: PatternReport<R>,
    array: ArrayConfig<R>,
    beam: BeamConfig<R>,
    resolution: usize,
    w: Seq<Complex<R>>,
    math: M,
    truncate: T,
    d: D,
    device: G,
    flat: Seq<R>,
    cut: Seq<R>,
)
    requires
        forall|z: Complex<R>| #[trigger]
            modulus(math, z) == value(math, Elementary::Sqrt(power(z))),
        reports(
            report,
            array,
            beam,
            resolution,
            w,
            math,
            truncate,
            Some(d),
            device,
            flat,
            cut,
        ),
    ensures
        exists|job: DeviceJob<R>, outcome: Result<Vec<R>, DriverError>|
            {
                let (x, y) = positions(array, math, truncate);
                let n = (2 * resolution) as nat;
                let pi = value(math, Elementary::Pi);
                let theta = Seq::new(n, |k: int| over(times(pi, count(k)), count::<R>(n - 1)));
                let phi = Seq::new(
                    n,
                    |k: int| over(times(times(whole(2), pi), count(k)), count::<R>(n - 1)),
                );
                &&& #[trigger] call_ensures(device, (&d, job), outcome)
                &&& is_array_factor(
                    job,
                    x,
                    y,
                    Seq::new(w.len(), |k: int| w[k].re),
                    Seq::new(w.len(), |k: int| w[k].im),
                    Seq::new(n, |k: int| value(math, Elementary::Sin(theta[k]))),
                    Seq::new(n, |k: int| value(math, Elementary::Cos(phi[k]))),
                    Seq::new(n, |k: int| value(math, Elementary::Sin(phi[k]))),
                )
                &&& flat == match outcome {
                    Ok(v) => v@,
                    Err(_) => pattern_levels(math, x, y, w, theta, phi),
                }
            },
        exists|job: DeviceJob<R>, outcome: Result<Vec<R>, DriverError>|
            {
                let (x, y) = positions(array, math, truncate);
                let angles = Seq::new(181, |k: int| whole::<R>(k - 90));
                &&& #[trigger] call_ensures(device, (&d, job), outcome)
                &&& is_beam_cut(
                    job,
                    math,
                    x,
                    y,
                    Seq::new(w.len(), |k: int| w[k].re),
                    Seq::new(w.len(), |k: int| w[k].im),
                    angles,
                    beam.phi_deg,
                )
                &&& cut == match outcome {
                    Ok(v) => v@,
                    Err(_) => cut_levels(math, x, y, w, beam.phi_deg, angles),
                }
            },
{
    let (x, y) = positions(array, math, truncate);
    let n = (2 * resolution) as nat;
    let pi = value(math, Elementary::Pi);
    let theta = Seq::new(n, |k: int| over(times(pi, count(k)), count::<R>(n - 1)));
    let phi = Seq::new(
        n,
        |k: int| over(times(times(whole(2), pi), count(k)), count::<R>(n - 1)),
    );
    let angles = Seq::new(181, |k: int| whole::<R>(k - 90));
    assert(theta =~= theta_grid(math, n));
    assert(phi =~= phi_grid(math, n));
    assert(angles =~= cut_angles::<R>());
    host_agrees_on_patterns(math, x, y, w, theta, phi);
    host_agrees_on_cuts(math, x, y, w, angles, beam.phi_deg);
    assert(Seq::new(w.len(), |k: int| w[k].re) =~= real_parts(w));
    assert(Seq::new(w.len(), |k: int| w[k].im) =~= imaginary_parts(w));
    assert(Seq::new(n, |k: int| value(math, Elementary::Sin(theta[k]))) =~= sines(math, theta));
    assert(Seq::new(n, |k: int| value(math, Elementary::Cos(phi[k]))) =~= cosines(math, phi));
    assert(Seq::new(n, |k: int| value(math, Elementary::Sin(phi[k]))) =~= sines(math, phi));
}

/// A device whose work fails is stood in for by the host, and what a device returns is the
/// result, unchanged.
pub proof fn devices_are_stood_in_for<
    D,
    R,
    G: Fn(&D, DeviceJob<R>) -> Result<Vec<R>, DriverError>,
>(
    driver: Option<D>,
    device: G,
    wanted: spec_fn(DeviceJob<R>) -> bool,
    fallback: Seq<R>,
    result: Seq<R>,
)
    requires
        dispatched(driver, device, wanted, fallback, result),
    ensures
        driver is None ==> result == fallback,
        driver matches Some(d) ==> {
            &&& (forall|job: DeviceJob<R>, outcome: Result<Vec<R>, DriverError>| #[trigger]
                call_ensures(device, (&d, job), outcome) && wanted(job) ==> outcome is Err)
                ==> result == fallback
            &&& (forall|job: DeviceJob<R>, outcome: Result<Vec<R>, DriverError>| #[trigger]
                call_ensures(device, (&d, job), outcome) && wanted(job) ==> outcome is Ok)
                ==> exists|job: DeviceJob<R>, v: Vec<R>|
                {
                    &&& wanted(job)
                    &&& #[trigger] call_ensures(device, (&d, job), Ok::<Vec<R>, DriverError>(v))
                    &&& result == v@
                }
        },
{
    if let Some(d) = driver {
        let (job, outcome) = choose|job: DeviceJob<R>, outcome: Result<Vec<R>, DriverError>|
            {
                &&& wanted(job)
                &&& #[trigger] call_ensures(device, (&d, job), outcome)
                &&& result == match outcome {
                    Ok(v) => v@,
                    Err(_) => fallback,
                }
            };
        assert(call_ensures(device, (&d, job), outcome));
    }
}

// ---- direction finding ------------------------------------------------------

/// The direction finders work on the snapshots of the seed 42, and MUSIC scans 360 angles.
pub proof fn snapshots_are_those_of_the_seed<R: Real, M: Fn(Elementary<R>) -> R>(
    math: M,
    n_elements: usize,
    n_snapshots: usize,
    angles: Seq<R>,
    snr_db: R,
)
    ensures
        snapshot_entries(math, n_elements, n_snapshots, angles, snr_db) == received(
            math,
            word_stream(42, (2 * ((angles.len() + n_elements) * n_snapshots)) as nat),
            n_elements as int,
            n_snapshots as int,
            angles,
            snr_db,
        ),
        SCANNED == 360,
{
}

} // verus!
