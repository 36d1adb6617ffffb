//! Whole answers of the simulator.
use phased_array_rs::array::{ArrayConfig, ArrayGeometry};
use phased_array_rs::beamforming::{find_sidelobe, response_db, BeamConfig, TaperType};
use phased_array_rs::complex::Complex;
use phased_array_rs::gpu::cuda_ffi::{DriverCall, DriverError};
use phased_array_rs::gpu::job::DeviceJob;
use phased_array_rs::gpu::{array_factor_cpu, beam_cut_cpu};
use phased_array_rs::levels::normalize;
use phased_array_rs::linalg::apply;
use phased_array_rs::scalar::Elementary;
use phased_array_rs::simulator::{
    backend_name, beam_squint, compute_pattern, default_resolution, esprit_doa, impair, music_doa,
    mvdr_beamform, pattern_realistic, report_on, Impairments, PatternReport,
};
use phased_array_rs::super_res::line_positions;
use phased_array_rs::{
    apply_taper, beam_squint_analysis, element_pattern_cosq, esprit_ula, generate_positions,
    generate_snapshots, music_ula, mutual_coupling_matrix, mvdr_weights, quantize_phase,
    simulate_failures, steering_vector,
};

/// The elementary functions of the standard library.
fn math(e: Elementary<f64>) -> f64 {
    match e {
        Elementary::Pi => std::f64::consts::PI,
        Elementary::Sin(a) => a.sin(),
        Elementary::Cos(a) => a.cos(),
        Elementary::Asin(a) => a.asin(),
        Elementary::Atan2(y, x) => y.atan2(x),
        Elementary::Acosh(a) => a.acosh(),
        Elementary::Sqrt(a) => a.sqrt(),
        Elementary::Hypot(a, b) => a.hypot(b),
        Elementary::Exp(a) => a.exp(),
        Elementary::Log10(a) => a.log10(),
        Elementary::Pow(a, b) => a.powf(b),
        Elementary::Abs(a) => a.abs(),
        Elementary::Round(a) => a.round(),
        Elementary::ToRadians(a) => a.to_radians(),
        Elementary::ToDegrees(a) => a.to_degrees(),
    }
}

fn truncate(a: f64) -> usize {
    a as usize
}

fn root(z: Complex<f64>) -> Complex<f64> {
    let w = num_complex::Complex64::new(z.re, z.im).sqrt();
    Complex { re: w.re, im: w.im }
}

fn array(geometry: ArrayGeometry) -> ArrayConfig<f64> {
    ArrayConfig { geometry, nx: 6, ny: 4, dx: 0.5, dy: 0.6 }
}

fn beam(taper: TaperType) -> BeamConfig<f64> {
    BeamConfig { theta_deg: 20.0, phi_deg: 30.0, taper, sidelobe_db: -25.0 }
}

fn no_device(_: &(), _: DeviceJob<f64>) -> Result<Vec<f64>, DriverError> {
    Err(DriverError::NotInitialized)
}

/// The weights of an array before any impairment.
fn weights(array: &ArrayConfig<f64>, beam: &BeamConfig<f64>) -> Vec<Complex<f64>> {
    let (x, y) = generate_positions(array, &math, &truncate);
    let name = array.geometry.name();
    let taper = apply_taper(&x, &y, array.nx, array.ny, &beam.taper, beam.sidelobe_db, name, &math);
    let steer = steering_vector(&x, &y, beam.theta_deg, beam.phi_deg, &math);
    steer.iter().zip(taper).map(|(s, t)| Complex { re: s.re * t, im: s.im * t }).collect()
}

/// The levels over a square grid and along the cut, as the host computes them.
fn levels(
    array: &ArrayConfig<f64>,
    phi_deg: f64,
    w: &[Complex<f64>],
    n: usize,
) -> (Vec<f64>, Vec<f64>) {
    let (x, y) = generate_positions(array, &math, &truncate);
    let re: Vec<f64> = w.iter().map(|z| z.re).collect();
    let im: Vec<f64> = w.iter().map(|z| z.im).collect();
    let pi = std::f64::consts::PI;
    let theta: Vec<f64> = (0..n).map(|i| pi * i as f64 / (n - 1) as f64).collect();
    let phi: Vec<f64> = (0..n).map(|i| 2.0 * pi * i as f64 / (n - 1) as f64).collect();
    let st: Vec<f64> = theta.iter().map(|t| t.sin()).collect();
    let cp: Vec<f64> = phi.iter().map(|t| t.cos()).collect();
    let sp: Vec<f64> = phi.iter().map(|t| t.sin()).collect();
    let cut: Vec<f64> = (-90..=90).map(|d| d as f64).collect();
    (
        array_factor_cpu(&x, &y, &re, &im, &st, &cp, &sp, &math),
        beam_cut_cpu(&x, &y, &re, &im, &cut, phi_deg, &math),
    )
}

fn check_frame(r: &PatternReport<f64>, a: &ArrayConfig<f64>, elements: usize, n: usize) {
    assert_eq!(r.n_elements, elements);
    assert_eq!(r.estimated_beamwidth_deg, 51.0 / (a.nx as f64 * a.dx));
    assert_eq!((r.theta_deg.len(), r.phi_deg.len()), (n, n));
    assert_eq!((r.theta_deg[0], r.phi_deg[0]), (0.0, 0.0));
    assert!((r.theta_deg[n - 1] - 180.0).abs() < 1e-12);
    assert!((r.phi_deg[n - 1] - 360.0).abs() < 1e-12);
    assert_eq!(r.cut_theta_deg.len(), 181);
    assert_eq!((r.cut_theta_deg[0], r.cut_theta_deg[180]), (-90.0, 90.0));
}

#[test]
fn the_simulator_has_defaults_and_names() {
    assert_eq!(default_resolution(), 91);
    assert_eq!(backend_name(true), "cuda");
    assert_eq!(backend_name(false), "cpu_rayon");
}

#[test]
fn a_pattern_is_normalized_and_described() {
    let all = [ArrayGeometry::Rectangular, ArrayGeometry::Circular, ArrayGeometry::Triangular];
    let tapers = [TaperType::Uniform, TaperType::Taylor, TaperType::Hamming, TaperType::Hanning];
    for g in all {
        for t in tapers {
            let (a, b) = (array(g), beam(t));
            let r = compute_pattern(&a, &b, 5, &math, &truncate, &None, &no_device);
            let w = weights(&a, &b);
            check_frame(&r, &a, w.len(), 10);
            let (flat, cut) = levels(&a, b.phi_deg, &w, 10);
            let below = normalize(&flat);
            for i in 0..10 {
                assert_eq!(r.pattern_db[i], below[i * 10..(i + 1) * 10].to_vec());
            }
            assert_eq!(r.cut_pattern_db, normalize(&cut));
            assert_eq!(r.first_sidelobe_db, find_sidelobe(&r.cut_pattern_db, 110));
        }
    }
}

#[test]
fn the_beam_adds_up_to_the_taper() {
    let (a, b) = (array(ArrayGeometry::Circular), beam(TaperType::Hamming));
    let (x, y) = generate_positions(&a, &math, &truncate);
    let taper = apply_taper(&x, &y, a.nx, a.ny, &b.taper, b.sidelobe_db, "circular", &math);
    let (theta, phi) = (b.theta_deg.to_radians(), b.phi_deg.to_radians());
    let (u, v) = (theta.sin() * phi.cos(), theta.sin() * phi.sin());
    let level = response_db(&x, &y, &weights(&a, &b), u, v, &math);
    assert!((level - 20.0 * taper.iter().sum::<f64>().log10()).abs() < 1e-9);
}

#[test]
fn a_pattern_of_the_device_is_normalized_too() {
    let device = |_: &(), job: DeviceJob<f64>| {
        Ok((0..job.results).map(|k| k as f64).collect::<Vec<f64>>())
    };
    let (a, b) = (array(ArrayGeometry::Rectangular), beam(TaperType::Uniform));
    let r = compute_pattern(&a, &b, 1, &math, &truncate, &Some(()), &device);
    assert_eq!(r.pattern_db, vec![vec![-3.0, -2.0], vec![-1.0, 0.0]]);
    assert_eq!((r.cut_pattern_db[0], r.cut_pattern_db[180]), (-180.0, 0.0));
}

#[test]
fn a_failing_device_changes_nothing() {
    let device = |_: &(), _: DeviceJob<f64>| {
        Err::<Vec<f64>, DriverError>(DriverError::CallFailed(DriverCall::MemAlloc, 2))
    };
    let (a, b) = (array(ArrayGeometry::Rectangular), beam(TaperType::Taylor));
    let with = compute_pattern(&a, &b, 3, &math, &truncate, &Some(()), &device);
    let without = compute_pattern(&a, &b, 3, &math, &truncate, &None, &no_device);
    assert_eq!(with.pattern_db, without.pattern_db);
    assert_eq!(with.cut_pattern_db, without.cut_pattern_db);
}

#[test]
fn reports_are_made_of_given_levels() {
    let (a, b) = (array(ArrayGeometry::Circular), beam(TaperType::Uniform));
    let mut cut = vec![-50.0; 181];
    cut[110] = 10.0;
    cut[150] = -7.0;
    let r = report_on(&a, &b, 3, 2, &[4.0, 1.0, 2.0, 3.0], &cut, &math, &truncate);
    check_frame(&r, &a, 3, 2);
    assert_eq!(r.pattern_db, vec![vec![0.0, -3.0], vec![-2.0, -1.0]]);
    assert_eq!(r.cut_pattern_db[150], -17.0);
    assert_eq!(r.first_sidelobe_db, -17.0);
}

#[test]
fn impairments_apply_in_turn() {
    let (a, b) = (array(ArrayGeometry::Rectangular), beam(TaperType::Hamming));
    let imp = Impairments {
        element_q: 1.2,
        coupling_strength: 0.25,
        phase_bits: 3,
        failure_rate: 0.3,
    };
    let mut w = weights(&a, &b);
    let n = w.len();
    let rms = quantize_phase(&mut w, 3, &math);
    let mut w = apply(&mutual_coupling_matrix(n, 0.25, 2.0, &math), &w);
    let n_failed = simulate_failures(&mut w, 0.3, "open", 42, &math);

    let mut got = weights(&a, &b);
    let report = impair(&mut got, &imp, &math);
    for i in 0..n {
        assert_eq!((got[i].re, got[i].im), (w[i].re, w[i].im));
    }
    let q = report.phase_quantization.unwrap();
    assert_eq!((q.bits, q.levels, q.rms_error_deg), (3, 8, rms));
    assert_eq!(report.mutual_coupling, Some(0.25));
    let f = report.element_failures.unwrap();
    assert_eq!((f.rate, f.n_failed), (0.3, n_failed));
    assert_eq!(report.element_pattern, Some(1.2));

    let (r, again) =
        pattern_realistic(&a, &b, 4, &imp, &math, &truncate, &None, &no_device);
    assert_eq!(again.element_failures.unwrap().n_failed, n_failed);
    check_frame(&r, &a, n, 8);
    let (flat, cut) = levels(&a, b.phi_deg, &w, 8);
    let below = normalize(&flat);
    let pi = std::f64::consts::PI;
    let theta: Vec<f64> = (0..8).map(|i| pi * i as f64 / 7.0).collect();
    let gains = element_pattern_cosq(&theta, 1.2, &math);
    for i in 0..8 {
        let gain = 20.0 * gains[i].max(1e-15).log10();
        for j in 0..8 {
            assert_eq!(r.pattern_db[i][j], below[i * 8 + j] + gain);
        }
    }
    assert_eq!(r.cut_pattern_db, normalize(&cut));
}

#[test]
fn without_impairments_the_pattern_is_the_ideal_one() {
    let (a, b) = (array(ArrayGeometry::Triangular), beam(TaperType::Hanning));
    let imp =
        Impairments { element_q: 0.0, coupling_strength: 0.0, phase_bits: 0, failure_rate: 0.0 };
    let (r, report) = pattern_realistic(&a, &b, 3, &imp, &math, &truncate, &None, &no_device);
    let ideal = compute_pattern(&a, &b, 3, &math, &truncate, &None, &no_device);
    assert_eq!(r.pattern_db, ideal.pattern_db);
    assert_eq!(r.cut_pattern_db, ideal.cut_pattern_db);
    assert_eq!(r.first_sidelobe_db, ideal.first_sidelobe_db);
    assert!(report.phase_quantization.is_none() && report.mutual_coupling.is_none());
    assert!(report.element_failures.is_none() && report.element_pattern.is_none());
}

#[test]
fn direction_finders_use_the_fixed_seed() {
    let angles = [-20.0, 30.0];
    let x = generate_snapshots(8, 40, &angles, 15.0, 42, &math);
    assert_eq!(music_doa(8, 40, &angles, 15.0, &math), music_ula(8, &x, 2, 360, &math));
    let (theta, _) = music_doa(8, 40, &angles, 15.0, &math).unwrap();
    assert_eq!((theta.len(), theta[0], theta[359]), (360, -90.0, 90.0));
    assert_eq!(
        esprit_doa(8, 40, &angles, 15.0, &math, &root),
        esprit_ula(8, &x, 2, &math, &root)
    );
    let w = mvdr_beamform(8, 40, &angles, 15.0, &math);
    let want = mvdr_weights(&line_positions(8), &[0.0; 8], &x, 0.0, 1e-4, &math);
    for i in 0..8 {
        assert_eq!((w[i].re, w[i].im), (want[i].re, want[i].im));
    }
}

#[test]
fn without_snapshots_nothing_can_be_found() {
    assert!(music_doa(4, 0, &[10.0], 15.0, &math).is_none());
    assert!(esprit_doa(4, 0, &[10.0, 20.0], 15.0, &math, &root).is_none());
}

#[test]
fn squint_is_computed_over_the_whole_band() {
    let r = beam_squint(30.0, 10.0, 2.0, &math);
    assert_eq!(r.frequency_ghz.len(), 51);
    assert_eq!((r.frequency_ghz[0], r.frequency_ghz[25], r.frequency_ghz[50]), (9.0, 10.0, 11.0));
    let offsets: Vec<f64> = (0..51).map(|i| -2.0 / 2.0 + 2.0 * i as f64 / 50.0).collect();
    let (theta, squint) = beam_squint_analysis(30.0, 10.0, &offsets, &math);
    assert_eq!(r.theta_actual_deg, theta);
    assert_eq!(r.squint_error_deg, squint);
    for i in 0..51 {
        assert_eq!(r.frequency_ghz[i], 10.0 + offsets[i]);
    }
}
