//! Steering, array factors, sidelobes and levels.
use phased_array_rs::beamforming::{find_sidelobe, response_db, rows_of};
use phased_array_rs::complex::Complex;
use phased_array_rs::gpu::{array_factor_cpu, beam_cut_cpu};
use phased_array_rs::levels::{least_magnitude, maximum, normalize, peak_of, to_db};
use phased_array_rs::scalar::{clamp_to, counted, fraction, in_order, max_of, min_of, Elementary};
use phased_array_rs::{compute_array_factor, compute_beam_cut, steering_vector};

/// The elementary functions of the standard library.
fn math(e: Elementary<f64>) -> f64 {
    match e {
        Elementary::Pi => std::f64::consts::PI,
        Elementary::Sin(a) => a.sin(),
        Elementary::Cos(a) => a.cos(),
        Elementary::Asin(a) => a.asin(),
        Elementary::Atan2(y, x) => y.atan2(x),
        Elementary::Acosh(a) => a.acosh(),
        Elementary::Sqrt(a) => a.sqrt(),
        Elementary::Hypot(a, b) => a.hypot(b),
        Elementary::Exp(a) => a.exp(),
        Elementary::Log10(a) => a.log10(),
        Elementary::Pow(a, b) => a.powf(b),
        Elementary::Abs(a) => a.abs(),
        Elementary::Round(a) => a.round(),
        Elementary::ToRadians(a) => a.to_radians(),
        Elementary::ToDegrees(a) => a.to_degrees(),
    }
}

fn line(n: usize) -> (Vec<f64>, Vec<f64>) {
    ((0..n).map(|i| (i as f64 - (n as f64 - 1.0) / 2.0) * 0.5).collect(), vec![0.0; n])
}

fn whole_degrees() -> Vec<f64> {
    (-90..=90).map(|d| d as f64).collect()
}

#[test]
fn constants_are_the_nearest_floats() {
    assert_eq!(least_magnitude::<f64>(), 1e-15);
    assert_eq!(fraction::<f64>(54, 100), 0.54);
    assert_eq!(fraction::<f64>(46, 100), 0.46);
    assert_eq!(fraction::<f64>(99, 100), 0.99);
    assert_eq!(fraction::<f64>(1, 10), 0.1);
    assert_eq!(fraction::<f64>(1, 10000), 1e-4);
}

#[test]
fn counts_are_the_nearest_floats() {
    for n in [0, 1, 181, 0x7fff_ffff, 0x8000_0000, 1 << 53, u64::MAX, u64::MAX - 1024, 1 << 60] {
        assert_eq!(counted::<f64>(n), n as f64);
    }
}

#[test]
fn comparisons_step_over_what_is_no_number() {
    assert_eq!(max_of(1.0, 2.0), 2.0);
    assert_eq!(max_of(f64::NAN, 2.0), 2.0);
    assert_eq!(max_of(2.0, f64::NAN), 2.0);
    assert_eq!(min_of(1.0, 2.0), 1.0);
    assert_eq!(min_of(f64::NAN, 2.0), 2.0);
    assert_eq!(clamp_to(1.5, -1.0, 1.0), 1.0);
    assert_eq!(clamp_to(-1.5, -1.0, 1.0), -1.0);
    assert_eq!(clamp_to(0.5, -1.0, 1.0), 0.5);
    assert!(clamp_to(f64::NAN, -1.0, 1.0).is_nan());
    assert!(in_order(1.0, 2.0));
    assert!(!in_order(1.0, f64::NAN));
}

#[test]
fn levels_bottom_out() {
    assert_eq!(to_db(10.0, &math), 20.0);
    assert_eq!(to_db(1.0, &math), 0.0);
    assert_eq!(to_db(1e-15, &math), -150.0);
    assert_eq!(to_db(0.0, &math), -150.0);
    assert_eq!(to_db(f64::NAN, &math), -150.0);
}

#[test]
fn normalized_levels_peak_at_zero() {
    assert_eq!(normalize(&[-3.0, 4.0, 1.0]), vec![-7.0, 0.0, -3.0]);
    assert!(normalize::<f64>(&[]).is_empty());
    assert_eq!(peak_of(&[f64::NAN, 1.0, f64::NAN, 3.0, 2.0]), Some(3.0));
    assert_eq!(peak_of(&[f64::NAN]), None);
    assert_eq!(maximum(0.0, &[-1.0, -2.0]), 0.0);
    assert_eq!(maximum(0.0, &[5.0, 2.0]), 5.0);
}

#[test]
fn complex_numbers_follow_num_complex() {
    let zs = [(3.0, -4.0), (0.1, 0.7), (-2.5, 0.0), (0.0, 1.0), (-1e-3, 7e5)];
    for (a, b) in zs {
        for (c, d) in zs {
            let (z, w) = (Complex { re: a, im: b }, Complex { re: c, im: d });
            let (oz, ow) = (num_complex::Complex64::new(a, b), num_complex::Complex64::new(c, d));
            let sums = [(z + w, oz + ow), (z - w, oz - ow)];
            let products = [(z * w, oz * ow), (z / w, oz / ow)];
            for (got, want) in sums.into_iter().chain(products) {
                assert_eq!((got.re, got.im), (want.re, want.im));
            }
            assert_eq!(z.norm(&math), oz.norm());
            assert_eq!(z.arg(&math), oz.arg());
            assert_eq!(z.norm_sqr(), oz.norm_sqr());
            assert_eq!((z.conj().re, z.conj().im), (oz.conj().re, oz.conj().im));
            let (got, want) = (z.scale(c), oz * c);
            assert_eq!((got.re, got.im), (want.re, want.im));
        }
    }
}

#[test]
fn steering_turns_every_element_back() {
    let (x, y) = (vec![0.5, 1.0], vec![0.25, 0.0]);
    let w = steering_vector(&x, &y, 30.0, 90.0, &math);
    let v = 30.0_f64.to_radians().sin() * 90.0_f64.to_radians().sin();
    let u = 30.0_f64.to_radians().sin() * 90.0_f64.to_radians().cos();
    for i in 0..2 {
        let phase = 2.0 * std::f64::consts::PI * (x[i] * u + y[i] * v);
        assert_eq!((w[i].re, w[i].im), (phase.cos(), -phase.sin()));
    }
    assert!(steering_vector::<f64, _>(&[], &[], 30.0, 90.0, &math).is_empty());
}

#[test]
fn steering_weights_have_unit_modulus_and_mirror() {
    let (x, y) = (vec![0.3, -0.8, 1.7], vec![0.2, 0.9, -0.4]);
    let w = steering_vector(&x, &y, 33.0, 71.0, &math);
    let v = steering_vector(&x, &y, -33.0, 71.0, &math);
    for i in 0..3 {
        assert!((w[i].norm(&math) - 1.0).abs() < 1e-15);
        assert_eq!((v[i].re, v[i].im), (w[i].re, -w[i].im));
    }
}

#[test]
fn a_common_gain_leaves_the_patterns_alone() {
    let (x, y) = line(6);
    let w = steering_vector(&x, &y, 10.0, 0.0, &math);
    let louder: Vec<Complex<f64>> = w.iter().map(|z| z.scale(8.0)).collect();
    let (theta, phi) = ([0.1, 0.3, 0.7], [0.2, 1.1]);
    let p = compute_array_factor(&x, &y, &w, &theta, &phi, &math);
    let q = compute_array_factor(&x, &y, &louder, &theta, &phi, &math);
    for i in 0..3 {
        for j in 0..2 {
            assert!((p.get(i, j) - q.get(i, j)).abs() < 1e-9);
        }
    }
    let degrees = [-50.0, 3.0, 44.0];
    let a = compute_beam_cut(&x, &y, &w, 0.0, &degrees, &math);
    let b = compute_beam_cut(&x, &y, &louder, 0.0, &degrees, &math);
    for i in 0..3 {
        assert!((a[i] - b[i]).abs() < 1e-9);
    }
}

#[test]
fn a_steered_array_adds_up_in_the_direction_of_the_beam() {
    let (x, y) = line(8);
    let w = steering_vector(&x, &y, 25.0, 0.0, &math);
    let u = 25.0_f64.to_radians().sin();
    let level = response_db(&x, &y, &w, u, 0.0, &math);
    assert!((level - 20.0 * 8.0_f64.log10()).abs() < 1e-9);
}

#[test]
fn a_beam_cut_peaks_at_zero_where_the_beam_points() {
    let (x, y) = line(16);
    let w = steering_vector(&x, &y, 20.0, 0.0, &math);
    let cut = compute_beam_cut(&x, &y, &w, 0.0, &whole_degrees(), &math);
    assert_eq!(cut.len(), 181);
    assert_eq!(cut[110], 0.0);
    assert!(cut.iter().all(|v| *v <= 0.0));
    // The sidelobe is one of the local peaks, at least 13 decibels down.
    let level = find_sidelobe(&cut, 110);
    assert!(level < -13.0);
    assert!((1..180).any(|i| cut[i] == level && cut[i - 1] < level && cut[i + 1] < level));
}

#[test]
fn an_array_factor_peaks_at_zero() {
    let (x, y) = line(4);
    let w = steering_vector(&x, &y, 0.0, 0.0, &math);
    let theta = [0.0, 0.4, 0.8];
    let phi = [0.0, 0.5, 1.0, 1.5];
    let p = compute_array_factor(&x, &y, &w, &theta, &phi, &math);
    assert_eq!((p.rows(), p.cols()), (3, 4));
    for j in 0..4 {
        assert_eq!(p.get(0, j), 0.0);
    }
    for i in 0..3 {
        for j in 0..4 {
            assert!(p.get(i, j) <= 0.0);
            let (u, v) = (theta[i].sin() * phi[j].cos(), theta[i].sin() * phi[j].sin());
            let level = response_db(&x, &y, &w, u, v, &math);
            assert_eq!(p.get(i, j), level - 20.0 * 4.0_f64.log10());
        }
    }
}

#[test]
fn an_array_factor_over_no_directions_is_empty() {
    let p = compute_array_factor::<f64, _>(&[1.0], &[], &[], &[], &[0.0], &math);
    assert_eq!((p.rows(), p.cols()), (0, 1));
}

#[test]
fn the_host_agrees_with_the_array_factor() {
    let (x, y) = line(5);
    let w = steering_vector(&x, &y, 12.0, 0.0, &math);
    let re: Vec<f64> = w.iter().map(|z| z.re).collect();
    let im: Vec<f64> = w.iter().map(|z| z.im).collect();
    let theta = [0.1, 0.2, 0.9];
    let phi = [0.3, 2.0];
    let sin_theta: Vec<f64> = theta.iter().map(|t: &f64| t.sin()).collect();
    let cos_phi: Vec<f64> = phi.iter().map(|t: &f64| t.cos()).collect();
    let sin_phi: Vec<f64> = phi.iter().map(|t: &f64| t.sin()).collect();
    let flat = array_factor_cpu(&x, &y, &re, &im, &sin_theta, &cos_phi, &sin_phi, &math);
    assert_eq!(flat.len(), 6);
    for k in 0..6 {
        let (u, v) = (sin_theta[k / 2] * cos_phi[k % 2], sin_theta[k / 2] * sin_phi[k % 2]);
        assert!((flat[k] - response_db(&x, &y, &w, u, v, &math)).abs() < 1e-9);
    }
    let degrees = whole_degrees();
    let levels = beam_cut_cpu(&x, &y, &re, &im, &degrees, 30.0, &math);
    let cut = compute_beam_cut(&x, &y, &w, 30.0, &degrees, &math);
    let below = normalize(&levels);
    for i in 0..181 {
        assert!((below[i] - cut[i]).abs() < 1e-9);
    }
}

#[test]
fn a_silent_array_is_at_the_bottom() {
    let flat = array_factor_cpu(&[0.0], &[0.0], &[0.0], &[0.0], &[0.5], &[1.0], &[0.0], &math);
    assert_eq!(flat, vec![-150.0]);
    assert_eq!(beam_cut_cpu(&[0.0], &[0.0], &[0.0], &[0.0], &[10.0], 0.0, &math), vec![-150.0]);
}

#[test]
fn rows_are_cut_off_one_after_the_other() {
    let m = rows_of(&[1.0, 2.0, 3.0, 4.0, 5.0, 6.0], 2, 3);
    assert_eq!((m.get(0, 2), m.get(1, 0)), (3.0, 4.0));
}

#[test]
fn sidelobes_are_looked_for_off_the_beam() {
    // A narrow beam at 30, a peak on either side, the higher one to the left.
    let mut p = vec![-40.0; 61];
    p[29] = -1.0;
    p[30] = 0.0;
    p[31] = -1.0;
    p[15] = -20.0;
    p[45] = -25.0;
    assert_eq!(find_sidelobe(&p, 30), -20.0);
    p[15] = -40.0;
    assert_eq!(find_sidelobe(&p, 30), -25.0);
    p[45] = -40.0;
    assert_eq!(find_sidelobe(&p, 30), -30.0);
}

#[test]
fn peaks_close_to_the_beam_are_passed_over() {
    let mut p = vec![-40.0; 61];
    p[30] = 0.0;
    p[36] = -10.0;
    assert_eq!(find_sidelobe(&p, 30), -30.0);
    p[39] = -11.0;
    assert_eq!(find_sidelobe(&p, 30), -11.0);
}

#[test]
fn peaks_below_fifty_decibels_do_not_count() {
    let mut p = vec![-80.0; 61];
    p[30] = 0.0;
    p[50] = -55.0;
    assert_eq!(find_sidelobe(&p, 30), -30.0);
}

#[test]
fn a_beam_at_the_end_of_the_cut_has_one_side() {
    let mut p = vec![-40.0; 40];
    p[10] = -15.0;
    assert_eq!(find_sidelobe(&p, 40), -15.0);
    assert_eq!(find_sidelobe(&[0.0, 0.0, 0.0], 0), -30.0);
}
