//! Element patterns, coupling, quantization, failures and squint.
use phased_array_rs::complex::Complex;
use phased_array_rs::physics::{fail_elements, failure_type_named, phase_levels, FailureType};
use phased_array_rs::random::uniform_from;
use phased_array_rs::scalar::Elementary;
use phased_array_rs::{
    apply_element_pattern, beam_squint_analysis, element_pattern_cosq, mutual_coupling_matrix,
    quantize_phase, simulate_failures,
};
use rand::rngs::StdRng;
use rand::{Rng, SeedableRng};

/// The elementary functions of the standard library.
fn math(e: Elementary<f64>) -> f64 {
    match e {
        Elementary::Pi => std::f64::consts::PI,
        Elementary::Sin(a) => a.sin(),
        Elementary::Cos(a) => a.cos(),
        Elementary::Asin(a) => a.asin(),
        Elementary::Atan2(y, x) => y.atan2(x),
        Elementary::Acosh(a) => a.acosh(),
        Elementary::Sqrt(a) => a.sqrt(),
        Elementary::Hypot(a, b) => a.hypot(b),
        Elementary::Exp(a) => a.exp(),
        Elementary::Log10(a) => a.log10(),
        Elementary::Pow(a, b) => a.powf(b),
        Elementary::Abs(a) => a.abs(),
        Elementary::Round(a) => a.round(),
        Elementary::ToRadians(a) => a.to_radians(),
        Elementary::ToDegrees(a) => a.to_degrees(),
    }
}

fn parts(w: &[Complex<f64>]) -> Vec<(f64, f64)> {
    w.iter().map(|z| (z.re, z.im)).collect()
}

fn ones(n: usize) -> Vec<Complex<f64>> {
    vec![Complex { re: 1.0, im: 0.0 }; n]
}

#[test]
fn element_patterns_are_powers_of_the_cosine() {
    let theta = [0.0, 1.0, 2.0];
    assert_eq!(element_pattern_cosq(&theta, 0.0, &math), vec![1.0, 1.0, 1.0]);
    let g = element_pattern_cosq(&theta, 1.5, &math);
    assert_eq!(g, vec![1.0, 1.0_f64.cos().powf(1.5), 0.0]);
}

#[test]
fn element_patterns_are_added_theta_by_theta() {
    let mut p = vec![vec![1.0, 2.0, 3.0], vec![4.0, 5.0, 6.0], vec![7.0, 8.0, 9.0]];
    apply_element_pattern(&mut p, &[0.0, 2.0], &[0.0, 0.0], 1.0, &math);
    assert_eq!(p[0], vec![1.0, 2.0, 3.0]);
    // Behind the array the gain is held at 10 to the power of -15.
    assert_eq!(p[1], vec![4.0 - 300.0, 5.0 - 300.0, 6.0]);
    assert_eq!(p[2], vec![7.0, 8.0, 9.0]);
}

#[test]
fn no_phi_leaves_the_pattern_alone() {
    let mut p: Vec<Vec<f64>> = vec![];
    apply_element_pattern(&mut p, &[0.0, 2.0], &[], 1.0, &math);
    assert!(p.is_empty());
}

#[test]
fn the_coupling_matrix_is_toeplitz_and_hermitian() {
    let c = mutual_coupling_matrix(5, 0.3, 2.0, &math);
    assert_eq!((c.rows(), c.cols()), (5, 5));
    for i in 0..5 {
        assert_eq!((c.get(i, i).re, c.get(i, i).im), (1.0, 0.0));
        for j in 0..i {
            let (z, w) = (c.get(i, j), c.get(j, i));
            assert_eq!((z.re, z.im), (w.re, -w.im));
        }
    }
    for i in 0..4 {
        for j in 0..4 {
            let (z, w) = (c.get(i, j), c.get(i + 1, j + 1));
            assert_eq!((z.re, z.im), (w.re, w.im));
        }
    }
    let amplitude = 0.3 * (-2.0_f64 / 2.0).exp();
    let phase = std::f64::consts::PI * 2.0 * 0.1;
    let z = c.get(1, 3);
    assert_eq!((z.re, z.im), (amplitude * phase.cos(), amplitude * phase.sin()));
}

#[test]
fn no_bits_quantize_nothing() {
    let mut w = vec![Complex { re: 0.3, im: 0.4 }];
    assert_eq!(quantize_phase(&mut w, 0, &math), 0.0);
    assert_eq!(parts(&w), vec![(0.3, 0.4)]);
}

#[test]
fn one_bit_leaves_two_phases() {
    let mut w = vec![Complex { re: 3.0, im: 4.0 }, Complex { re: 1.0, im: 0.0 }];
    let rms = quantize_phase(&mut w, 1, &math);
    assert_eq!(parts(&w), vec![(5.0, 0.0), (1.0, 0.0)]);
    let e = 4.0_f64.atan2(3.0);
    assert_eq!(rms, (e * e / 2.0).sqrt().to_degrees());
}

#[test]
fn quantized_phases_are_multiples_of_the_step() {
    let mut w: Vec<Complex<f64>> = (0..30)
        .map(|i| Complex { re: (i as f64).cos(), im: (i as f64).sin() })
        .collect();
    quantize_phase(&mut w, 3, &math);
    let step = 2.0 * std::f64::consts::PI / 8.0;
    for z in &w {
        let turns = z.im.atan2(z.re) / step;
        assert!((turns - turns.round()).abs() < 1e-9);
        assert!((z.re.hypot(z.im) - 1.0).abs() < 1e-12);
    }
}

#[test]
fn quantization_is_off_by_half_a_step_at_the_most() {
    let w: Vec<Complex<f64>> = (0..50)
        .map(|i| Complex { re: (0.37 * i as f64).cos(), im: (0.37 * i as f64).sin() })
        .collect();
    for bits in 1..8 {
        let mut q = w.clone();
        let rms = quantize_phase(&mut q, bits, &math);
        let half = 180.0 / phase_levels(bits) as f64;
        assert!(rms > 0.0 && rms <= half + 1e-9);
    }
}

#[test]
fn bits_double_the_phases() {
    assert_eq!(phase_levels(0), 1);
    assert_eq!(phase_levels(4), 16);
    assert_eq!(phase_levels(31), 0x8000_0000);
}

#[test]
fn failures_are_named() {
    assert_eq!(failure_type_named("open"), FailureType::Open);
    assert_eq!(failure_type_named("short"), FailureType::Short);
    assert_eq!(failure_type_named("drift"), FailureType::Drift);
    assert_eq!(failure_type_named("Open"), FailureType::Other);
    assert_eq!(failure_type_named(""), FailureType::Other);
}

#[test]
fn words_stand_for_numbers_below_one() {
    assert_eq!(uniform_from::<f64>(0), 0.0);
    assert_eq!(uniform_from::<f64>(1 << 63), 0.5);
    assert_eq!(uniform_from::<f64>(u64::MAX), 1.0 - 1.0 / 9007199254740992.0);
}

#[test]
fn given_words_decide_the_failures() {
    // Half, nothing, three quarters, one quarter.
    let words = [1 << 63, 0, 3 << 62, 1 << 62, 0, 0];
    let mut w = ones(3);
    assert_eq!(fail_elements(&mut w, 0.5, "open", &words, &math), 1);
    assert_eq!(parts(&w), vec![(1.0, 0.0), (0.0, 0.0), (1.0, 0.0)]);
    // The second element draws its phase from the third word.
    let mut w = ones(3);
    assert_eq!(fail_elements(&mut w, 0.5, "short", &words, &math), 2);
    let phase = 0.75 * 2.0 * std::f64::consts::PI;
    assert_eq!((w[1].re, w[1].im), (phase.cos(), phase.sin()));
    let mut w = ones(3);
    assert_eq!(fail_elements(&mut w, 0.5, "drift", &words, &math), 2);
    let drift: f64 = 0.75 * std::f64::consts::PI / 2.0 - std::f64::consts::PI / 4.0;
    assert_eq!((w[1].re, w[1].im), (drift.cos(), drift.sin()));
    let mut w = ones(3);
    assert_eq!(fail_elements(&mut w, 0.5, "melt", &words, &math), 1);
    assert_eq!(parts(&w), parts(&ones(3)));
}

#[test]
fn failures_follow_the_standard_generator() {
    for seed in [0, 7, 42] {
        let mut rng = StdRng::seed_from_u64(seed);
        let mut want = vec![];
        let mut n = 0;
        for _ in 0..50 {
            if rng.gen::<f64>() < 0.4 {
                n += 1;
                let phase = rng.gen::<f64>() * 2.0 * std::f64::consts::PI;
                want.push((phase.cos(), phase.sin()));
            } else {
                want.push((1.0, 0.0));
            }
        }
        let mut w = ones(50);
        assert_eq!(simulate_failures(&mut w, 0.4, "short", seed, &math), n);
        assert_eq!(parts(&w), want);
    }
}

#[test]
fn rates_at_the_ends_fail_nothing_or_everything() {
    let mut w = ones(20);
    assert_eq!(simulate_failures(&mut w, 0.0, "open", 1, &math), 0);
    assert_eq!(parts(&w), parts(&ones(20)));
    assert_eq!(simulate_failures(&mut w, 1.0, "open", 1, &math), 20);
    assert!(w.iter().all(|z| z.re == 0.0 && z.im == 0.0));
}

#[test]
fn open_failures_grow_with_the_rate() {
    let mut last = vec![false; 40];
    for rate in [0.1, 0.3, 0.6, 0.9] {
        let mut w = ones(40);
        let n = simulate_failures(&mut w, rate, "open", 5, &math);
        let failed: Vec<bool> = w.iter().map(|z| z.re == 0.0).collect();
        assert_eq!(n, failed.iter().filter(|f| **f).count());
        assert!((0..40).all(|i| !last[i] || failed[i]));
        last = failed;
        // An unknown kind fails as often, and changes nothing.
        let mut w = ones(40);
        assert_eq!(simulate_failures(&mut w, rate, "melt", 5, &math), n);
        assert_eq!(parts(&w), parts(&ones(40)));
    }
}

#[test]
fn short_and_drift_keep_the_modulus() {
    for kind in ["short", "drift"] {
        let mut w: Vec<Complex<f64>> =
            (0..30).map(|i| Complex { re: i as f64, im: 1.0 - i as f64 }).collect();
        let before: Vec<f64> = w.iter().map(|z| z.norm(&math)).collect();
        assert!(simulate_failures(&mut w, 0.7, kind, 3, &math) > 0);
        for i in 0..30 {
            assert!((w[i].norm(&math) - before[i]).abs() < 1e-12);
        }
    }
}

#[test]
fn exponent_zero_leaves_the_pattern_alone() {
    let mut p = vec![vec![-3.5, 0.0], vec![-120.0, -0.25]];
    let before = p.clone();
    apply_element_pattern(&mut p, &[0.4, 2.9], &[0.0, 7.0], 0.0, &math);
    assert_eq!(p, before);
}

#[test]
fn a_beam_squints_towards_broadside_above_its_frequency() {
    let (theta, squint) = beam_squint_analysis(30.0, 10.0, &[-1.0, 0.0, 1.0], &math);
    assert!((theta[1] - 30.0).abs() < 1e-12);
    assert!(squint[1].abs() < 1e-12);
    assert!(squint[0] > 0.0 && squint[2] < 0.0);
    let sine = 10.0 / 11.0 * 30.0_f64.to_radians().sin();
    assert_eq!(theta[2], sine.asin().to_degrees());
    assert_eq!(squint[2], theta[2] - 30.0);
}

#[test]
fn a_beam_cannot_point_beyond_the_horizon() {
    let (theta, _) = beam_squint_analysis(60.0, 10.0, &[-9.0], &math);
    assert_eq!(theta, vec![90.0]);
    let (theta, _) = beam_squint_analysis(-60.0, 10.0, &[-9.0], &math);
    assert_eq!(theta, vec![-90.0]);
}
