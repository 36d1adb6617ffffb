//! Linear algebra, eigenvectors, snapshots, MUSIC, ESPRIT and MVDR.
use phased_array_rs::complex::Complex;
use phased_array_rs::eigen::eigen_hermitian;
use phased_array_rs::linalg::{apply, conjugate_transpose, invert_2d, multiply};
use phased_array_rs::ranking::rank;
use phased_array_rs::scalar::Elementary;
use phased_array_rs::super_res::{
    covariance_eigendecomp, covariance_of, eigen_2x2, line_positions, music_power, snapshots_from,
    to_relative_levels,
};
use phased_array_rs::table::Matrix;
use phased_array_rs::{esprit_ula, generate_snapshots, music_ula, mvdr_weights};
use rand::rngs::StdRng;
use rand::{Rng, SeedableRng};

/// The elementary functions of the standard library.
fn math(e: Elementary<f64>) -> f64 {
    match e {
        Elementary::Pi => std::f64::consts::PI,
        Elementary::Sin(a) => a.sin(),
        Elementary::Cos(a) => a.cos(),
        Elementary::Asin(a) => a.asin(),
        Elementary::Atan2(y, x) => y.atan2(x),
        Elementary::Acosh(a) => a.acosh(),
        Elementary::Sqrt(a) => a.sqrt(),
        Elementary::Hypot(a, b) => a.hypot(b),
        Elementary::Exp(a) => a.exp(),
        Elementary::Log10(a) => a.log10(),
        Elementary::Pow(a, b) => a.powf(b),
        Elementary::Abs(a) => a.abs(),
        Elementary::Round(a) => a.round(),
        Elementary::ToRadians(a) => a.to_radians(),
        Elementary::ToDegrees(a) => a.to_degrees(),
    }
}

fn root(z: Complex<f64>) -> Complex<f64> {
    let w = num_complex::Complex64::new(z.re, z.im).sqrt();
    c(w.re, w.im)
}

fn c(re: f64, im: f64) -> Complex<f64> {
    Complex { re, im }
}

fn matrix(rows: &[&[(f64, f64)]]) -> Matrix<Complex<f64>> {
    Matrix::build(rows.len(), rows[0].len(), |i: usize, j: usize| c(rows[i][j].0, rows[i][j].1))
}

fn close(z: Complex<f64>, re: f64, im: f64) -> bool {
    (z.re - re).abs() < 1e-9 && (z.im - im).abs() < 1e-9
}

#[test]
fn values_are_ranked_from_the_largest_down() {
    assert_eq!(rank(&[1.0, 3.0, 2.0]), Some(vec![1, 2, 0]));
    assert_eq!(rank(&[2.0, 1.0, 2.0, 3.0, 1.0]), Some(vec![3, 0, 2, 1, 4]));
    assert_eq!(rank::<f64>(&[]), Some(vec![]));
}

#[test]
fn what_cannot_be_compared_is_not_ranked() {
    assert_eq!(rank(&[1.0, f64::NAN]), None);
    assert_eq!(rank(&[f64::NAN]), Some(vec![0]));
}

#[test]
fn products_and_conjugate_transposes() {
    let a = matrix(&[&[(1.0, 0.0), (0.0, 1.0)], &[(2.0, 0.0), (1.0, -1.0)]]);
    let b = conjugate_transpose(&a);
    assert!(close(b.get(0, 1), 2.0, 0.0) && close(b.get(1, 0), 0.0, -1.0));
    assert!(close(b.get(1, 1), 1.0, 1.0));
    let p = multiply(&a, &b);
    assert!(close(p.get(0, 0), 2.0, 0.0));
    assert!(close(p.get(0, 1), 1.0, 1.0));
    assert!(close(p.get(1, 1), 6.0, 0.0));
    let v = apply(&a, &[c(1.0, 0.0), c(0.0, 1.0)]);
    assert!(close(v[0], 0.0, 0.0) && close(v[1], 3.0, 1.0));
}

#[test]
fn transposing_twice_gives_the_matrix_back() {
    let a = matrix(&[&[(1.0, 2.0), (3.0, 4.0), (5.0, 6.0)]]);
    let b = conjugate_transpose(&conjugate_transpose(&a));
    assert_eq!((b.rows(), b.cols()), (1, 3));
    for j in 0..3 {
        assert!(close(b.get(0, j), a.get(0, j).re, a.get(0, j).im));
    }
}

#[test]
fn an_inverse_inverts_and_solves() {
    let a = matrix(&[
        &[(4.0, 0.0), (1.0, 1.0), (0.0, 0.5)],
        &[(1.0, -1.0), (3.0, 0.0), (0.2, 0.0)],
        &[(0.0, -0.5), (0.2, 0.0), (5.0, 0.0)],
    ]);
    let b = invert_2d(&a, &math);
    for p in [multiply(&a, &b), multiply(&b, &a)] {
        for i in 0..3 {
            for j in 0..3 {
                assert!(close(p.get(i, j), if i == j { 1.0 } else { 0.0 }, 0.0));
            }
        }
    }
    let rhs = [c(1.0, 0.0), c(0.0, 2.0), c(-1.0, 1.0)];
    let x = apply(&b, &rhs);
    let back = apply(&a, &x);
    for i in 0..3 {
        assert!(close(back[i], rhs[i].re, rhs[i].im));
    }
}

#[test]
fn a_negligible_pivot_is_passed_over() {
    let b = invert_2d(&matrix(&[&[(0.0, 0.0), (1.0, 0.0)], &[(1.0, 0.0), (2.0, 0.0)]]), &math);
    // Only the second column is cleared.
    assert!(close(b.get(0, 0), 1.0, 0.0) && close(b.get(0, 1), -0.5, 0.0));
    assert!(close(b.get(1, 0), 0.0, 0.0) && close(b.get(1, 1), 0.5, 0.0));
}

#[test]
fn a_pivot_is_usable_down_to_ten_to_the_minus_twelve() {
    let b = invert_2d(&matrix(&[&[(2e-12, 0.0)]]), &math);
    assert!((b.get(0, 0).re - 5e11).abs() < 1.0);
    let b = invert_2d(&matrix(&[&[(5e-13, 0.0)]]), &math);
    assert!(close(b.get(0, 0), 1.0, 0.0));
}

#[test]
fn a_real_symmetric_matrix_is_diagonalized() {
    let a = matrix(&[
        &[(2.0, 0.0), (-1.0, 0.0), (0.0, 0.0)],
        &[(-1.0, 0.0), (2.0, 0.0), (-1.0, 0.0)],
        &[(0.0, 0.0), (-1.0, 0.0), (2.0, 0.0)],
    ]);
    let (values, v) = eigen_hermitian(&a, 3, &math).unwrap();
    let r = 2.0_f64.sqrt();
    for (got, want) in values.iter().zip([2.0 + r, 2.0, 2.0 - r]) {
        assert!((got - want).abs() < 1e-9);
    }
    for j in 0..3 {
        let column: Vec<Complex<f64>> = (0..3).map(|i| v.get(i, j)).collect();
        let image = apply(&a, &column);
        for i in 0..3 {
            assert!(close(image[i], values[j] * column[i].re, values[j] * column[i].im));
        }
    }
}

/// The matrix takes each column to its multiple by the value of the column.
fn check_eigenpairs(a: &Matrix<Complex<f64>>, n: usize) -> Vec<f64> {
    let (values, v) = eigen_hermitian(a, n, &math).unwrap();
    for j in 0..n {
        let column: Vec<Complex<f64>> = (0..n).map(|i| v.get(i, j)).collect();
        let image = apply(a, &column);
        for i in 0..n {
            let want = column[i].scale(values[j]);
            assert!((image[i].re - want.re).abs() < 1e-8);
            assert!((image[i].im - want.im).abs() < 1e-8);
        }
    }
    values
}

#[test]
fn a_complex_hermitian_matrix_is_diagonalized() {
    let values =
        check_eigenpairs(&matrix(&[&[(2.0, 0.0), (0.0, 1.0)], &[(0.0, -1.0), (2.0, 0.0)]]), 2);
    assert!((values[0] - 3.0).abs() < 1e-9 && (values[1] - 1.0).abs() < 1e-9);
    let values = check_eigenpairs(
        &matrix(&[
            &[(1.0, 0.0), (0.5, -2.0), (0.0, 0.3)],
            &[(0.5, 2.0), (-1.0, 0.0), (1.5, 1.0)],
            &[(0.0, -0.3), (1.5, -1.0), (4.0, 0.0)],
        ]),
        3,
    );
    // The rotations keep the trace.
    assert!((values.iter().sum::<f64>() - 4.0).abs() < 1e-9);
}

#[test]
fn covariances_of_snapshots_are_diagonalized() {
    for seed in 0..5 {
        let x = generate_snapshots(6, 12, &[-35.0, 10.0], 10.0, seed, &math);
        let r = covariance_of(&x);
        let values = check_eigenpairs(&r, 6);
        let trace: f64 = (0..6).map(|i| r.get(i, i).re).sum();
        assert!((values.iter().sum::<f64>() - trace).abs() < 1e-9);
        assert!(values.iter().all(|v| *v > 0.0));
    }
}

#[test]
fn eigenvectors_are_orthonormal_and_values_descend() {
    let x = generate_snapshots(6, 20, &[-20.0, 30.0], 10.0, 3, &math);
    let (values, v) = covariance_eigendecomp(&x, &math).unwrap();
    for k in 1..6 {
        assert!(values[k - 1] >= values[k]);
    }
    let g = multiply(&conjugate_transpose(&v), &v);
    for i in 0..6 {
        for j in 0..6 {
            assert!(close(g.get(i, j), if i == j { 1.0 } else { 0.0 }, 0.0));
        }
    }
}

#[test]
fn a_diagonal_matrix_is_only_sorted() {
    let a = matrix(&[&[(1.0, 0.0), (0.0, 0.0)], &[(0.0, 0.0), (5.0, 0.0)]]);
    let (values, v) = eigen_hermitian(&a, 2, &math).unwrap();
    assert_eq!(values, vec![5.0, 1.0]);
    assert!(close(v.get(1, 0), 1.0, 0.0) && close(v.get(0, 0), 0.0, 0.0));
}

#[test]
fn eigenvalues_that_are_no_numbers_are_not_put_in_order() {
    let x = generate_snapshots(3, 0, &[10.0], 10.0, 1, &math);
    assert!(covariance_eigendecomp(&x, &math).is_none());
    assert!(music_ula(3, &x, 1, 10, &math).is_none());
    let x = generate_snapshots(4, 0, &[10.0, 20.0], 10.0, 1, &math);
    assert!(esprit_ula(4, &x, 2, &math, &root).is_none());
}

#[test]
fn two_eigenvalues_add_up_to_the_trace() {
    let a = matrix(&[&[(1.0, 1.0), (2.0, 0.0)], &[(0.5, -0.5), (3.0, 0.0)]]);
    let z = eigen_2x2(&a, &root);
    assert_eq!(z.len(), 2);
    let (sum, product) = (z[0] + z[1], z[0] * z[1]);
    assert!(close(sum, 4.0, 1.0));
    let det = a.get(0, 0) * a.get(1, 1) - a.get(0, 1) * a.get(1, 0);
    assert!(close(product, det.re, det.im));
}

#[test]
fn snapshots_are_drawn_from_the_standard_generator() {
    let (n, k, snr) = (4, 3, 10.0);
    let angles = [-10.0_f64, 25.0];
    let mut rng = StdRng::seed_from_u64(42);
    let draws: Vec<(f64, f64)> = (0..(2 + n) * k)
        .map(|_| {
            let re = rng.gen::<f64>();
            let im = rng.gen::<f64>();
            (re, im)
        })
        .collect();
    let scale = (1.0 / 10.0_f64.powf(snr / 10.0) / 2.0).sqrt();
    let x = generate_snapshots(n, k, &angles, snr, 42, &math);
    let positions: Vec<f64> = line_positions(n);
    for i in 0..n {
        for t in 0..k {
            let mut want = c(0.0, 0.0);
            for (j, angle) in angles.iter().enumerate() {
                let phase =
                    -2.0 * std::f64::consts::PI * positions[i] * angle.to_radians().sin();
                let (re, im) = draws[j * k + t];
                want = want + c(phase.cos(), phase.sin()) * c(re, im);
            }
            let (re, im) = draws[(2 + i) * k + t];
            want = want + c(re * scale, im * scale);
            let got = x.get(i, t);
            assert_eq!((got.re, got.im), (want.re, want.im));
        }
    }
}

#[test]
fn snapshots_without_randomness_are_silent() {
    let x = snapshots_from(2, 2, &[15.0], 10.0, &[0; 12], &math);
    for i in 0..2 {
        for k in 0..2 {
            assert!(close(x.get(i, k), 0.0, 0.0));
        }
    }
}

#[test]
fn elements_stand_half_a_wavelength_apart() {
    assert_eq!(line_positions::<f64>(4), vec![-0.75, -0.25, 0.25, 0.75]);
    assert!(line_positions::<f64>(0).is_empty());
}

#[test]
fn a_covariance_is_the_mean_of_products() {
    let x = matrix(&[&[(1.0, 0.0), (0.0, 1.0)], &[(2.0, 0.0), (0.0, 0.0)]]);
    let r = covariance_of(&x);
    assert!(close(r.get(0, 0), 1.0, 0.0));
    assert!(close(r.get(0, 1), 1.0, 0.0));
    assert!(close(r.get(1, 1), 2.0, 0.0));
}

#[test]
fn a_covariance_is_hermitian() {
    let r = covariance_of(&generate_snapshots(5, 7, &[-10.0, 40.0], 5.0, 9, &math));
    for i in 0..5 {
        assert_eq!(r.get(i, i).im, 0.0);
        for j in 0..5 {
            assert!(close(r.get(j, i), r.get(i, j).re, -r.get(i, j).im));
        }
    }
}

#[test]
fn relative_levels_peak_at_zero() {
    assert_eq!(to_relative_levels(&[1.0, 100.0, 10.0], &math), vec![-20.0, 0.0, -10.0]);
}

#[test]
fn the_spectrum_is_highest_where_nothing_of_the_noise_is_seen() {
    // With the identity for a basis and one source, the noise space is the second element.
    let basis = matrix(&[&[(1.0, 0.0), (0.0, 0.0)], &[(0.0, 0.0), (1.0, 0.0)]]);
    assert_eq!(music_power(&basis, &[-0.25, 0.25], 1, 0.0, &math), 1.0 / (1.0 + 1e-15));
    assert_eq!(music_power(&basis, &[-0.25, 0.25], 2, 0.0, &math), 1.0 / 1e-15);
}

#[test]
fn music_scans_from_horizon_to_horizon() {
    let x = generate_snapshots(8, 50, &[-20.0, 30.0], 20.0, 42, &math);
    let (theta, spectrum) = music_ula(8, &x, 2, 181, &math).unwrap();
    assert_eq!(theta.len(), 181);
    assert_eq!((theta[0], theta[180]), (-90.0, 90.0));
    assert_eq!(theta[45], -90.0 + 180.0 * 45.0 / 180.0);
    assert_eq!(spectrum.iter().cloned().fold(f64::NEG_INFINITY, f64::max), 0.0);
}

#[test]
fn music_finds_simulated_sources() {
    let x = generate_snapshots(10, 200, &[-20.0, 30.0], 20.0, 42, &math);
    let (theta, spectrum) = music_ula(10, &x, 2, 361, &math).unwrap();
    let mut peaks: Vec<usize> = (1..360)
        .filter(|&i| spectrum[i] > spectrum[i - 1] && spectrum[i] > spectrum[i + 1])
        .collect();
    peaks.sort_by(|&a, &b| spectrum[b].partial_cmp(&spectrum[a]).unwrap());
    let mut found = [theta[peaks[0]], theta[peaks[1]]];
    found.sort_by(|a, b| a.partial_cmp(b).unwrap());
    assert!((found[0] + 20.0).abs() < 1.0 && (found[1] - 30.0).abs() < 1.0);
}

#[test]
fn esprit_finds_simulated_sources() {
    let x = generate_snapshots(10, 200, &[-20.0, 30.0], 20.0, 42, &math);
    let angles = esprit_ula(10, &x, 2, &math, &root).unwrap();
    assert!((angles[0] + 20.0).abs() < 1.0 && (angles[1] - 30.0).abs() < 1.0);
}

#[test]
fn with_as_many_sources_as_elements_there_is_no_noise() {
    // More elements than rows are taken where no noise column is read.
    let x = generate_snapshots(3, 5, &[10.0], 20.0, 42, &math);
    let (_, spectrum) = music_ula(5, &x, 5, 7, &math).unwrap();
    assert_eq!(spectrum, vec![0.0; 7]);
}

#[test]
fn mvdr_without_snapshots_has_no_weights_that_are_numbers() {
    let x = generate_snapshots(2, 0, &[10.0], 20.0, 42, &math);
    let w = mvdr_weights(&[0.0, 0.5, 1.0], &[0.0; 3], &x, 0.0, 1e-4, &math);
    assert_eq!(w.len(), 3);
    assert!(w.iter().all(|z| z.re.is_nan()));
}

#[test]
fn the_middle_element_sees_no_direction() {
    let x = generate_snapshots(5, 4, &[-20.0, 30.0], 10.0, 7, &math);
    let y = generate_snapshots(5, 4, &[55.0, 1.0], 10.0, 7, &math);
    for k in 0..4 {
        assert!(close(x.get(2, k), y.get(2, k).re, y.get(2, k).im));
    }
}

#[test]
fn inverting_twice_gives_the_matrix_back() {
    let a = matrix(&[&[(3.0, 0.0), (1.0, 2.0)], &[(1.0, -2.0), (4.0, 0.0)]]);
    let b = invert_2d(&invert_2d(&a, &math), &math);
    for i in 0..2 {
        for j in 0..2 {
            assert!(close(b.get(i, j), a.get(i, j).re, a.get(i, j).im));
        }
    }
}

#[test]
fn mvdr_has_the_least_power() {
    let x = generate_snapshots(4, 30, &[-30.0, 50.0], 10.0, 42, &math);
    let positions: Vec<f64> = line_positions(4);
    let w = mvdr_weights(&positions, &[0.0; 4], &x, 0.0, 1e-3, &math);
    let cov = covariance_of(&x);
    let power_of = |v: &[Complex<f64>]| {
        let image = apply(&cov, v);
        (0..4).map(|i| (v[i].conj() * image[i]).re + 1e-3 * v[i].norm_sqr()).sum::<f64>()
    };
    // Other weights that add up to one, as the look direction at broadside asks.
    for v in [[0.25, 0.25, 0.25, 0.25], [1.0, 0.0, 0.0, 0.0], [0.7, -0.1, 0.1, 0.3]] {
        let v: Vec<Complex<f64>> = v.iter().map(|r| c(*r, 0.0)).collect();
        let u: Vec<Complex<f64>> = (0..4).map(|i| v[i] - w[i]).collect();
        assert!((power_of(&v) - power_of(&w) - power_of(&u)).abs() < 1e-9);
        assert!(power_of(&v) >= power_of(&w));
    }
}

#[test]
fn music_over_no_angles_is_empty() {
    let x = generate_snapshots(3, 5, &[10.0], 20.0, 42, &math);
    let (theta, spectrum) = music_ula(3, &x, 1, 0, &math).unwrap();
    assert!(theta.is_empty() && spectrum.is_empty());
}

#[test]
fn esprit_estimates_ascend() {
    let x = generate_snapshots(8, 100, &[-20.0, 30.0], 30.0, 42, &math);
    let angles = esprit_ula(8, &x, 2, &math, &root).unwrap();
    assert_eq!(angles.len(), 2);
    assert!(angles[0] <= angles[1]);
}

#[test]
fn esprit_finds_two_real_exponents() {
    // Two sources at broadside and at the horizon: the rows of the snapshots repeat with
    // the signs of their steering vectors, which keeps every entry real.
    let s = [[1.0, -2.0, 0.5, 3.0], [0.3, 1.0, -2.0, 0.7]];
    let x = Matrix::build(4, 4, |i: usize, k: usize| {
        let sign = if i % 2 == 0 { 1.0 } else { -1.0 };
        c(s[0][k] + sign * s[1][k], 0.0)
    });
    let angles = esprit_ula(4, &x, 2, &math, &root).unwrap();
    assert!((angles[0].abs() - 0.0).abs() < 1e-3 || (angles[1].abs() - 0.0).abs() < 1e-3);
    assert!((angles[0].abs() - 90.0).abs() < 1e-3 || (angles[1].abs() - 90.0).abs() < 1e-3);
}

#[test]
fn mvdr_lets_the_look_direction_pass() {
    let x = generate_snapshots(6, 40, &[-30.0, 45.0], 10.0, 42, &math);
    let positions: Vec<f64> = line_positions(6);
    for look in [0.0_f64, 20.0, -50.0] {
        let w = mvdr_weights(&positions, &[0.0; 6], &x, look, 1e-4, &math);
        let mut response = c(0.0, 0.0);
        for i in 0..6 {
            let phase = 2.0 * std::f64::consts::PI * positions[i] * look.to_radians().sin();
            response = response + c(phase.cos(), phase.sin()) * w[i];
        }
        assert!(close(response, 1.0, 0.0));
    }
}

#[test]
fn mvdr_meets_its_equations() {
    let x = generate_snapshots(4, 10, &[-30.0], 10.0, 42, &math);
    let positions: Vec<f64> = line_positions(4);
    let w = mvdr_weights(&positions, &[0.0; 4], &x, 0.0, 1e-2, &math);
    let cov = covariance_of(&x);
    let loaded = Matrix::build(4, 4, |i: usize, j: usize| {
        if i == j { c(cov.get(i, i).re + 1e-2, cov.get(i, i).im) } else { cov.get(i, j) }
    });
    // The loaded covariance takes the weights to a multiple of the look vector, all ones.
    let image = apply(&loaded, &w);
    for i in 1..4 {
        assert!(close(image[i], image[0].re, image[0].im));
    }
}

#[test]
fn mvdr_of_white_noise_is_the_mean() {
    let x = matrix(&[&[(1.0, 0.0), (0.0, 0.0)], &[(0.0, 0.0), (1.0, 0.0)]]);
    let w = mvdr_weights(&[-0.25, 0.25], &[0.0, 0.0], &x, 0.0, 0.5, &math);
    assert!(close(w[0], 0.5, 0.0) && close(w[1], 0.5, 0.0));
}

#[test]
fn products_agree_with_ndarray() {
    let a = generate_snapshots(4, 5, &[-20.0, 30.0], 10.0, 7, &math);
    let b = generate_snapshots(5, 3, &[10.0], 10.0, 8, &math);
    let plain = |m: &Matrix<Complex<f64>>, rows: usize, cols: usize| {
        ndarray::Array2::from_shape_fn((rows, cols), |(i, j)| {
            num_complex::Complex64::new(m.get(i, j).re, m.get(i, j).im)
        })
    };
    let want = plain(&a, 4, 5).dot(&plain(&b, 5, 3));
    let got = multiply(&a, &b);
    for i in 0..4 {
        for j in 0..3 {
            assert!(close(got.get(i, j), want[[i, j]].re, want[[i, j]].im));
        }
    }
}

#[test]
fn one_rotation_diagonalizes_two_rows() {
    let (app, apq, aqq) = (2.0_f64, 0.3_f64, 1.1_f64);
    let a = matrix(&[&[(app, 0.0), (apq, 0.0)], &[(apq, 0.0), (aqq, 0.0)]]);
    let theta = 0.5 * (2.0 * apq.hypot(0.0)).atan2(app - aqq);
    let (co, si) = (theta.cos(), theta.sin() * apq / apq.hypot(0.0).max(1e-15));
    // To the last bit, the sums as they are written.
    let first = app * co * co + aqq * (si * si) + 2.0 * apq * co * si;
    let second = app * (si * si) + aqq * co * co - 2.0 * apq * co * si;
    let (values, _) = eigen_hermitian(&a, 2, &math).unwrap();
    assert_eq!(values, vec![first, second]);
}

#[test]
fn rotations_lower_what_is_off_the_diagonal_until_it_is_small() {
    let x = generate_snapshots(6, 12, &[-35.0, 10.0], 10.0, 4, &math);
    let r = covariance_of(&x);
    let (values, v) = eigen_hermitian(&r, 6, &math).unwrap();
    // The squared residual of each pair is within the tolerance.
    for j in 0..6 {
        let column: Vec<Complex<f64>> = (0..6).map(|i| v.get(i, j)).collect();
        let image = apply(&r, &column);
        let missed: f64 =
            (0..6).map(|i| (image[i] - column[i].scale(values[j])).norm_sqr()).sum();
        assert!(missed <= 6.0 * 1e-20);
    }
    // What was off the diagonal is on it now: the sum of all powers is kept.
    let all: f64 = (0..36).map(|k| r.get(k / 6, k % 6).norm_sqr()).sum();
    let squares: f64 = values.iter().map(|l| l * l).sum();
    assert!((all - squares).abs() < 1e-9 * all);
}

#[test]
fn esprit_gives_back_the_directions_without_noise() {
    let angles = [-25.0_f64, 40.0];
    let position: Vec<f64> = line_positions(6);
    let s = [[(1.0, 0.2), (-2.0, 0.0), (0.5, 1.0), (3.0, -1.0)],
        [(0.3, -0.7), (1.0, 1.0), (-2.0, 0.1), (0.7, 0.4)]];
    let x = Matrix::build(6, 4, |i: usize, k: usize| {
        let mut sum = c(0.0, 0.0);
        for j in 0..2 {
            let phase =
                -2.0 * std::f64::consts::PI * position[i] * angles[j].to_radians().sin();
            sum = sum + c(phase.cos(), phase.sin()) * c(s[j][k].0, s[j][k].1);
        }
        sum
    });
    let found = esprit_ula(6, &x, 2, &math, &root).unwrap();
    assert!((found[0] + 25.0).abs() < 1e-6 && (found[1] - 40.0).abs() < 1e-6);
}

#[test]
fn loading_is_a_floor_under_the_power() {
    // Fewer snapshots than elements: without loading there would be no inverse.
    let x = generate_snapshots(5, 2, &[-30.0, 20.0], 10.0, 9, &math);
    let cov = covariance_of(&x);
    let loading = 1e-3;
    let power_of = |v: &[Complex<f64>]| {
        let image = apply(&cov, v);
        (0..5).map(|i| (v[i].conj() * image[i]).re + loading * v[i].norm_sqr()).sum::<f64>()
    };
    let positions: Vec<f64> = line_positions(5);
    let w = mvdr_weights(&positions, &[0.0; 5], &x, 0.0, loading, &math);
    let response = (0..5).fold(c(0.0, 0.0), |sum, i| sum + w[i]);
    assert!(close(response, 1.0, 0.0));
    for v in [[0.2, 0.2, 0.2, 0.2, 0.2], [1.0, -1.0, 1.0, -1.0, 1.0], [0.0, 0.0, 1.0, 0.0, 0.0]] {
        let v: Vec<Complex<f64>> = v.iter().map(|r| c(*r, 0.0)).collect();
        let length: f64 = v.iter().map(|z| z.norm_sqr()).sum();
        assert!(power_of(&v) >= loading * length - 1e-12);
        assert!(power_of(&v) > power_of(&w));
    }
}
