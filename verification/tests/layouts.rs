//! Element layouts and tapers.
use phased_array_rs::array::{
    circular_positions, rect_positions, triangular_positions, ArrayConfig, ArrayGeometry,
};
use phased_array_rs::beamforming::{
    cosine_window, radial_taper, separable_window, taylor_1d, BeamConfig, TaperType,
};
use phased_array_rs::scalar::Elementary;
use phased_array_rs::{apply_taper, generate_positions};

/// The elementary functions of the standard library.
fn math(e: Elementary<f64>) -> f64 {
    match e {
        Elementary::Pi => std::f64::consts::PI,
        Elementary::Sin(a) => a.sin(),
        Elementary::Cos(a) => a.cos(),
        Elementary::Asin(a) => a.asin(),
        Elementary::Atan2(y, x) => y.atan2(x),
        Elementary::Acosh(a) => a.acosh(),
        Elementary::Sqrt(a) => a.sqrt(),
        Elementary::Hypot(a, b) => a.hypot(b),
        Elementary::Exp(a) => a.exp(),
        Elementary::Log10(a) => a.log10(),
        Elementary::Pow(a, b) => a.powf(b),
        Elementary::Abs(a) => a.abs(),
        Elementary::Round(a) => a.round(),
        Elementary::ToRadians(a) => a.to_radians(),
        Elementary::ToDegrees(a) => a.to_degrees(),
    }
}

fn truncate(a: f64) -> usize {
    a as usize
}

fn config(geometry: ArrayGeometry, nx: usize, ny: usize) -> ArrayConfig<f64> {
    ArrayConfig { geometry, nx, ny, dx: 0.5, dy: 0.5 }
}

#[test]
fn standard_array_is_eight_by_eight_at_half_a_wavelength() {
    let cfg: ArrayConfig<f64> = ArrayConfig::standard();
    assert_eq!(cfg.geometry, ArrayGeometry::Rectangular);
    assert_eq!((cfg.nx, cfg.ny), (8, 8));
    assert_eq!((cfg.dx, cfg.dy), (0.5, 0.5));
}

#[test]
fn standard_beam_is_broadside_and_uniform() {
    let beam: BeamConfig<f64> = BeamConfig::standard();
    assert_eq!((beam.theta_deg, beam.phi_deg), (0.0, 0.0));
    assert_eq!(beam.taper, TaperType::Uniform);
    assert_eq!(beam.sidelobe_db, -30.0);
}

#[test]
fn geometries_and_tapers_have_names() {
    assert_eq!(ArrayGeometry::Rectangular.name(), "rectangular");
    assert_eq!(ArrayGeometry::Circular.name(), "circular");
    assert_eq!(ArrayGeometry::Triangular.name(), "triangular");
    assert_eq!(ArrayGeometry::Rectangular.label(), "Rectangular Grid");
    assert_eq!(ArrayGeometry::Circular.label(), "Circular Array");
    assert_eq!(ArrayGeometry::Triangular.label(), "Triangular Grid");
    assert_eq!(TaperType::Uniform.name(), "uniform");
    assert_eq!(TaperType::Taylor.name(), "taylor");
    assert_eq!(TaperType::Hamming.name(), "hamming");
    assert_eq!(TaperType::Hanning.name(), "hanning");
}

#[test]
fn rectangular_grid_is_read_row_by_row() {
    let (x, y) = rect_positions(3, 2, 0.5, 1.0);
    assert_eq!(x, vec![-0.5, 0.0, 0.5, -0.5, 0.0, 0.5]);
    assert_eq!(y, vec![-0.5, -0.5, -0.5, 0.5, 0.5, 0.5]);
}

#[test]
fn empty_grids_have_no_elements() {
    let (x, y) = rect_positions(0, 5, 0.5, 0.5);
    assert!(x.is_empty() && y.is_empty());
    let (x, y) = circular_positions(0, 5, 0.5, &math, &truncate);
    assert!(x.is_empty() && y.is_empty());
    let (x, y) = triangular_positions(5, 0, 0.5, 0.5, &math);
    assert!(x.is_empty() && y.is_empty());
}

#[test]
fn grids_are_centred() {
    let (x, y) = rect_positions(4, 5, 0.5, 0.5);
    for k in 0..20 {
        assert_eq!(x[k] + x[19 - k], 0.0);
        assert_eq!(y[k] + y[19 - k], 0.0);
    }
}

#[test]
fn triangular_grid_shifts_every_other_row() {
    let (x, y) = triangular_positions(2, 3, 1.0, 1.0, &math);
    assert_eq!(x, vec![-0.5, 0.5, 0.0, 1.0, -0.5, 0.5]);
    let h = 3.0_f64.sqrt() / 2.0;
    assert_eq!(y, vec![-h, -h, 0.0, 0.0, h, h]);
}

#[test]
fn rings_grow_with_their_circumference() {
    let (x, y) = circular_positions(3, 4, 0.5, &math, &truncate);
    // Seven elements on the first ring, thirteen on the second, nineteen on the third.
    assert_eq!(x.len(), 7 + 13 + 19);
    assert_eq!(y.len(), x.len());
    assert_eq!((x[0], y[0]), (0.5, 0.0));
    assert_eq!((x[7], y[7]), (1.0, 0.0));
    assert_eq!((x[20], y[20]), (1.5, 0.0));
    let angle = 2.0 * std::f64::consts::PI * 3.0 / 13.0;
    assert_eq!((x[10], y[10]), (angle.cos(), angle.sin()));
}

#[test]
fn a_ring_holds_six_elements_at_the_least() {
    let (x, _) = circular_positions(1, 1, 0.5, &math, &|_: f64| 2_usize);
    assert_eq!(x.len(), 6);
}

#[test]
fn the_geometry_picks_the_layout() {
    let (x, y) = generate_positions(&config(ArrayGeometry::Rectangular, 3, 2), &math, &truncate);
    assert_eq!((x, y), rect_positions(3, 2, 0.5, 0.5));
    let (x, y) = generate_positions(&config(ArrayGeometry::Circular, 3, 2), &math, &truncate);
    assert_eq!((x, y), circular_positions(3, 2, 0.5, &math, &truncate));
    let (x, y) = generate_positions(&config(ArrayGeometry::Triangular, 3, 2), &math, &truncate);
    assert_eq!((x, y), triangular_positions(3, 2, 0.5, 0.5, &math));
}

#[test]
fn a_uniform_taper_is_all_ones() {
    let w = apply_taper(&[0.1; 5], &[0.2; 5], 9, 9, &TaperType::Uniform, -30.0, "circular", &math);
    assert_eq!(w, vec![1.0; 5]);
}

#[test]
fn raised_cosines_start_at_their_foot() {
    let w = cosine_window(4, 0.54, 0.46, &math);
    assert!((w[0] - 0.08).abs() < 1e-15);
    assert!((w[1] - 0.54).abs() < 1e-15);
    assert!((w[2] - 1.0).abs() < 1e-15);
    let w = cosine_window(4, 0.5, 0.5, &math);
    assert_eq!(w[0], 0.0);
    assert_eq!(w[2], 1.0);
}

#[test]
fn a_grid_is_tapered_by_rows_and_columns() {
    assert_eq!(separable_window(&[1.0, 2.0, 3.0], &[10.0, 100.0]), vec![
        10.0, 20.0, 30.0, 100.0, 200.0, 300.0
    ]);
    let (x, y) = rect_positions(4, 3, 0.5, 0.5);
    for (taper, a, b) in [(TaperType::Hamming, 0.54, 0.46), (TaperType::Hanning, 0.5, 0.5)] {
        let w = apply_taper(&x, &y, 4, 3, &taper, -30.0, "rectangular", &math);
        let wx = cosine_window(4, a, b, &math);
        let wy = cosine_window(3, a, b, &math);
        assert_eq!(w, separable_window(&wx, &wy));
    }
    let w = apply_taper(&x, &y, 4, 3, &TaperType::Taylor, -25.0, "rectangular", &math);
    let wx = taylor_1d(4, -25.0, &math);
    let wy = taylor_1d(3, -25.0, &math);
    assert_eq!(w, separable_window(&wx, &wy));
}

#[test]
fn a_taylor_window_reaches_one_and_is_symmetric() {
    for n in 1..20 {
        let w = taylor_1d(n, -30.0, &math);
        assert_eq!(w.len(), n);
        assert_eq!(w.iter().cloned().fold(f64::NEG_INFINITY, f64::max), 1.0);
        for i in 0..n {
            assert!((w[i] - w[n - 1 - i]).abs() < 1e-12);
        }
    }
    assert!(taylor_1d(0, -30.0, &math).is_empty());
}

#[test]
fn taylor_windows_ignore_the_sign_and_start_uniform() {
    for n in 1..12 {
        assert_eq!(taylor_1d(n, -30.0, &math), taylor_1d(n, 30.0, &math));
    }
    for n in 1..4 {
        assert_eq!(taylor_1d(n, -40.0, &math), vec![1.0; n]);
    }
}

#[test]
fn a_taylor_window_of_four_has_one_lobe_term() {
    // Two lobes on either side, so that one cosine is left.
    let a = 10.0_f64.powf(30.0 / 20.0).acosh() / std::f64::consts::PI;
    let f = 0.5 * (a * a + 0.25).sqrt();
    let raw: Vec<f64> = (0..4)
        .map(|i| {
            let xi = (i as f64 - 1.5) / 4.0 * 2.0;
            1.0 + 2.0 * (0.0 + f * (std::f64::consts::PI * 1.0 * xi).cos())
        })
        .collect();
    let top = raw.iter().cloned().fold(f64::NEG_INFINITY, f64::max);
    let w = taylor_1d(4, -30.0, &math);
    for i in 0..4 {
        assert!((w[i] - raw[i] / top).abs() < 1e-14);
    }
}

#[test]
fn a_taylor_window_averages_to_one_before_it_is_scaled() {
    // The cosines of the one lobe cancel, so the entries add up to their number.
    let a = 10.0_f64.powf(30.0 / 20.0).acosh() / std::f64::consts::PI;
    let f = 0.5 * (a * a + 0.25).sqrt();
    let top = 1.0 + 2.0 * f * (std::f64::consts::PI / 4.0).cos();
    let w = taylor_1d(4, -30.0, &math);
    assert!((w.iter().sum::<f64>() * top - 4.0).abs() < 1e-12);
    // So the peak is positive, and no entry exceeds one.
    for n in 1..40 {
        let w = taylor_1d(n, -35.0, &math);
        let mean = w.iter().sum::<f64>() / n as f64;
        assert!(0.0 < mean && mean <= 1.0 + 1e-12);
        assert!(w.iter().all(|v| *v <= 1.0));
    }
}

#[test]
fn other_layouts_are_tapered_by_radius() {
    let (x, y) = circular_positions(2, 2, 1.0, &math, &truncate);
    let w = apply_taper(&x, &y, 2, 2, &TaperType::Hanning, -30.0, "circular", &math);
    assert_eq!(w, radial_taper(&x, &y, &TaperType::Hanning, -30.0, &math));
    // Half way out the raised cosine is at its top, at the rim at its foot.
    assert!((w[0] - 1.0).abs() < 1e-12);
    assert!(w[7].abs() < 1e-12);
    let w = radial_taper(&[0.0, 2.0], &[0.0, 0.0], &TaperType::Hamming, -30.0, &math);
    assert!((w[0] - 0.08).abs() < 1e-12 && (w[1] - 0.08).abs() < 1e-12);
    let w = radial_taper(&[0.0, 2.0], &[0.0, 0.0], &TaperType::Taylor, -30.0, &math);
    let rim = (std::f64::consts::FRAC_PI_2 * (1.0 - 0.99)).cos();
    assert!(w[0].abs() < 1e-12);
    assert_eq!(w[1], rim);
    let w = radial_taper(&[0.0, 2.0], &[0.0, 0.0], &TaperType::Uniform, -30.0, &math);
    assert_eq!(w, vec![1.0, 1.0]);
}

#[test]
fn radii_below_one_are_not_stretched() {
    // The rim at a quarter of a wavelength counts as a radius of one quarter.
    let w = radial_taper(&[0.25], &[0.0], &TaperType::Hanning, -30.0, &math);
    assert!((w[0] - 0.5).abs() < 1e-15);
}
