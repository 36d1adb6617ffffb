//! Phased-array beamforming: element layouts, steering and tapering, array factors,
//! realistic impairments, direction finding, and the bookkeeping of the path over a GPU.
//!
//! The numerical code is written once, over any scalar type whose operators are total
//! functions ([`scalar::Scalar`], [`scalar::Real`]); the elementary functions come in as one
//! argument ([`scalar::Elementary`]). What the code computes where nothing is rounded is
//! stated over the laws of a field ([`exact`]).
//!
//! What the operations are for is stated beside them: where elements stand ([`layouts`]), what
//! tapers and steering do ([`tapers`], [`windows`], [`responses`]), which sidelobe counts
//! ([`lobes`]), what impairments do ([`impairments`]), what is received and found ([`scenes`],
//! [`arrivals`], [`optimum`]), and what the simulator answers ([`surveys`]).
pub mod array;
pub mod arrivals;
pub mod beamforming;
pub mod complex;
pub mod convergence;
pub mod eigen;
pub mod exact;
pub mod forms;
pub mod gpu;
pub mod impairments;
pub mod layouts;
pub mod levels;
pub mod linalg;
pub mod lobes;
pub mod optimum;
pub mod parallel;
pub mod patterns;
pub mod physics;
pub mod random;
pub mod ranking;
pub mod responses;
pub mod scalar;
pub mod scenes;
pub mod similarity;
pub mod simulator;
pub mod super_res;
pub mod surveys;
pub mod table;
pub mod tapers;
pub mod text;
pub mod windows;

pub use array::{generate_positions, ArrayConfig, ArrayGeometry};
pub use beamforming::{
    apply_taper, compute_array_factor, compute_beam_cut, steering_vector, BeamConfig,
};
pub use physics::{
    apply_element_pattern, beam_squint_analysis, element_pattern_cosq, mutual_coupling_matrix,
    quantize_phase, simulate_failures,
};
pub use super_res::{esprit_ula, generate_snapshots, music_ula, mvdr_weights};
