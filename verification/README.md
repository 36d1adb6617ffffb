# phased_array_rs

A phased-array beamforming library whose behaviour is stated in contracts and proved with
[Verus](https://github.com/verus-lang/verus), and a small HTTP server around it.

## Layout

- `src/` is the library. All of it is verified but the bodies of two functions, which call
  other crates (see `parallel`, `random`).
  - `scalar`, `complex`, `table`, `levels`, `ranking`, `text`: the ground the rest stands on.
  - `array`, `beamforming`, `physics`: layouts, steering, tapers, patterns, impairments.
  - `linalg`, `eigen`, `super_res`: inversion, Jacobi rotations, MUSIC, ESPRIT, MVDR.
  - `gpu`: starting the CUDA driver, jobs for the device, and the host in its place.
  - `simulator`: the answers of the server, from configuration to report.
  - `exact`, `forms`, `similarity`, `convergence`, `patterns`, `windows`, `arrivals`,
    `optimum`: what the numerical code computes where nothing is rounded.
  - `parallel`, `random`: the two places where other crates (rayon, rand) do the work.
- `tests/` runs the library on double-precision floats.
- `app/` is the server: HTTP, JSON, the calls into the driver library, and the embedded device
  module (`app/kernels.rs`), whose kernels `nvcc` compiles.

## Scalars

The numerical code is generic over its scalar type. A caller promises that the operators are
total functions of their operands (`scalar::arithmetic`), and hands in the elementary
functions as one argument. The contracts then say exactly which operations are applied to
which operands, in which order. Algebraic statements (an inverse inverts, eigenvectors are
orthonormal, MVDR weights are distortionless) are proved for scalars that form a field.
