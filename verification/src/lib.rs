//! Ordent: a hardware-quantized Kuramoto oscillator engine.
//!
//! Phases are Binary Angle Measurements (BAM) stored in `u32`, so that the
//! full circle is exactly `2^32` units and phase wrap-around is integer
//! wrap-around. Oscillators live in an `ordex` generational arena; the
//! coupling topology is given in Compressed Sparse Row form.
//!
//! The integer phases of a tick (integration, gathering of phase lags and
//! scattering of reduced forces) are verified here; the floating-point force
//! model (Taylor sine, weights, summation) is left to the caller.

pub mod arena;
pub mod bam;
pub mod engine;
pub mod prelude;
