//! The two-dimensional Ising model on a periodic L by L lattice.

pub mod frames;
pub mod lattice;
pub mod metro;
pub mod ramp;
pub mod rng;
pub mod sums;
pub mod torus;
pub mod wolff;

pub use rng::Xoshiro256;
