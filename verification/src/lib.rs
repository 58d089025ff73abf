//! Verified cores of three computational-physics exercises: a Lennard-Jones
//! molecular-dynamics toolkit (`md`), the two-dimensional Ising model with
//! Metropolis and Wolff dynamics (`ising`), and a spectral fluid solver
//! (`fluid`). The floating-point numerics live in the companion program;
//! the library holds the integer logic, random streams and bookkeeping.

pub mod fluid;
pub mod ising;
pub mod md;
