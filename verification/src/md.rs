//! Two-dimensional Lennard-Jones molecular dynamics: the integer parts of
//! the toolkit (cell lists and the pair search, lattice shape checks,
//! engine names, the step schedule, frame drawing). The force and
//! integration numerics are floating point.

pub mod cells;
pub mod fluid;
pub mod integrators;
pub mod lattice;
pub mod lj;
pub mod schedule;
pub mod video;

use vstd::prelude::*;

verus! {

/// Returns the greeting shown by the `md` binary.
pub fn greeting() -> (r: String)
    ensures
        r@ == "Hello, world!"@,
{
    "Hello, world!".to_string()
}

} // verus!
