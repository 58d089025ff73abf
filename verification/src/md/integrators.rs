//! The forward-Euler integrator of the two-atom experiment. It carries no
//! state: positions move with the old velocities and velocities kick with
//! the old accelerations (the floating-point step is in the companion
//! program).

use vstd::prelude::*;

verus! {

/// Textbook forward Euler: one force evaluation per step, no cached state.
#[derive(Clone, Copy, Debug, PartialEq, Eq)]
pub struct ForwardEuler;

impl ForwardEuler {
    pub fn new() -> (r: Self)
        ensures
            r == ForwardEuler,
    {
        ForwardEuler
    }

    /// Human-readable name (used in reports and plot legends).
    pub fn name(&self) -> (r: &'static str)
        ensures
            r@ == "forward-Euler"@,
    {
        "forward-Euler"
    }
}

impl Default for ForwardEuler {
    fn default() -> (r: Self)
        ensures
            r == ForwardEuler,
    {
        Self::new()
    }
}

} // verus!
