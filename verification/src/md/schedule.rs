//! The step schedule of a run: when the thermostat rescales the velocities
//! and which production steps are saved as frames.

use vstd::prelude::*;
use vstd::arithmetic::div_mod::{lemma_fundamental_div_mod, lemma_fundamental_div_mod_converse, lemma_mod_bound};

verus! {

/// Rescale the velocities every this many steps.
pub const THERMO_INTERVAL: usize = 50;

/// Step k (equilibration steps counting from 0, ramp steps from 1)
/// rescales the velocities first.
pub fn rescale_due(k: usize) -> (r: bool)
    ensures
        r == (k % THERMO_INTERVAL == 0),
{
    k % THERMO_INTERVAL == 0
}

/// Production step `step` (counting from 1) is saved as a frame.
pub fn sample_due(step: usize, every: usize) -> (r: bool)
    requires
        every >= 1,
    ensures
        r == (step % every == 0),
{
    step % every == 0
}

/// How many of the production steps 1..=steps are saved.
pub open spec fn saved_count(steps: int, every: int) -> int
    decreases steps,
{
    if steps <= 0 {
        0
    } else {
        saved_count(steps - 1, every) + if steps % every == 0 {
            1int
        } else {
            0int
        }
    }
}

/// A production phase of `steps` steps saves floor(steps / every) frames.
pub proof fn law_frame_count(steps: int, every: int)
    requires
        steps >= 0,
        every >= 1,
    ensures
        saved_count(steps, every) == steps / every,
    decreases steps,
{
    if steps > 0 {
        law_frame_count(steps - 1, every);
        let q = (steps - 1) / every;
        let r = (steps - 1) % every;
        lemma_fundamental_div_mod(steps - 1, every);
        lemma_mod_bound(steps - 1, every);
        assert(steps - 1 == q * every + r) by (nonlinear_arith)
            requires
                steps - 1 == every * q + r,
        ;
        if r + 1 < every {
            lemma_fundamental_div_mod_converse(steps, every, q, r + 1);
        } else {
            assert(steps == (q + 1) * every + 0) by (nonlinear_arith)
                requires
                    steps - 1 == q * every + r,
                    r + 1 == every,
            ;
            lemma_fundamental_div_mod_converse(steps, every, q + 1, 0);
        }
    } else {
        assert(0int / every == 0) by (nonlinear_arith)
            requires
                every >= 1,
        ;
    }
}

} // verus!
