//! Which pair search computes forces and energies.

use vstd::prelude::*;
use crate::ising::ramp::str_equal;

verus! {

/// Which pair search computes forces/energies.
#[derive(Clone, Copy, Debug, PartialEq, Eq)]
pub enum ForceEngine {
    /// The plain all-pairs loop (kept for comparison; --force naive).
    Naive,
    /// Cell list: nine cells per atom, O(N) pairs searched (--force cells).
    Cells,
}

/// A name that is neither `naive` nor `cells`: the rejected value.
#[derive(Clone, Debug, PartialEq, Eq)]
pub struct UnknownForceEngine(pub String);

impl ForceEngine {
    /// The flag value of each engine.
    pub open spec fn name_of(e: ForceEngine) -> Seq<char> {
        match e {
            ForceEngine::Naive => "naive"@,
            ForceEngine::Cells => "cells"@,
        }
    }

    /// The engine that a flag value names, if any.
    pub open spec fn parsed(s: Seq<char>) -> Option<ForceEngine> {
        if s == "naive"@ {
            Some(ForceEngine::Naive)
        } else if s == "cells"@ {
            Some(ForceEngine::Cells)
        } else {
            None
        }
    }

    /// Parse `naive` or `cells`; anything else is refused with the
    /// rejected value.
    pub fn parse(s: &str) -> (r: Result<Self, UnknownForceEngine>)
        ensures
            match Self::parsed(s@) {
                Some(e) => r == Ok::<ForceEngine, UnknownForceEngine>(e),
                None => r matches Err(u) && u.0@ == s@,
            },
    {
        if str_equal(s, "naive") {
            Ok(ForceEngine::Naive)
        } else if str_equal(s, "cells") {
            Ok(ForceEngine::Cells)
        } else {
            Err(UnknownForceEngine(s.to_owned()))
        }
    }

    /// The flag value, as `parse` reads it and as `run.json` records it.
    pub fn as_str(&self) -> (r: &'static str)
        ensures
            r@ == Self::name_of(*self),
    {
        match self {
            ForceEngine::Naive => "naive",
            ForceEngine::Cells => "cells",
        }
    }
}

/// Reading back the flag value that `as_str` writes gives the same engine.
pub proof fn law_force_engine_round_trip(e: ForceEngine)
    ensures
        ForceEngine::parsed(ForceEngine::name_of(e)) == Some(e),
{
    reveal_strlit("naive");
    reveal_strlit("cells");
    assert("naive"@[0] != "cells"@[0]);
}

} // verus!
