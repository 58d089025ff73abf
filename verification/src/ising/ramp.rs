//! The temperature-ramp rules: the update rule named on the command line,
//! its unit of time, the checks on the integer settings, and which measured
//! steps record a lattice frame.

use vstd::prelude::*;

verus! {

broadcast use vstd::utf8::encode_utf8_decode_utf8;

/// The update rule named by `--update`.
#[derive(Clone, Copy, Debug, PartialEq, Eq)]
pub enum Update {
    Metropolis,
    Wolff,
}

/// Why a ramp cannot run.
#[derive(Clone, Debug, PartialEq, Eq)]
pub enum RampError {
    /// `--update` named neither metropolis nor wolff; the rejected value.
    UnknownUpdate(String),
    /// The lattice side is below 2.
    LatticeTooSmall,
    /// The lattice has more sites than a 32-bit site index can name.
    LatticeTooLarge,
    /// `--measure` is 0.
    NoMeasuredSteps,
}

/// Byte-wise equality of two slices.
pub fn bytes_equal(a: &[u8], b: &[u8]) -> (r: bool)
    ensures
        r == (a@ == b@),
{
    if a.len() != b.len() {
        return false;
    }
    let mut i: usize = 0;
    while i < a.len()
        invariant
            a@.len() == b@.len(),
            i <= a@.len(),
            forall|j: int| 0 <= j < i ==> a@[j] == b@[j],
        decreases a@.len() - i,
    {
        if a[i] != b[i] {
            return false;
        }
        i += 1;
    }
    assert(a@ =~= b@);
    true
}

/// Two strings are equal exactly when their UTF-8 bytes are.
pub fn str_equal(a: &str, b: &str) -> (r: bool)
    ensures
        r == (a@ == b@),
{
    let r = bytes_equal(a.as_bytes(), b.as_bytes());
    proof {
        vstd::utf8::encode_utf8_decode_utf8(a@);
        vstd::utf8::encode_utf8_decode_utf8(b@);
    }
    r
}

impl Update {
    /// The name of each rule on the command line.
    pub open spec fn name_of(u: Update) -> Seq<char> {
        match u {
            Update::Metropolis => "metropolis"@,
            Update::Wolff => "wolff"@,
        }
    }

    /// The rule that a flag value names, if any.
    pub open spec fn parsed(s: Seq<char>) -> Option<Update> {
        if s == "metropolis"@ {
            Some(Update::Metropolis)
        } else if s == "wolff"@ {
            Some(Update::Wolff)
        } else {
            None
        }
    }

    /// Parse `metropolis` or `wolff`; anything else is an unknown update,
    /// which carries the rejected value.
    pub fn parse(s: &str) -> (r: Result<Self, RampError>)
        ensures
            match Self::parsed(s@) {
                Some(u) => r == Ok::<Update, RampError>(u),
                None => r matches Err(RampError::UnknownUpdate(t)) && t@ == s@,
            },
    {
        if str_equal(s, "metropolis") {
            Ok(Update::Metropolis)
        } else if str_equal(s, "wolff") {
            Ok(Update::Wolff)
        } else {
            Err(RampError::UnknownUpdate(s.to_owned()))
        }
    }

    /// The name of the rule, as `parse` reads it.
    pub fn as_str(&self) -> (r: &'static str)
        ensures
            r@ == Self::name_of(*self),
    {
        match self {
            Update::Metropolis => "metropolis",
            Update::Wolff => "wolff",
        }
    }

    /// Unit of one recorded step, as `run.json` reports it.
    pub fn time_unit(&self) -> (r: &'static str)
        ensures
            r@ == (match *self {
                Update::Metropolis => "sweep"@,
                Update::Wolff => "cluster_flip"@,
            }),
    {
        match self {
            Update::Metropolis => "sweep",
            Update::Wolff => "cluster_flip",
        }
    }
}

/// Parsing the name that `as_str` gives returns the same rule.
pub proof fn law_update_name_round_trip(u: Update)
    ensures
        Update::parsed(Update::name_of(u)) == Some(u),
{
    reveal_strlit("metropolis");
    reveal_strlit("wolff");
    assert("wolff"@.len() != "metropolis"@.len());
}

/// The integer settings of a ramp: a lattice side of at least 2 whose
/// sites a 32-bit index can name, and at least one measured step.
pub fn check_ramp_sizes(l: usize, measure: u64) -> (r: Result<(), RampError>)
    ensures
        r == (if l < 2 {
            Err(RampError::LatticeTooSmall)
        } else if l * l > u32::MAX {
            Err(RampError::LatticeTooLarge)
        } else if measure == 0 {
            Err(RampError::NoMeasuredSteps)
        } else {
            Ok(())
        }),
{
    if l < 2 {
        return Err(RampError::LatticeTooSmall);
    }
    if l > 65535 {
        assert(l * l > u32::MAX) by (nonlinear_arith)
            requires
                l > 65535,
        ;
        return Err(RampError::LatticeTooLarge);
    }
    assert(l * l <= 65535 * 65535) by (nonlinear_arith)
        requires
            l <= 65535,
    ;
    if l * l > 0xFFFF_FFFF {
        return Err(RampError::LatticeTooLarge);
    }
    if measure == 0 {
        return Err(RampError::NoMeasuredSteps);
    }
    Ok(())
}

/// Measured step k (counting from 1) records a frame when every > 0 and k
/// is a multiple of every; every = 0 records none.
pub fn frame_due(every: u64, k: u64) -> (r: bool)
    ensures
        r == (every > 0 && k % every == 0),
{
    every > 0 && k % every == 0
}

/// The ramp's running sweep number after measured step k (counting from 1)
/// at temperature number `temp` (counting from 0): every temperature runs
/// `discard` steps and then `measure` measured steps, and the count runs
/// on across temperatures.
pub open spec fn global_sweep_spec(temp: int, discard: int, measure: int, k: int) -> int {
    temp * (discard + measure) + discard + k
}

/// The running sweep number that a frame recorded at measured step k of
/// temperature number `temp` carries.
pub fn global_sweep(temp: u64, discard: u64, measure: u64, k: u64) -> (g: u64)
    requires
        global_sweep_spec(temp as int, discard as int, measure as int, k as int) <= u64::MAX,
    ensures
        g == global_sweep_spec(temp as int, discard as int, measure as int, k as int),
{
    if temp == 0 {
        proof {
            assert(temp * (discard + measure) == 0) by (nonlinear_arith)
                requires
                    temp == 0,
            ;
        }
        discard + k
    } else {
        proof {
            assert(discard + measure <= temp * (discard + measure)) by (nonlinear_arith)
                requires
                    temp >= 1,
        ;
        }
        temp * (discard + measure) + discard + k
    }
}

/// The sweep numbers of the measured steps run on without a gap: the first
/// measured step of the ramp is discard + 1, consecutive measured steps of a
/// temperature are one apart, and the first measured step of the next
/// temperature comes `discard` sweeps after the last one of this.
pub proof fn law_sweep_numbers_run_on(temp: int, discard: int, measure: int, k: int)
    requires
        0 <= temp,
        0 <= discard,
        1 <= measure,
    ensures
        global_sweep_spec(0, discard, measure, 1) == discard + 1,
        1 <= k < measure ==> global_sweep_spec(temp, discard, measure, k + 1) == global_sweep_spec(
            temp,
            discard,
            measure,
            k,
        ) + 1,
        global_sweep_spec(temp + 1, discard, measure, 1) == global_sweep_spec(temp, discard, measure, measure)
            + discard + 1,
{
    assert(0 * (discard + measure) == 0) by (nonlinear_arith);
    assert((temp + 1) * (discard + measure) == temp * (discard + measure) + discard + measure)
        by (nonlinear_arith);
}

} // verus!
