//! The shape of the triangular-lattice start: N atoms must fill sqrt(N)
//! rows of sqrt(N) atoms, with an even row count so the staggering of odd
//! rows continues across the periodic edge.

use vstd::prelude::*;

verus! {

/// Why N atoms cannot form the lattice.
#[derive(Clone, Copy, Debug, PartialEq, Eq)]
pub enum LatticeError {
    /// N (the value carried) is not a perfect square.
    NotSquare(usize),
    /// sqrt(N) rows is odd.
    OddRows(usize),
}

/// The number of rows (and of atoms per row) of an N-atom lattice.
pub fn lattice_rows(n: usize) -> (r: Result<usize, LatticeError>)
    ensures
        match r {
            Ok(rows) => rows * rows == n && rows % 2 == 0,
            Err(LatticeError::NotSquare(m)) => m == n && forall|k: int| 0 <= k ==> #[trigger] (k * k) != n,
            Err(LatticeError::OddRows(rows)) => rows * rows == n && rows % 2 == 1,
        },
{
    // the integer square root: the largest s with s * s <= n
    let mut s: usize = 0;
    loop
        invariant
            s <= 0xFFFF_FFFF,
            s * s <= n,
        ensures
            s * s <= n,
            n < (s + 1) * (s + 1),
        decreases 0xFFFF_FFFF - s,
    {
        if s >= 0xFFFF_FFFF {
            assert((s + 1) * (s + 1) == 0x1_0000_0000_0000_0000) by (nonlinear_arith)
                requires
                    s == 0xFFFF_FFFF,
            ;
            break;
        }
        let t: u64 = (s + 1) as u64;
        assert(t * t <= 0xFFFF_FFFF * 0xFFFF_FFFF) by (nonlinear_arith)
            requires
                t <= 0xFFFF_FFFF,
        ;
        if t * t > n as u64 {
            break;
        }
        s += 1;
    }
    assert(s * s <= 0xFFFF_FFFF * 0xFFFF_FFFF) by (nonlinear_arith)
        requires
            s <= 0xFFFF_FFFF,
    ;
    if (s as u64) * (s as u64) != n as u64 {
        proof {
            assert forall|k: int| 0 <= k implies #[trigger] (k * k) != n by {
                if k <= s {
                    assert(k * k <= s * s) by (nonlinear_arith)
                        requires
                            0 <= k <= s,
                    ;
                    if k * k == n {
                        assert(k * k < s * s);
                        assert(k < s) by (nonlinear_arith)
                            requires
                                k * k < s * s,
                                0 <= k,
                                0 <= s,
                        ;
                        assert((k + 1) * (k + 1) <= s * s) by (nonlinear_arith)
                            requires
                                k < s,
                                0 <= k,
                        ;
                    }
                } else {
                    assert(k * k >= (s + 1) * (s + 1)) by (nonlinear_arith)
                        requires
                            k >= s + 1,
                            s >= 0,
                    ;
                }
            }
        }
        return Err(LatticeError::NotSquare(n));
    }
    if s % 2 != 0 {
        return Err(LatticeError::OddRows(s));
    }
    Ok(s)
}

} // verus!
