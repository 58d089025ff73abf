//! Coefficient order of the transforms: 0, 1, ..., N/2-1, -N/2, ..., -1.

use vstd::prelude::*;

verus! {

/// The integer wavenumber stored at position j of an n-point transform.
pub open spec fn wavenumber(n: int, j: int) -> int {
    if j < n / 2 {
        j
    } else {
        j - n
    }
}

/// Integer wavenumbers in FFT order for n points on [0, 2*pi).
pub fn wavenumbers(n: usize) -> (r: Vec<i64>)
    requires
        n <= i64::MAX,
    ensures
        r@.len() == n,
        forall|j: int| 0 <= j < n ==> #[trigger] r@[j] == wavenumber(n as int, j),
{
    let n64 = n as i64;
    let half = n64 / 2;
    let mut out: Vec<i64> = Vec::with_capacity(n);
    let mut j: i64 = 0;
    while j < n64
        invariant
            n64 == n,
            half == n / 2,
            0 <= j <= n64,
            out@.len() == j,
            forall|i: int| 0 <= i < j ==> #[trigger] out@[i] == wavenumber(n as int, i),
        decreases n64 - j,
    {
        out.push(if j < half { j } else { j - n64 });
        j += 1;
    }
    out
}

} // verus!
