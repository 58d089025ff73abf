//! The integer side of the spectral operators on an n by n grid of Fourier
//! coefficients (coefficient idx holds mode (kx, ky) at ky-row idx / n,
//! kx-column idx % n): the wavenumbers of a coefficient, |k|^2, which odd
//! derivatives vanish at the Nyquist row or column, and the two-thirds rule
//! (keep only modes with |kx|, |ky| <= floor(n/3)).

use vstd::prelude::*;
use crate::fluid::fft::wavenumber;

verus! {

/// The two-thirds-rule cutoff K = floor(n/3).
pub fn two_thirds_cutoff(n: usize) -> (k: i64)
    requires
        n <= i64::MAX,
    ensures
        k == n / 3,
{
    (n as i64) / 3
}

/// Whether coefficient idx (storing mode (kx, ky) at ky-row idx / n,
/// kx-column idx % n) survives the two-thirds rule.
pub open spec fn keeps_mode_spec(n: int, idx: int) -> bool {
    let kx = wavenumber(n, idx % n);
    let ky = wavenumber(n, idx / n);
    -(n / 3) <= kx <= n / 3 && -(n / 3) <= ky <= n / 3
}

/// Whether coefficient `idx` of an n by n spectrum is kept by dealiasing.
pub fn keeps_mode(n: usize, idx: usize) -> (r: bool)
    requires
        1 <= n <= i64::MAX,
        idx < n * n,
    ensures
        r == keeps_mode_spec(n as int, idx as int),
{
    proof {
        crate::ising::torus::lemma_coords(n as int, idx as int);
    }
    let n64 = n as i64;
    let k = n64 / 3;
    let half = n64 / 2;
    let jx = (idx % n) as i64;
    let jy = (idx / n) as i64;
    let kx = if jx < half { jx } else { jx - n64 };
    let ky = if jy < half { jy } else { jy - n64 };
    -k <= kx && kx <= k && -k <= ky && ky <= k
}

/// The wavenumber at position j of an n-point transform, computed.
fn wavenumber_at(n: usize, j: usize) -> (k: i64)
    requires
        1 <= n <= i64::MAX,
        j < n,
    ensures
        k == wavenumber(n as int, j as int),
{
    let n64 = n as i64;
    let jj = j as i64;
    if jj < n64 / 2 {
        jj
    } else {
        jj - n64
    }
}

/// The wavenumbers (kx, ky) of coefficient idx.
pub fn mode_wavenumbers(n: usize, idx: usize) -> (r: (i64, i64))
    requires
        1 <= n <= i64::MAX,
        idx < n * n,
    ensures
        r.0 == wavenumber(n as int, idx as int % n as int),
        r.1 == wavenumber(n as int, idx as int / n as int),
{
    proof {
        crate::ising::torus::lemma_coords(n as int, idx as int);
    }
    (wavenumber_at(n, idx % n), wavenumber_at(n, idx / n))
}

/// |k|^2 = kx^2 + ky^2 of coefficient idx.
pub open spec fn k2_of(n: int, idx: int) -> int {
    let kx = wavenumber(n, idx % n);
    let ky = wavenumber(n, idx / n);
    kx * kx + ky * ky
}

/// |k|^2 of coefficient idx, computed in 64-bit integers.
pub fn wave_k2(n: usize, idx: usize) -> (r: i64)
    requires
        1 <= n <= i64::MAX,
        idx < n * n,
        k2_of(n as int, idx as int) <= i64::MAX,
    ensures
        r == k2_of(n as int, idx as int),
{
    let (kx, ky) = mode_wavenumbers(n, idx);
    proof {
        crate::ising::torus::lemma_coords(n as int, idx as int);
        assert(0 <= kx * kx) by (nonlinear_arith);
        assert(0 <= ky * ky) by (nonlinear_arith);
        assert(kx * kx <= i64::MAX);
        assert(ky * ky <= i64::MAX);
    }
    kx * kx + ky * ky
}

/// Whether the multiplier (i kx)^a (i ky)^b is set to zero: an odd power
/// of kx at kx = -floor(n/2), or an odd power of ky at ky = -floor(n/2).
pub open spec fn odd_nyquist_spec(n: int, kx: int, ky: int, a: int, b: int) -> bool {
    (a % 2 == 1 && kx == -(n / 2)) || (b % 2 == 1 && ky == -(n / 2))
}

/// Whether the derivative multiplier of order (a, b) vanishes at
/// coefficient idx.
pub fn odd_nyquist(n: usize, idx: usize, a: u32, b: u32) -> (r: bool)
    requires
        1 <= n <= i64::MAX,
        idx < n * n,
    ensures
        r == odd_nyquist_spec(
            n as int,
            wavenumber(n as int, idx as int % n as int),
            wavenumber(n as int, idx as int / n as int),
            a as int,
            b as int,
        ),
{
    let (kx, ky) = mode_wavenumbers(n, idx);
    let half = (n as i64) / 2;
    (a % 2 == 1 && kx == -half) || (b % 2 == 1 && ky == -half)
}

/// On a grid of at least two points |k|^2 is never negative and vanishes
/// only at the mean mode, coefficient 0: the Poisson solve divides by it
/// everywhere else. (A one-point grid stores wavenumber -1.)
pub proof fn law_k2_vanishes_only_at_the_mean(n: int, idx: int)
    requires
        2 <= n,
        0 <= idx < n * n,
    ensures
        k2_of(n, idx) >= 0,
        k2_of(n, idx) == 0 <==> idx == 0,
{
    crate::ising::torus::lemma_coords(n, idx);
    let kx = wavenumber(n, idx % n);
    let ky = wavenumber(n, idx / n);
    assert(kx * kx >= 0) by (nonlinear_arith);
    assert(ky * ky >= 0) by (nonlinear_arith);
    assert(kx == 0 <==> idx % n == 0);
    assert(ky == 0 <==> idx / n == 0);
    if kx != 0 {
        assert(kx * kx > 0) by (nonlinear_arith)
            requires
                kx != 0,
        ;
    }
    if ky != 0 {
        assert(ky * ky > 0) by (nonlinear_arith)
            requires
                ky != 0,
        ;
    }
    vstd::arithmetic::div_mod::lemma_fundamental_div_mod(idx, n);
    assert(idx == n * (idx / n) + idx % n);
    if idx / n == 0 {
        assert(n * (idx / n) == 0) by (nonlinear_arith)
            requires
                idx / n == 0,
        ;
    }
}

/// The two-thirds rule keeps mode (kx, ky), stored at coefficient
/// (ky mod n) n + (kx mod n), exactly when both |kx| and |ky| are at most
/// floor(n/3); so it keeps (kx, ky) exactly when it keeps (ky, kx).
pub proof fn law_two_thirds_rule_bounds_both_wavenumbers(n: int, kx: int, ky: int)
    requires
        1 <= n,
        n / 2 - n <= kx < n / 2,
        n / 2 - n <= ky < n / 2,
    ensures
        keeps_mode_spec(n, (ky % n) * n + (kx % n)) <==> (-(n / 3) <= kx <= n / 3 && -(n / 3) <= ky <= n / 3),
        keeps_mode_spec(n, (ky % n) * n + (kx % n)) == keeps_mode_spec(n, (kx % n) * n + (ky % n)),
{
    assert(n * n >= 1) by (nonlinear_arith)
        requires
            1 <= n,
    ;
    crate::fluid::field_gen::law_mode_index_inverts_wavenumbers(n, kx, ky, 0);
    crate::fluid::field_gen::law_mode_index_inverts_wavenumbers(n, ky, kx, 0);
}

/// The Nyquist rule for a derivative of order (a, b): its multiplier is
/// zeroed exactly when the x-part of order a or the y-part of order b
/// alone would be, and the x-part (y-part) is zeroed exactly for an odd
/// order at kx = -floor(n/2) (ky = -floor(n/2)), whatever the other order.
pub proof fn law_odd_nyquist_splits_by_axis(n: int, kx: int, ky: int, a: int, b: int)
    requires
        0 <= a,
        0 <= b,
    ensures
        odd_nyquist_spec(n, kx, ky, a, b) == (odd_nyquist_spec(n, kx, ky, a, 0) || odd_nyquist_spec(n, kx, ky, 0, b)),
        odd_nyquist_spec(n, kx, ky, a, 0) <==> (a % 2 == 1 && kx == -(n / 2)),
        odd_nyquist_spec(n, kx, ky, 0, b) <==> (b % 2 == 1 && ky == -(n / 2)),
{
}

} // verus!
