//! The random-band field: its stream (xoshiro256++ seeded through
//! SplitMix64, like the Ising sampler's), the band of modes that receive a
//! phase, in the order the phases are drawn, and where mode (kx, ky) sits
//! in an n by n spectrum.

use vstd::prelude::*;
use crate::ising::rng::{XoState, seeded_state, xo_output, xo_advance, seed_words, step_words};
use crate::fluid::fft::wavenumber;
use vstd::arithmetic::div_mod::{lemma_fundamental_div_mod_converse, lemma_fundamental_div_mod, lemma_mod_bound};

verus! {

/// xoshiro256++ seeded through SplitMix64: an in-crate stream, reproducible
/// on any machine.
pub struct Xoshiro256pp {
    s: [u64; 4],
}

impl View for Xoshiro256pp {
    type V = XoState;

    closed spec fn view(&self) -> XoState {
        (self.s[0], self.s[1], self.s[2], self.s[3])
    }
}

impl Xoshiro256pp {
    pub fn new(seed: u64) -> (r: Self)
        ensures
            r@ == seeded_state(seed),
    {
        Self { s: seed_words(seed) }
    }

    pub fn next_u64(&mut self) -> (r: u64)
        ensures
            r == xo_output(old(self)@),
            final(self)@ == xo_advance(old(self)@),
    {
        let (r, next) = step_words(self.s);
        self.s = next;
        r
    }
}

/// Mode (kx, ky) lies in the band k_min <= |k| <= k_max, |k|^2 = kx^2 + ky^2.
pub open spec fn in_band(kx: int, ky: int, k_min: int, k_max: int) -> bool {
    &&& (k_min <= 0 || kx * kx + ky * ky >= k_min * k_min)
    &&& kx * kx + ky * ky <= k_max * k_max
}

/// Mode (kx, ky) is in the positive half plane: ky > 0, or ky == 0, kx > 0.
pub open spec fn positive_half(kx: int, ky: int) -> bool {
    ky > 0 || (ky == 0 && kx > 0)
}

/// The band modes of the positive half plane that receive a random phase.
pub open spec fn band_mode(kx: int, ky: int, k_min: int, k_max: int) -> bool {
    &&& 0 <= ky <= k_max
    &&& -k_max <= kx <= k_max
    &&& in_band(kx, ky, k_min, k_max)
    &&& positive_half(kx, ky)
}

/// (ky, kx) order: ky ascending, then kx ascending.
pub open spec fn before(a: (i64, i64), b: (i64, i64)) -> bool {
    a.1 < b.1 || (a.1 == b.1 && a.0 < b.0)
}

/// The band modes of the positive half plane in draw order: ky ascending,
/// then kx ascending, so the order depends on the band alone, not on n.
pub fn band_pairs(k_min: i64, k_max: i64) -> (r: Vec<(i64, i64)>)
    requires
        -0x4000_0000 <= k_min <= 0x4000_0000,
        k_max <= 0x4000_0000,
    ensures
        forall|t: int| 0 <= t < r@.len() ==> band_mode(#[trigger] r@[t].0 as int, r@[t].1 as int, k_min as int, k_max as int),
        forall|kx: int, ky: int| band_mode(kx, ky, k_min as int, k_max as int) ==> r@.contains((kx as i64, ky as i64)),
        forall|a: int, b: int| 0 <= a < b < r@.len() ==> before(#[trigger] r@[a], #[trigger] r@[b]),
{
    let mut pairs: Vec<(i64, i64)> = Vec::new();
    if k_max < 0 {
        return pairs;
    }
    assert(0 <= k_min * k_min <= 0x1000_0000_0000_0000) by (nonlinear_arith)
        requires
            -0x4000_0000 <= k_min <= 0x4000_0000,
    ;
    assert(0 <= k_max * k_max <= 0x1000_0000_0000_0000) by (nonlinear_arith)
        requires
            0 <= k_max <= 0x4000_0000,
    ;
    let min2 = k_min * k_min;
    let max2 = k_max * k_max;
    let mut ky: i64 = 0;
    while ky <= k_max
        invariant
            0 <= k_max <= 0x4000_0000,
            -0x4000_0000 <= k_min <= 0x4000_0000,
            min2 == k_min * k_min,
            max2 == k_max * k_max,
            0 <= ky <= k_max + 1,
            forall|t: int| 0 <= t < pairs@.len() ==> band_mode(#[trigger] pairs@[t].0 as int, pairs@[t].1 as int, k_min as int, k_max as int),
            forall|t: int| 0 <= t < pairs@.len() ==> #[trigger] pairs@[t].1 < ky,
            forall|kx: int, y: int| 0 <= y < ky && band_mode(kx, y, k_min as int, k_max as int) ==> pairs@.contains((kx as i64, y as i64)),
            forall|a: int, b: int| 0 <= a < b < pairs@.len() ==> before(#[trigger] pairs@[a], #[trigger] pairs@[b]),
        decreases k_max + 1 - ky,
    {
        let mut kx: i64 = -k_max;
        let ghost start = pairs@.len();
        while kx <= k_max
            invariant
                0 <= k_max <= 0x4000_0000,
                -0x4000_0000 <= k_min <= 0x4000_0000,
                min2 == k_min * k_min,
                max2 == k_max * k_max,
                0 <= ky <= k_max,
                -k_max <= kx <= k_max + 1,
                start <= pairs@.len(),
                forall|t: int| 0 <= t < pairs@.len() ==> band_mode(#[trigger] pairs@[t].0 as int, pairs@[t].1 as int, k_min as int, k_max as int),
                forall|t: int| 0 <= t < start ==> #[trigger] pairs@[t].1 < ky,
                forall|t: int| start <= t < pairs@.len() ==> #[trigger] pairs@[t].1 == ky && pairs@[t].0 < kx,
                forall|x: int, y: int| 0 <= y < ky && band_mode(x, y, k_min as int, k_max as int) ==> pairs@.contains((x as i64, y as i64)),
                forall|x: int| -k_max <= x < kx && band_mode(x, ky as int, k_min as int, k_max as int) ==> pairs@.contains((x as i64, ky)),
                forall|a: int, b: int| 0 <= a < b < pairs@.len() ==> before(#[trigger] pairs@[a], #[trigger] pairs@[b]),
            decreases k_max + 1 - kx,
        {
            proof {
                assert(kx * kx <= 0x1000_0000_0000_0000) by (nonlinear_arith)
                    requires
                        -0x4000_0000 <= kx <= 0x4000_0000,
                ;
                assert(ky * ky <= 0x1000_0000_0000_0000) by (nonlinear_arith)
                    requires
                        0 <= ky <= 0x4000_0000,
                ;
                assert(kx * kx >= 0 && ky * ky >= 0) by (nonlinear_arith);
            }
            let k2 = kx * kx + ky * ky;
            let in_band = (k_min <= 0 || k2 >= min2) && k2 <= max2;
            let positive = ky > 0 || (ky == 0 && kx > 0);
            if in_band && positive {
                let ghost old_pairs = pairs@;
                pairs.push((kx, ky));
                proof {
                    assert forall|x: int, y: int| 0 <= y < ky && band_mode(x, y, k_min as int, k_max as int) implies pairs@.contains((x as i64, y as i64)) by {
                        assert(old_pairs.contains((x as i64, y as i64)));
                        let u = choose|u: int| 0 <= u < old_pairs.len() && old_pairs[u] == (x as i64, y as i64);
                        assert(pairs@[u] == (x as i64, y as i64));
                    }
                    assert forall|x: int| -k_max <= x < kx + 1 && band_mode(x, ky as int, k_min as int, k_max as int) implies pairs@.contains((x as i64, ky)) by {
                        if x == kx {
                            assert(pairs@[pairs@.len() - 1] == (x as i64, ky));
                        } else {
                            assert(old_pairs.contains((x as i64, ky)));
                            let u = choose|u: int| 0 <= u < old_pairs.len() && old_pairs[u] == (x as i64, ky);
                            assert(pairs@[u] == (x as i64, ky));
                        }
                    }
                }
            }
            kx += 1;
        }
        ky += 1;
    }
    pairs
}

/// Euclidean remainder of a modulo n, in [0, n).
pub fn rem_euclid(a: i64, n: i64) -> (r: i64)
    requires
        n >= 1,
    ensures
        r == a % n,
        0 <= r < n,
{
    if a >= 0 {
        proof {
            vstd::arithmetic::div_mod::lemma_fundamental_div_mod(a as int, n as int);
            vstd::arithmetic::div_mod::lemma_mod_bound(a as int, n as int);
        }
        a % n
    } else {
        let m = -(a + 1);
        let r = m % n;
        proof {
            let q = m as int / n as int;
            vstd::arithmetic::div_mod::lemma_fundamental_div_mod(m as int, n as int);
            vstd::arithmetic::div_mod::lemma_mod_bound(m as int, n as int);
            assert(n as int * q == q * n as int) by (nonlinear_arith);
            assert(a as int == (-q - 1) * n as int + (n - 1 - r)) by (nonlinear_arith)
                requires
                    m as int == n as int * q + r as int,
                    m == -(a + 1),
                    n as int * q == q * n as int,
            ;
            vstd::arithmetic::div_mod::lemma_fundamental_div_mod_converse(
                a as int,
                n as int,
                -q - 1,
                n - 1 - r,
            );
        }
        n - 1 - r
    }
}

/// Where mode (kx, ky) sits in an n by n spectrum stored row-major by ky:
/// (ky mod n) * n + (kx mod n).
pub fn mode_index(n: usize, kx: i64, ky: i64) -> (r: usize)
    requires
        1 <= n <= i64::MAX,
        n * n <= usize::MAX,
    ensures
        r == (ky as int % n as int) * n + (kx as int % n as int),
        r < n * n,
{
    let n64 = n as i64;
    let x = rem_euclid(kx, n64);
    let y = rem_euclid(ky, n64);
    proof {
        assert(0 <= x < n && 0 <= y < n);
        assert(0 <= y * n + x < n * n) by (nonlinear_arith)
            requires
                0 <= x < n,
                0 <= y < n,
        ;
    }
    (y as usize) * n + (x as usize)
}

/// A position's wavenumber, reduced modulo n, is the position.
proof fn lemma_wavenumber_mod(n: int, j: int)
    requires
        1 <= n,
        0 <= j < n,
    ensures
        wavenumber(n, j) % n == j,
{
    if j < n / 2 {
        lemma_fundamental_div_mod_converse(j, n, 0, j);
    } else {
        lemma_fundamental_div_mod_converse(j - n, n, -1, j);
    }
}

/// A wavenumber in the stored range [n/2 - n, n/2) is the wavenumber of its
/// residue modulo n.
proof fn lemma_wavenumber_of_residue(n: int, k: int)
    requires
        1 <= n,
        n / 2 - n <= k < n / 2,
    ensures
        wavenumber(n, k % n) == k,
{
    if k >= 0 {
        lemma_fundamental_div_mod_converse(k, n, 0, k);
    } else {
        lemma_fundamental_div_mod_converse(k, n, -1, k + n);
    }
}

/// The coefficient of mode (kx, ky) holds exactly that mode: for
/// wavenumbers in the stored range [n/2 - n, n/2) the wavenumbers of
/// coefficient `mode_index` are (kx, ky), and the mode index of a
/// coefficient's own wavenumbers is the coefficient.
pub proof fn law_mode_index_inverts_wavenumbers(n: int, kx: int, ky: int, idx: int)
    requires
        1 <= n,
        0 <= idx < n * n,
    ensures
        n / 2 - n <= kx < n / 2 && n / 2 - n <= ky < n / 2 ==> {
            let m = (ky % n) * n + (kx % n);
            &&& 0 <= m < n * n
            &&& wavenumber(n, m % n) == kx
            &&& wavenumber(n, m / n) == ky
        },
        (wavenumber(n, idx / n) % n) * n + (wavenumber(n, idx % n) % n) == idx,
{
    crate::ising::torus::lemma_coords(n, idx);
    lemma_wavenumber_mod(n, idx % n);
    lemma_wavenumber_mod(n, idx / n);
    lemma_fundamental_div_mod(idx, n);
    assert(idx == n * (idx / n) + idx % n);
    assert((idx / n) * n == n * (idx / n)) by (nonlinear_arith);
    if n / 2 - n <= kx < n / 2 && n / 2 - n <= ky < n / 2 {
        lemma_mod_bound(kx, n);
        lemma_mod_bound(ky, n);
        let x = kx % n;
        let y = ky % n;
        lemma_wavenumber_of_residue(n, kx);
        lemma_wavenumber_of_residue(n, ky);
        assert(0 <= y * n + x < n * n) by (nonlinear_arith)
            requires
                0 <= x < n,
                0 <= y < n,
        ;
        lemma_fundamental_div_mod_converse(y * n + x, n, y, x);
    }
}

} // verus!
