//! Metropolis single-spin-flip dynamics.
//!
//! One step is one sweep: L^2 proposals, each picking a site uniformly at
//! random with replacement (the next draw modulo L^2), computing the energy
//! change from the four affected bonds, and accepting downhill and level
//! moves outright. An uphill move draws one more 64-bit word x and is
//! accepted when its top 53 bits fall below the tabulated threshold:
//! (x >> 11) < threshold[(dE + 8) / 4]. With threshold = ceil(p 2^53) this
//! is exactly the test u < p for the 53-bit uniform u = (x >> 11) / 2^53, so
//! a table built from p = min(1, e^{-dE/T}) gives acceptance min(1, e^{-dE/T}).

use vstd::prelude::*;
use crate::ising::lattice::Lattice;
use crate::ising::rng::{Xoshiro256, XoState, xo_output, xo_advance, lemma_top_bits};
use crate::ising::torus::{
    flip_delta, flip_one, valid_spins, ising_energy, spin_sum, local_field, right, down, left, up, lemma_neighbors,
    lemma_flip_one_energy,
};

verus! {

/// Outcome of one proposal at site k: the spins, the generator state and
/// whether the flip was accepted.
pub open spec fn propose_spec(l: int, s: Seq<i8>, r: XoState, thr: Seq<u64>, k: int) -> (
    Seq<i8>,
    XoState,
    bool,
) {
    let de = flip_delta(l, s, k);
    if de <= 0 {
        (flip_one(s, k), r, true)
    } else if (xo_output(r) >> 11u64) < thr[(de + 8) / 4] {
        (flip_one(s, k), xo_advance(r), true)
    } else {
        (s, xo_advance(r), false)
    }
}

/// The spins, generator state and number of accepted flips after the first
/// t proposals of a sweep over an L by L lattice.
pub open spec fn sweep_spec(l: int, s: Seq<i8>, r: XoState, thr: Seq<u64>, t: nat) -> (
    Seq<i8>,
    XoState,
    nat,
)
    decreases t,
{
    if t == 0 {
        (s, r, 0)
    } else {
        let prev = sweep_spec(l, s, r, thr, (t - 1) as nat);
        let site = xo_output(prev.1) % ((l * l) as u64);
        let next = propose_spec(l, prev.0, xo_advance(prev.1), thr, site as int);
        (next.0, next.1, prev.2 + if next.2 {
            1nat
        } else {
            0nat
        })
    }
}

pub struct Metro {
    lattice: Lattice,
    rng: Xoshiro256,
    /// Acceptance thresholds indexed by (dE + 8) / 4 for dE in
    /// {-8, -4, 0, 4, 8}: an uphill move is accepted when the top 53 bits of
    /// a fresh draw fall below the entry.
    accept_threshold: [u64; 5],
    accepted: u64,
    proposals: u64,
}

impl Metro {
    /// The lattice being sampled.
    pub closed spec fn lat(&self) -> Lattice {
        self.lattice
    }

    /// The generator state.
    pub closed spec fn rng_state(&self) -> XoState {
        self.rng@
    }

    /// The acceptance thresholds.
    pub closed spec fn thresholds(&self) -> Seq<u64> {
        self.accept_threshold@
    }

    /// Accepted flips so far.
    pub closed spec fn accepted_count(&self) -> int {
        self.accepted as int
    }

    /// Proposals so far.
    pub closed spec fn proposal_count(&self) -> int {
        self.proposals as int
    }

    /// Well-formed: a well-formed lattice, and no more acceptances than
    /// proposals.
    pub open spec fn wf(&self) -> bool {
        &&& self.lat().wf()
        &&& self.thresholds().len() == 5
        &&& 0 <= self.accepted_count() <= self.proposal_count()
    }

    pub fn new(lattice: Lattice, rng: Xoshiro256, thresholds: [u64; 5]) -> (m: Self)
        requires
            lattice.wf(),
        ensures
            m.wf(),
            m.lat() == lattice,
            m.rng_state() == rng@,
            m.thresholds() == thresholds@,
            m.accepted_count() == 0,
            m.proposal_count() == 0,
    {
        Metro { lattice, rng, accept_threshold: thresholds, accepted: 0, proposals: 0 }
    }

    /// Replace the acceptance table (a new temperature).
    pub fn set_thresholds(&mut self, thresholds: [u64; 5])
        ensures
            final(self).lat() == old(self).lat(),
            final(self).rng_state() == old(self).rng_state(),
            final(self).thresholds() == thresholds@,
            final(self).accepted_count() == old(self).accepted_count(),
            final(self).proposal_count() == old(self).proposal_count(),
    {
        self.accept_threshold = thresholds;
    }

    /// The threshold used for an uphill energy change.
    pub fn threshold_for(&self, delta_e: i64) -> (r: u64)
        requires
            self.wf(),
            delta_e == -8 || delta_e == -4 || delta_e == 0 || delta_e == 4 || delta_e == 8,
        ensures
            r == self.thresholds()[(delta_e + 8) / 4],
    {
        self.accept_threshold[((delta_e + 8) / 4) as usize]
    }

    /// Zero the acceptance counters (the table reports them per temperature).
    pub fn reset_stats(&mut self)
        requires
            old(self).wf(),
        ensures
            final(self).wf(),
            final(self).lat() == old(self).lat(),
            final(self).rng_state() == old(self).rng_state(),
            final(self).thresholds() == old(self).thresholds(),
            final(self).accepted_count() == 0,
            final(self).proposal_count() == 0,
    {
        self.accepted = 0;
        self.proposals = 0;
    }

    /// The lattice being sampled.
    pub fn lattice(&self) -> (r: &Lattice)
        ensures
            *r == self.lat(),
    {
        &self.lattice
    }

    /// Accepted flips since construction or the last reset.
    pub fn accepted(&self) -> (r: u64)
        ensures
            r == self.accepted_count(),
    {
        self.accepted
    }

    /// Proposals since construction or the last reset.
    pub fn proposals(&self) -> (r: u64)
        ensures
            r == self.proposal_count(),
    {
        self.proposals
    }

    /// `next` is what one sweep makes of `self`: n = L^2 proposals, the
    /// spins, generator state and acceptance count of `sweep_spec`, the side
    /// and thresholds unchanged.
    pub open spec fn swept_to(&self, next: Metro) -> bool {
        let res = sweep_spec(
            self.lat().side(),
            self.lat().spins_view(),
            self.rng_state(),
            self.thresholds(),
            self.lat().size() as nat,
        );
        &&& next.lat().side() == self.lat().side()
        &&& next.lat().size() == self.lat().size()
        &&& next.thresholds() == self.thresholds()
        &&& next.proposal_count() == self.proposal_count() + self.lat().size()
        &&& next.lat().spins_view() == res.0
        &&& next.rng_state() == res.1
        &&& next.accepted_count() == self.accepted_count() + res.2
    }

    /// One sweep: n = L^2 uniform proposals with replacement. The running
    /// energy and magnetization stay equal to a recount of the new spins,
    /// and between none and all of the n proposals are accepted.
    pub fn sweep(&mut self)
        requires
            old(self).wf(),
            old(self).proposal_count() + old(self).lat().size() <= u64::MAX,
        ensures
            final(self).wf(),
            old(self).swept_to(*final(self)),
            final(self).lat().energy_view() == ising_energy(final(self).lat().side(), final(self).lat().spins_view()),
            final(self).lat().mag_view() == spin_sum(final(self).lat().spins_view()),
            old(self).accepted_count() <= final(self).accepted_count() <= old(self).accepted_count()
                + old(self).lat().size(),
    {
        let n = self.lattice.site_count() as u64;
        let ghost l = self.lattice.side();
        let ghost s0 = self.lattice.spins_view();
        let ghost r0 = self.rng@;
        let ghost a0 = self.accepted as int;
        let ghost p0 = self.proposals as int;
        let ghost thr = self.accept_threshold@;
        assert(l * l >= 4) by (nonlinear_arith)
            requires
                l >= 2,
        ;
        let mut t: u64 = 0;
        while t < n
            invariant
                self.wf(),
                n == self.lattice.size(),
                n >= 4,
                self.lattice.side() == l,
                n == l * l,
                self.accept_threshold@ == thr,
                t <= n,
                self.proposals == p0 + t,
                p0 + n <= u64::MAX,
                ({
                    let res = sweep_spec(l, s0, r0, thr, t as nat);
                    &&& self.lattice.spins_view() == res.0
                    &&& self.rng@ == res.1
                    &&& self.accepted == a0 + res.2
                }),
            decreases n - t,
        {
            let site = self.rng.next_below(n) as usize;
            self.propose(site);
            t += 1;
        }
        proof {
            lemma_sweep_accepts_at_most(l, s0, r0, thr, n as nat);
        }
    }

    /// One proposal at `site`.
    fn propose(&mut self, site: usize)
        requires
            old(self).wf(),
            site < old(self).lat().size(),
            old(self).proposal_count() < u64::MAX,
        ensures
            final(self).wf(),
            final(self).lat().side() == old(self).lat().side(),
            final(self).lat().size() == old(self).lat().size(),
            final(self).thresholds() == old(self).thresholds(),
            final(self).proposal_count() == old(self).proposal_count() + 1,
            ({
                let res = propose_spec(
                    old(self).lat().side(),
                    old(self).lat().spins_view(),
                    old(self).rng_state(),
                    old(self).thresholds(),
                    site as int,
                );
                &&& final(self).lat().spins_view() == res.0
                &&& final(self).rng_state() == res.1
                &&& final(self).accepted_count() == old(self).accepted_count() + if res.2 {
                    1int
                } else {
                    0int
                }
            }),
    {
        let de = self.lattice.delta_e(site);
        self.proposals += 1;
        if de <= 0 {
            self.accept(site, de);
        } else {
            let x = self.rng.next_u64();
            if (x >> 11) < self.accept_threshold[((de + 8) / 4) as usize] {
                self.accept(site, de);
            }
        }
    }

    fn accept(&mut self, site: usize, delta_e: i64)
        requires
            old(self).lat().wf(),
            site < old(self).lat().size(),
            delta_e == flip_delta(old(self).lat().side(), old(self).lat().spins_view(), site as int),
            old(self).accepted < old(self).proposals,
        ensures
            final(self).lat().wf(),
            final(self).lat().side() == old(self).lat().side(),
            final(self).lat().size() == old(self).lat().size(),
            final(self).lat().spins_view() == flip_one(old(self).lat().spins_view(), site as int),
            final(self).rng@ == old(self).rng@,
            final(self).accept_threshold == old(self).accept_threshold,
            final(self).proposals == old(self).proposals,
            final(self).accepted == old(self).accepted + 1,
    {
        self.lattice.flip_with(site, delta_e);
        self.accepted += 1;
    }
}

/// With every threshold zero (the zero-temperature limit) no uphill move
/// is accepted, so the energy never rises during a sweep: after any number
/// of proposals it is at most where it started.
pub proof fn law_zero_thresholds_never_raise_energy(l: int, s: Seq<i8>, r: XoState, thr: Seq<u64>, t: nat)
    requires
        2 <= l,
        l * l <= u64::MAX,
        s.len() == l * l,
        valid_spins(s),
        thr.len() == 5,
        forall|i: int| 0 <= i < 5 ==> #[trigger] thr[i] == 0,
    ensures
        ising_energy(l, sweep_spec(l, s, r, thr, t).0) <= ising_energy(l, s),
        valid_spins(sweep_spec(l, s, r, thr, t).0),
        sweep_spec(l, s, r, thr, t).0.len() == l * l,
    decreases t,
{
    if t > 0 {
        law_zero_thresholds_never_raise_energy(l, s, r, thr, (t - 1) as nat);
        let prev = sweep_spec(l, s, r, thr, (t - 1) as nat);
        let n = (l * l) as u64;
        assert(n as int == l * l);
        assert(n >= 4) by (nonlinear_arith)
            requires
                2 <= l,
                n as int == l * l,
        ;
        let site = (xo_output(prev.1) % n) as int;
        assert(0 <= site < l * l);
        lemma_flip_one_energy(l, prev.0, site);
        let de = flip_delta(l, prev.0, site);
        if de > 0 {
            assert((xo_output(xo_advance(prev.1)) >> 11u64) >= thr[(de + 8) / 4]) by {
                lemma_flip_delta_range(l, prev.0, site);
            }
        }
    }
}

/// The energy change of a flip is one of -8, -4, 0, 4, 8.
proof fn lemma_flip_delta_range(l: int, s: Seq<i8>, k: int)
    requires
        2 <= l,
        s.len() == l * l,
        valid_spins(s),
        0 <= k < l * l,
    ensures
        flip_delta(l, s, k) == -8 || flip_delta(l, s, k) == -4 || flip_delta(l, s, k) == 0
            || flip_delta(l, s, k) == 4 || flip_delta(l, s, k) == 8,
{
    lemma_neighbors(l, k);
    let sum = local_field(l, s, k);
    assert(s[right(l, k)] == 1 || s[right(l, k)] == -1);
    assert(s[down(l, k)] == 1 || s[down(l, k)] == -1);
    assert(s[left(l, k)] == 1 || s[left(l, k)] == -1);
    assert(s[up(l, k)] == 1 || s[up(l, k)] == -1);
    assert(s[k] == 1 || s[k] == -1);
    assert(sum == -4 || sum == -2 || sum == 0 || sum == 2 || sum == 4);
}

/// With every threshold at least 2^53 (the infinite-temperature limit)
/// every proposal is accepted: after t proposals all t have flipped a spin.
pub proof fn law_saturated_thresholds_accept_every_proposal(
    l: int,
    s: Seq<i8>,
    r: XoState,
    thr: Seq<u64>,
    t: nat,
)
    requires
        2 <= l,
        l * l <= u64::MAX,
        s.len() == l * l,
        valid_spins(s),
        thr.len() == 5,
        forall|i: int| 0 <= i < 5 ==> #[trigger] thr[i] >= 0x20_0000_0000_0000u64,
    ensures
        sweep_spec(l, s, r, thr, t).2 == t,
        valid_spins(sweep_spec(l, s, r, thr, t).0),
        sweep_spec(l, s, r, thr, t).0.len() == l * l,
    decreases t,
{
    if t > 0 {
        law_saturated_thresholds_accept_every_proposal(l, s, r, thr, (t - 1) as nat);
        let prev = sweep_spec(l, s, r, thr, (t - 1) as nat);
        let n = (l * l) as u64;
        assert(n as int == l * l);
        assert(n >= 4) by (nonlinear_arith)
            requires
                2 <= l,
                n as int == l * l,
        ;
        let site = (xo_output(prev.1) % n) as int;
        assert(0 <= site < l * l);
        lemma_flip_one_energy(l, prev.0, site);
        lemma_flip_delta_range(l, prev.0, site);
        lemma_top_bits(xo_output(xo_advance(prev.1)));
    }
}

/// A sweep accepts at most as many flips as it proposes.
proof fn lemma_sweep_accepts_at_most(l: int, s: Seq<i8>, r: XoState, thr: Seq<u64>, t: nat)
    ensures
        sweep_spec(l, s, r, thr, t).2 <= t,
    decreases t,
{
    if t > 0 {
        lemma_sweep_accepts_at_most(l, s, r, thr, (t - 1) as nat);
    }
}

/// A sweep is determined by the lattice, the generator state, the
/// thresholds and the counters: two samplers that agree on these before a
/// sweep agree on the spins, the running energy and magnetization, the
/// generator state and both counters after it.
pub proof fn law_sweep_is_determined(a: Metro, b: Metro, a2: Metro, b2: Metro)
    requires
        a.wf(),
        b.wf(),
        a2.wf(),
        b2.wf(),
        a.swept_to(a2),
        b.swept_to(b2),
        a.lat().side() == b.lat().side(),
        a.lat().spins_view() == b.lat().spins_view(),
        a.rng_state() == b.rng_state(),
        a.thresholds() == b.thresholds(),
        a.accepted_count() == b.accepted_count(),
        a.proposal_count() == b.proposal_count(),
    ensures
        a2.lat().spins_view() == b2.lat().spins_view(),
        a2.lat().energy_view() == b2.lat().energy_view(),
        a2.lat().mag_view() == b2.lat().mag_view(),
        a2.rng_state() == b2.rng_state(),
        a2.accepted_count() == b2.accepted_count(),
        a2.proposal_count() == b2.proposal_count(),
{
}

/// A proposal at site k: a downhill or level move (dE <= 0) flips the spin
/// and draws nothing; an uphill move (dE > 0) draws exactly one word x and
/// flips the spin exactly when the top 53 bits of x fall below the table
/// entry for dE, so it is accepted with probability thr[(dE + 8) / 4] / 2^53.
pub proof fn law_uphill_moves_take_one_draw(l: int, s: Seq<i8>, r: XoState, thr: Seq<u64>, k: int)
    ensures
        flip_delta(l, s, k) <= 0 ==> propose_spec(l, s, r, thr, k).0 == flip_one(s, k)
            && propose_spec(l, s, r, thr, k).1 == r && propose_spec(l, s, r, thr, k).2,
        flip_delta(l, s, k) > 0 ==> {
            let x = xo_output(r);
            let accepted = (x >> 11u64) < thr[(flip_delta(l, s, k) + 8) / 4];
            &&& propose_spec(l, s, r, thr, k).1 == xo_advance(r)
            &&& propose_spec(l, s, r, thr, k).2 == accepted
            &&& propose_spec(l, s, r, thr, k).0 == if accepted {
                flip_one(s, k)
            } else {
                s
            }
        },
{
}

/// Proposal t + 1 of a sweep draws its site from the generator, then draws
/// once more exactly when the move is uphill, and counts one acceptance
/// exactly when the spin flips.
pub proof fn law_sweep_step_draws(l: int, s: Seq<i8>, r: XoState, thr: Seq<u64>, t: nat)
    ensures
        ({
            let prev = sweep_spec(l, s, r, thr, t);
            let next = sweep_spec(l, s, r, thr, t + 1);
            let site = (xo_output(prev.1) % ((l * l) as u64)) as int;
            let r1 = xo_advance(prev.1);
            let de = flip_delta(l, prev.0, site);
            let accepted = de <= 0 || (xo_output(r1) >> 11u64) < thr[(de + 8) / 4];
            &&& next.1 == (if de > 0 {
                xo_advance(r1)
            } else {
                r1
            })
            &&& next.0 == (if accepted {
                flip_one(prev.0, site)
            } else {
                prev.0
            })
            &&& next.2 == prev.2 + (if accepted {
                1nat
            } else {
                0nat
            })
        }),
{
    assert(sweep_spec(l, s, r, thr, t + 1) == {
        let prev = sweep_spec(l, s, r, thr, t);
        let site = xo_output(prev.1) % ((l * l) as u64);
        let next = propose_spec(l, prev.0, xo_advance(prev.1), thr, site as int);
        (next.0, next.1, prev.2 + if next.2 {
            1nat
        } else {
            0nat
        })
    });
}

} // verus!
