//! Wolff single-cluster update.
//!
//! One step is one cluster flip: pick a site (the next draw modulo L^2),
//! grow a cluster of same-spin neighbours, each bond activated when the top
//! 53 bits of a fresh draw fall below the bond threshold, then flip the
//! whole cluster. There is no acceptance test. With threshold =
//! ceil(p 2^53) a bond is activated with probability p, and the companion
//! program builds it from p = 1 - e^{-2/T}.

use vstd::prelude::*;
use crate::ising::lattice::{Lattice, nbr_ok};
use crate::ising::rng::{Xoshiro256, XoState, xo_output, xo_advance, xo_state_after, lemma_top_bits};
use crate::ising::sums::{sum_to, sum_list};
use crate::ising::torus::{
    right, down, left, up, valid_spins, ising_energy, flip_set, member_mask, cluster_site_term,
    outside, lemma_neighbors, lemma_cluster_energy, lemma_list_len_bound,
};

verus! {

/// Site b is one of the four neighbours of site a.
pub open spec fn adjacent(l: int, a: int, b: int) -> bool {
    b == right(l, a) || b == down(l, a) || b == left(l, a) || b == up(l, a)
}

/// A cluster grown from `seed` on spins s: distinct sites, all holding the
/// seed's spin, the seed first, every later site next to an earlier one.
pub open spec fn grown_cluster(l: int, s: Seq<i8>, seed: int, c: Seq<u32>) -> bool {
    &&& c.len() >= 1
    &&& c[0] as int == seed
    &&& c.no_duplicates()
    &&& forall|t: int| 0 <= t < c.len() ==> #[trigger] c[t] < l * l
    &&& forall|t: int| 0 <= t < c.len() ==> s[#[trigger] c[t] as int] == s[seed]
    &&& forall|t: int| 1 <= t < c.len() ==> #[trigger] joined_next_to_earlier(l, c, t)
}

/// Site t of the list is next to some earlier site of the list.
pub open spec fn joined_next_to_earlier(l: int, c: Seq<u32>, t: int) -> bool {
    exists|u: int| 0 <= u < t && #[trigger] adjacent(l, c[u] as int, c[t] as int)
}

/// The state of a growing cluster: marks of the sites in the cluster, the
/// stack of sites whose bonds are still to be tested, the cluster in join
/// order, and the generator state.
pub type GrowState = (Seq<bool>, Seq<u32>, Seq<u32>, XoState);

/// Test the bond from cluster site i to neighbour j: a same-spin neighbour
/// not yet in the cluster costs one draw x and joins when
/// (x >> 11) < threshold.
pub open spec fn consider_spec(s: Seq<i8>, thr: u64, st: GrowState, i: int, j: int) -> GrowState {
    if st.0[j] || s[j] != s[i] {
        st
    } else if (xo_output(st.3) >> 11u64) < thr {
        (st.0.update(j, true), st.1.push(j as u32), st.2.push(j as u32), xo_advance(st.3))
    } else {
        (st.0, st.1, st.2, xo_advance(st.3))
    }
}

/// Pop the top of the stack and test its bonds right, down, left, up.
pub open spec fn pop_step(l: int, s: Seq<i8>, thr: u64, st: GrowState) -> GrowState {
    let i = st.1.last() as int;
    let st0 = (st.0, st.1.drop_last(), st.2, st.3);
    let a = consider_spec(s, thr, st0, i, right(l, i));
    let b = consider_spec(s, thr, a, i, down(l, i));
    let c = consider_spec(s, thr, b, i, left(l, i));
    consider_spec(s, thr, c, i, up(l, i))
}

/// The growth after k pops (it stops once the stack is empty).
pub open spec fn grow_iter(l: int, s: Seq<i8>, thr: u64, st: GrowState, k: nat) -> GrowState
    decreases k,
{
    if k == 0 || st.1.len() == 0 {
        st
    } else {
        grow_iter(l, s, thr, pop_step(l, s, thr, st), (k - 1) as nat)
    }
}

/// The growth starts from the seed alone, marked, on the stack.
pub open spec fn grow_start(n: int, seed: int, r: XoState) -> GrowState {
    (Seq::new(n as nat, |j: int| j == seed), seq![seed as u32], seq![seed as u32], r)
}

/// Growing from `seed` on spins s with generator state r ends with the
/// cluster `cluster` and the generator in state `r_after`.
pub open spec fn grow_outcome(
    l: int,
    s: Seq<i8>,
    thr: u64,
    seed: int,
    r: XoState,
    cluster: Seq<u32>,
    r_after: XoState,
) -> bool {
    exists|k: nat|
        {
            let st = #[trigger] grow_iter(l, s, thr, grow_start(l * l, seed, r), k);
            &&& st.1.len() == 0
            &&& st.2 == cluster
            &&& st.3 == r_after
        }
}

/// One more pop, while the stack is not empty.
pub proof fn lemma_grow_iter_succ(l: int, s: Seq<i8>, thr: u64, st: GrowState, k: nat)
    requires
        grow_iter(l, s, thr, st, k).1.len() > 0,
    ensures
        grow_iter(l, s, thr, st, k + 1) == pop_step(l, s, thr, grow_iter(l, s, thr, st, k)),
    decreases k,
{
    assert(st.1.len() > 0);
    if k > 0 {
        lemma_grow_iter_succ(l, s, thr, pop_step(l, s, thr, st), (k - 1) as nat);
        assert(grow_iter(l, s, thr, st, k) == grow_iter(l, s, thr, pop_step(l, s, thr, st), (k - 1) as nat));
        assert(grow_iter(l, s, thr, st, k + 1) == grow_iter(l, s, thr, pop_step(l, s, thr, st), k));
    } else {
        assert(grow_iter(l, s, thr, st, 1) == grow_iter(l, s, thr, pop_step(l, s, thr, st), 0));
    }
}

/// Once the stack is empty the growth stays where it is.
pub proof fn lemma_grow_iter_stops(l: int, s: Seq<i8>, thr: u64, st: GrowState, a: nat, b: nat)
    requires
        grow_iter(l, s, thr, st, a).1.len() == 0,
        a <= b,
    ensures
        grow_iter(l, s, thr, st, b) == grow_iter(l, s, thr, st, a),
    decreases a,
{
    if a > 0 && st.1.len() > 0 {
        lemma_grow_iter_stops(l, s, thr, pop_step(l, s, thr, st), (a - 1) as nat, (b - 1) as nat);
    }
}

/// A cluster move is determined by the spins, the generator state, the
/// threshold and the seed: two complete growths agree on the cluster and on
/// the generator state they leave.
pub proof fn law_growth_is_determined(
    l: int,
    s: Seq<i8>,
    thr: u64,
    seed: int,
    r: XoState,
    c1: Seq<u32>,
    r1: XoState,
    c2: Seq<u32>,
    r2: XoState,
)
    requires
        grow_outcome(l, s, thr, seed, r, c1, r1),
        grow_outcome(l, s, thr, seed, r, c2, r2),
    ensures
        c1 == c2,
        r1 == r2,
{
    let start = grow_start(l * l, seed, r);
    let k1 = choose|k: nat|
        {
            let st = #[trigger] grow_iter(l, s, thr, start, k);
            &&& st.1.len() == 0
            &&& st.2 == c1
            &&& st.3 == r1
        };
    let k2 = choose|k: nat|
        {
            let st = #[trigger] grow_iter(l, s, thr, start, k);
            &&& st.1.len() == 0
            &&& st.2 == c2
            &&& st.3 == r2
        };
    if k1 <= k2 {
        lemma_grow_iter_stops(l, s, thr, start, k1, k2);
    } else {
        lemma_grow_iter_stops(l, s, thr, start, k2, k1);
    }
}

/// With bond threshold zero no bond is ever activated: every complete
/// growth is the seed alone, so each move flips exactly one spin.
pub proof fn law_zero_bond_threshold_grows_only_the_seed(
    l: int,
    s: Seq<i8>,
    seed: int,
    r: XoState,
    c: Seq<u32>,
    r_after: XoState,
)
    requires
        grow_outcome(l, s, 0, seed, r, c, r_after),
    ensures
        c == seq![seed as u32],
{
    let start = grow_start(l * l, seed, r);
    let k = choose|k: nat|
        {
            let st = #[trigger] grow_iter(l, s, 0, start, k);
            &&& st.1.len() == 0
            &&& st.2 == c
            &&& st.3 == r_after
        };
    assert(start.1.len() == 1);
    assert(k >= 1);
    let i = start.1.last() as int;
    let st0 = (start.0, start.1.drop_last(), start.2, start.3);
    let a = consider_spec(s, 0, st0, i, right(l, i));
    let b = consider_spec(s, 0, a, i, down(l, i));
    let d = consider_spec(s, 0, b, i, left(l, i));
    let e = consider_spec(s, 0, d, i, up(l, i));
    assert(a.1 == st0.1 && a.2 == st0.2);
    assert(b.1 == st0.1 && b.2 == st0.2);
    assert(d.1 == st0.1 && d.2 == st0.2);
    assert(e.1 == st0.1 && e.2 == st0.2);
    let st1 = pop_step(l, s, 0, start);
    assert(st1 == e);
    assert(st1.1.len() == 0);
    assert(grow_iter(l, s, 0, start, k) == grow_iter(l, s, 0, st1, (k - 1) as nat));
    assert(grow_iter(l, s, 0, st1, (k - 1) as nat) == st1);
    assert(st1.2 =~= seq![seed as u32]);
}

/// Growth with every bond activated on spins that all agree with the seed:
/// the marks have one entry per site and include the seed, the stack and
/// the cluster hold sites, the cluster lists exactly the marked sites, and
/// every marked site off the stack has its four neighbours marked.
spec fn saturated_growth(l: int, seed: int, st: GrowState) -> bool {
    let n = l * l;
    &&& st.0.len() == n
    &&& st.0[seed]
    &&& forall|t: int| 0 <= t < st.1.len() ==> #[trigger] st.1[t] < n
    &&& forall|t: int| 0 <= t < st.2.len() ==> #[trigger] st.2[t] < n
    &&& forall|j: int| 0 <= j < n ==> (#[trigger] st.0[j] <==> st.2.contains(j as u32))
    &&& forall|j: int|
        0 <= j < n && #[trigger] st.0[j] && !st.1.contains(j as u32) ==> st.0[right(l, j)] && st.0[down(
            l,
            j,
        )] && st.0[left(l, j)] && st.0[up(l, j)]
}

/// One bond test under saturation marks the neighbour, keeps every mark
/// and every stacked site, and stacks a site exactly when it newly marks it.
proof fn lemma_consider_saturated(l: int, s: Seq<i8>, thr: u64, st: GrowState, i: int, j: int)
    requires
        2 <= l,
        l * l <= u32::MAX,
        thr >= 0x20_0000_0000_0000u64,
        s.len() == l * l,
        forall|k: int| 0 <= k < l * l ==> #[trigger] s[k] == s[i],
        0 <= i < l * l,
        0 <= j < l * l,
        st.0.len() == l * l,
        forall|t: int| 0 <= t < st.1.len() ==> #[trigger] st.1[t] < l * l,
        forall|t: int| 0 <= t < st.2.len() ==> #[trigger] st.2[t] < l * l,
        forall|k: int| 0 <= k < l * l ==> (#[trigger] st.0[k] <==> st.2.contains(k as u32)),
    ensures
        ({
            let st2 = consider_spec(s, thr, st, i, j);
            &&& st2.0.len() == l * l
            &&& st2.0[j]
            &&& forall|k: int| 0 <= k < l * l && #[trigger] st.0[k] ==> st2.0[k]
            &&& forall|k: int| 0 <= k < l * l && #[trigger] st2.0[k] && !st.0[k] ==> st2.1.contains(k as u32)
            &&& forall|k: u32| #[trigger] st.1.contains(k) ==> st2.1.contains(k)
            &&& forall|t: int| 0 <= t < st2.1.len() ==> #[trigger] st2.1[t] < l * l
            &&& forall|t: int| 0 <= t < st2.2.len() ==> #[trigger] st2.2[t] < l * l
            &&& forall|k: int| 0 <= k < l * l ==> (#[trigger] st2.0[k] <==> st2.2.contains(k as u32))
        }),
{
    let st2 = consider_spec(s, thr, st, i, j);
    if !(st.0[j] || s[j] != s[i]) {
        lemma_top_bits(xo_output(st.3));
        let ju = j as u32;
        assert(st2.1 == st.1.push(ju));
        assert(st2.2 == st.2.push(ju));
        assert(st2.1[st.1.len() as int] == ju);
        assert forall|k: u32| #[trigger] st.1.contains(k) implies st2.1.contains(k) by {
            let t = choose|t: int| 0 <= t < st.1.len() && st.1[t] == k;
            assert(st2.1[t] == k);
        }
        assert forall|k: int| 0 <= k < l * l implies (#[trigger] st2.0[k] <==> st2.2.contains(k as u32)) by {
            if k == j {
                assert(st2.2[st.2.len() as int] == ju);
            } else {
                assert((k as u32) != ju);
                if st.2.contains(k as u32) {
                    let t = choose|t: int| 0 <= t < st.2.len() && st.2[t] == k as u32;
                    assert(st2.2[t] == k as u32);
                }
                if st2.2.contains(k as u32) {
                    let t = choose|t: int| 0 <= t < st2.2.len() && st2.2[t] == k as u32;
                    assert(t < st.2.len());
                    assert(st.2[t] == k as u32);
                }
            }
        }
        assert forall|k: int| 0 <= k < l * l && #[trigger] st2.0[k] && !st.0[k] implies st2.1.contains(k as u32) by {
            assert(k == j);
        }
    }
}

/// One pop under saturation keeps the growth invariant.
proof fn lemma_pop_saturated(l: int, s: Seq<i8>, thr: u64, seed: int, st: GrowState)
    requires
        2 <= l,
        l * l <= u32::MAX,
        thr >= 0x20_0000_0000_0000u64,
        s.len() == l * l,
        0 <= seed < l * l,
        forall|k: int| 0 <= k < l * l ==> #[trigger] s[k] == s[seed],
        saturated_growth(l, seed, st),
        st.1.len() > 0,
    ensures
        saturated_growth(l, seed, pop_step(l, s, thr, st)),
{
    let n = l * l;
    let i = st.1.last() as int;
    assert(st.1[st.1.len() - 1] < n);
    lemma_neighbors(l, i);
    let st0 = (st.0, st.1.drop_last(), st.2, st.3);
    assert forall|t: int| 0 <= t < st0.1.len() implies #[trigger] st0.1[t] < n by {
        assert(st0.1[t] == st.1[t]);
    }
    assert forall|k: int| 0 <= k < n implies s[k] == s[i] by {
        assert(s[k] == s[seed]);
        assert(s[i] == s[seed]);
    }
    lemma_consider_saturated(l, s, thr, st0, i, right(l, i));
    let a = consider_spec(s, thr, st0, i, right(l, i));
    lemma_consider_saturated(l, s, thr, a, i, down(l, i));
    let b = consider_spec(s, thr, a, i, down(l, i));
    lemma_consider_saturated(l, s, thr, b, i, left(l, i));
    let c = consider_spec(s, thr, b, i, left(l, i));
    lemma_consider_saturated(l, s, thr, c, i, up(l, i));
    let d = consider_spec(s, thr, c, i, up(l, i));
    assert(d == pop_step(l, s, thr, st));
    assert(d.0[right(l, i)] && d.0[down(l, i)] && d.0[left(l, i)] && d.0[up(l, i)]);
    assert forall|k: int| 0 <= k < n && #[trigger] st.0[k] implies d.0[k] by {
        assert(a.0[k]);
        assert(b.0[k]);
        assert(c.0[k]);
    }
    assert forall|k: int| 0 <= k < n && #[trigger] d.0[k] && !st.0[k] implies d.1.contains(k as u32) by {
        if c.0[k] {
            if b.0[k] {
                if a.0[k] {
                    assert(a.1.contains(k as u32));
                }
                assert(b.1.contains(k as u32));
            }
            assert(c.1.contains(k as u32));
        }
    }
    assert forall|k: u32| #[trigger] st0.1.contains(k) implies d.1.contains(k) by {
        assert(a.1.contains(k));
        assert(b.1.contains(k));
        assert(c.1.contains(k));
    }
    assert forall|j: int|
        0 <= j < n && #[trigger] d.0[j] && !d.1.contains(j as u32) implies d.0[right(l, j)] && d.0[down(l, j)]
            && d.0[left(l, j)] && d.0[up(l, j)] by {
        if j != i {
            assert(st.0[j]);
            if st.1.contains(j as u32) {
                let t = choose|t: int| 0 <= t < st.1.len() && st.1[t] == j as u32;
                assert(t < st.1.len() - 1);
                assert(st0.1[t] == j as u32);
                assert(st0.1.contains(j as u32));
            }
            lemma_neighbors(l, j);
        }
    }
}

/// The growth invariant survives any number of pops.
proof fn lemma_grow_saturated(l: int, s: Seq<i8>, thr: u64, seed: int, st: GrowState, k: nat)
    requires
        2 <= l,
        l * l <= u32::MAX,
        thr >= 0x20_0000_0000_0000u64,
        s.len() == l * l,
        0 <= seed < l * l,
        forall|j: int| 0 <= j < l * l ==> #[trigger] s[j] == s[seed],
        saturated_growth(l, seed, st),
    ensures
        saturated_growth(l, seed, grow_iter(l, s, thr, st, k)),
    decreases k,
{
    if k > 0 && st.1.len() > 0 {
        lemma_pop_saturated(l, s, thr, seed, st);
        lemma_grow_saturated(l, s, thr, seed, pop_step(l, s, thr, st), (k - 1) as nat);
    }
}

/// With every bond activated (a threshold of at least 2^53) on a lattice
/// whose spins all agree, a complete growth takes in every site, so the
/// move flips the whole lattice.
pub proof fn law_saturated_bonds_take_the_whole_uniform_lattice(
    l: int,
    s: Seq<i8>,
    thr: u64,
    seed: int,
    r: XoState,
    c: Seq<u32>,
    r_after: XoState,
)
    requires
        2 <= l,
        l * l <= u32::MAX,
        thr >= 0x20_0000_0000_0000u64,
        s.len() == l * l,
        0 <= seed < l * l,
        forall|j: int| 0 <= j < l * l ==> #[trigger] s[j] == s[seed],
        grow_outcome(l, s, thr, seed, r, c, r_after),
    ensures
        forall|j: int| 0 <= j < l * l ==> #[trigger] c.contains(j as u32),
        flip_set(s, member_mask(l * l, c)) == Seq::new(s.len(), |j: int| (-s[j]) as i8),
{
    let n = l * l;
    let start = grow_start(n, seed, r);
    let k = choose|k: nat|
        {
            let st = #[trigger] grow_iter(l, s, thr, start, k);
            &&& st.1.len() == 0
            &&& st.2 == c
            &&& st.3 == r_after
        };
    let fin = grow_iter(l, s, thr, start, k);
    assert(start.1 == seq![seed as u32]);
    assert(start.2 == seq![seed as u32]);
    assert forall|j: int| 0 <= j < n implies (#[trigger] start.0[j] <==> start.2.contains(j as u32)) by {
        if j == seed {
            assert(start.2[0] == seed as u32);
        }
        if start.2.contains(j as u32) {
            let t = choose|t: int| 0 <= t < start.2.len() && start.2[t] == j as u32;
            assert(t == 0);
        }
    }
    assert forall|j: int| 0 <= j < n && #[trigger] start.0[j] && !start.1.contains(j as u32) implies start.0[right(l, j)]
        && start.0[down(l, j)] && start.0[left(l, j)] && start.0[up(l, j)] by {
        assert(start.1[0] == seed as u32);
    }
    assert(saturated_growth(l, seed, start));
    lemma_grow_saturated(l, s, thr, seed, start, k);
    let m = |j: int| fin.0[j];
    assert forall|i: int| 0 <= i < n && #[trigger] m(i) implies m(right(l, i)) && m(down(l, i)) by {
        assert(!fin.1.contains(i as u32));
        assert(fin.0[i]);
    }
    crate::ising::torus::lemma_closed_set_is_everything(l, m, seed);
    assert forall|j: int| 0 <= j < n implies #[trigger] c.contains(j as u32) by {
        assert(m(j));
        assert(fin.0[j]);
    }
    assert(flip_set(s, member_mask(n, c)) =~= Seq::new(s.len(), |j: int| (-s[j]) as i8));
}

pub struct Wolff {
    lattice: Lattice,
    rng: Xoshiro256,
    /// A bond is activated when the top 53 bits of a draw fall below this.
    bond_threshold: u64,
    in_cluster: Vec<bool>,
    stack: Vec<u32>,
    cluster: Vec<u32>,
    flipped_total: u64,
    moves: u64,
}

impl Wolff {
    /// The lattice being sampled.
    pub closed spec fn lat(&self) -> Lattice {
        self.lattice
    }

    /// The generator state.
    pub closed spec fn rng_state(&self) -> XoState {
        self.rng@
    }

    /// The bond activation threshold.
    pub closed spec fn threshold(&self) -> u64 {
        self.bond_threshold
    }

    /// The cluster of the last move, in the order its sites joined.
    pub closed spec fn last_cluster(&self) -> Seq<u32> {
        self.cluster@
    }

    /// Spins flipped since construction or the last reset.
    pub closed spec fn flipped_count(&self) -> int {
        self.flipped_total as int
    }

    /// Moves since construction or the last reset.
    pub closed spec fn move_count(&self) -> int {
        self.moves as int
    }

    /// Between moves no site is marked as in the cluster.
    pub closed spec fn marks_clear(&self) -> bool {
        &&& self.in_cluster@.len() == self.lattice.size()
        &&& forall|j: int| 0 <= j < self.in_cluster@.len() ==> !#[trigger] self.in_cluster@[j]
    }

    pub open spec fn wf(&self) -> bool {
        &&& self.lat().wf()
        &&& self.marks_clear()
    }

    pub fn new(lattice: Lattice, rng: Xoshiro256, bond_threshold: u64) -> (w: Self)
        requires
            lattice.wf(),
        ensures
            w.wf(),
            w.lat() == lattice,
            w.rng_state() == rng@,
            w.threshold() == bond_threshold,
            w.flipped_count() == 0,
            w.move_count() == 0,
    {
        let n = lattice.site_count();
        Wolff {
            lattice,
            rng,
            bond_threshold,
            in_cluster: vec![false; n],
            stack: Vec::with_capacity(n),
            cluster: Vec::with_capacity(n),
            flipped_total: 0,
            moves: 0,
        }
    }

    /// Replace the bond threshold (a new temperature).
    pub fn set_bond_threshold(&mut self, bond_threshold: u64)
        requires
            old(self).wf(),
        ensures
            final(self).wf(),
            final(self).lat() == old(self).lat(),
            final(self).rng_state() == old(self).rng_state(),
            final(self).threshold() == bond_threshold,
            final(self).flipped_count() == old(self).flipped_count(),
            final(self).move_count() == old(self).move_count(),
    {
        self.bond_threshold = bond_threshold;
    }

    /// The bond activation threshold.
    pub fn bond_threshold(&self) -> (r: u64)
        ensures
            r == self.threshold(),
    {
        self.bond_threshold
    }

    /// Spins flipped since construction or the last reset.
    pub fn flipped_total(&self) -> (r: u64)
        ensures
            r == self.flipped_count(),
    {
        self.flipped_total
    }

    /// Moves since construction or the last reset.
    pub fn moves(&self) -> (r: u64)
        ensures
            r == self.move_count(),
    {
        self.moves
    }

    /// The lattice being sampled.
    pub fn lattice(&self) -> (r: &Lattice)
        ensures
            *r == self.lat(),
    {
        &self.lattice
    }

    /// Zero the cluster-size counters (the table reports them per
    /// temperature).
    pub fn reset_stats(&mut self)
        requires
            old(self).wf(),
        ensures
            final(self).wf(),
            final(self).lat() == old(self).lat(),
            final(self).rng_state() == old(self).rng_state(),
            final(self).threshold() == old(self).threshold(),
            final(self).flipped_count() == 0,
            final(self).move_count() == 0,
    {
        self.flipped_total = 0;
        self.moves = 0;
    }
}

impl Wolff {
    /// The state while a cluster grows from `seed` on the lattice `lat0`:
    /// the marks match the cluster, the cluster is a grown cluster, the
    /// stack holds cluster sites, and the generator has made `draws` draws.
    spec fn growing(&self, lat0: Lattice, spin: i8, seed: int, r1: XoState, draws: nat) -> bool {
        let n = lat0.size();
        let l = lat0.side();
        let s0 = lat0.spins_view();
        &&& self.lattice == lat0
        &&& lat0.wf()
        &&& 0 <= seed < n
        &&& s0[seed] == spin
        &&& self.in_cluster@.len() == n
        &&& forall|j: int|
            0 <= j < n ==> (#[trigger] self.in_cluster@[j] <==> self.cluster@.contains(j as u32))
        &&& grown_cluster(l, s0, seed, self.cluster@)
        &&& self.cluster@.len() <= n
        &&& forall|t: int|
            0 <= t < self.stack@.len() ==> self.cluster@.contains(#[trigger] self.stack@[t])
        &&& self.rng@ == xo_state_after(r1, draws)
    }

    /// Test the bond from cluster site i to its neighbour j: a same-spin
    /// neighbour not yet in the cluster costs one draw and joins when the
    /// draw's top 53 bits fall below the threshold.
    fn consider(
        &mut self,
        i: u32,
        j: u32,
        Ghost(lat0): Ghost<Lattice>,
        Ghost(spin): Ghost<i8>,
        Ghost(seed): Ghost<int>,
        Ghost(r1): Ghost<XoState>,
        Ghost(draws): Ghost<nat>,
    ) -> (d: Ghost<nat>)
        requires
            old(self).growing(lat0, spin, seed, r1, draws),
            old(self).cluster@.contains(i),
            i < lat0.size(),
            adjacent(lat0.side(), i as int, j as int),
            j < lat0.size(),
        ensures
            final(self).growing(lat0, spin, seed, r1, d@),
            final(self).cluster@.len() - old(self).cluster@.len() == final(self).stack@.len()
                - old(self).stack@.len(),
            old(self).cluster@.len() <= final(self).cluster@.len() <= old(self).cluster@.len() + 1,
            forall|x: u32| #[trigger]
                old(self).cluster@.contains(x) ==> final(self).cluster@.contains(x),
            (final(self).in_cluster@, final(self).stack@, final(self).cluster@, final(self).rng@)
                == consider_spec(
                lat0.spins_view(),
                old(self).bond_threshold,
                (old(self).in_cluster@, old(self).stack@, old(self).cluster@, old(self).rng@),
                i as int,
                j as int,
            ),
            final(self).bond_threshold == old(self).bond_threshold,
            final(self).flipped_total == old(self).flipped_total,
            final(self).moves == old(self).moves,
    {
        let ghost n = lat0.size();
        let ghost l = lat0.side();
        let ghost s0 = lat0.spins_view();
        let ju = j as usize;
        let iu = i as usize;
        let same_spin = self.lattice.spin_at(ju) == self.lattice.spin_at(iu);
        if self.in_cluster[ju] || !same_spin {
            return Ghost(draws);
        }
        let x = self.rng.next_u64();
        let ghost c_old = self.cluster@;
        if (x >> 11) < self.bond_threshold {
            self.in_cluster.set(ju, true);
            self.stack.push(j);
            self.cluster.push(j);
            proof {
                let c = self.cluster@;
                assert(!c_old.contains(j)) by {
                    assert(!self.in_cluster@[ju as int] || ju as int == j as int);
                }
                assert(c =~= c_old.push(j));
                assert forall|a: int, b: int| 0 <= a < b < c.len() implies c[a] != c[b] by {
                    if b == c.len() - 1 {
                        assert(c[b] == j);
                        if c[a] == j {
                            assert(c_old[a] == j);
                        }
                    } else {
                        assert(c[a] == c_old[a] && c[b] == c_old[b]);
                    }
                }
                let ui = choose|u: int| 0 <= u < c_old.len() && c_old[u] == i;
                assert(s0[i as int] == spin) by {
                    assert(s0[c_old[ui] as int] == s0[seed]);
                }
                assert forall|t: int| 1 <= t < c.len() implies #[trigger] joined_next_to_earlier(
                    l,
                    c,
                    t,
                ) by {
                    if t == c.len() - 1 {
                        assert(c[ui] == i);
                        assert(adjacent(l, c[ui] as int, c[t] as int));
                    } else {
                        assert(joined_next_to_earlier(l, c_old, t));
                        let u = choose|u: int| 0 <= u < t && #[trigger] adjacent(
                            l,
                            c_old[u] as int,
                            c_old[t] as int,
                        );
                        assert(c[u] == c_old[u] && c[t] == c_old[t]);
                        assert(adjacent(l, c[u] as int, c[t] as int));
                    }
                }
                assert forall|t: int| 0 <= t < c.len() implies s0[#[trigger] c[t] as int] == s0[seed]
                    && c[t] < l * l by {
                    if t < c.len() - 1 {
                        assert(c[t] == c_old[t]);
                    }
                }
                assert forall|jj: int| 0 <= jj < n implies (#[trigger] self.in_cluster@[jj]
                    <==> c.contains(jj as u32)) by {
                    if jj == ju as int {
                        assert(c[c.len() - 1] == j);
                    } else {
                        assert(jj as u32 != j);
                        if c.contains(jj as u32) {
                            let u = choose|u: int| 0 <= u < c.len() && c[u] == jj as u32;
                            assert(u != c.len() - 1);
                            assert(c_old[u] == jj as u32);
                        }
                        if c_old.contains(jj as u32) {
                            let u = choose|u: int| 0 <= u < c_old.len() && c_old[u] == jj as u32;
                            assert(c[u] == jj as u32);
                        }
                    }
                }
                assert forall|t: int| 0 <= t < self.stack@.len() implies c.contains(
                    #[trigger] self.stack@[t],
                ) by {
                    if t == self.stack@.len() - 1 {
                        assert(c[c.len() - 1] == j);
                    } else {
                        let st = self.stack@[t];
                        assert(c_old.contains(st));
                        let u = choose|u: int| 0 <= u < c_old.len() && c_old[u] == st;
                        assert(c[u] == st);
                    }
                }
                lemma_list_len_bound(c, n);
                assert forall|xx: u32| #[trigger] c_old.contains(xx) implies c.contains(xx) by {
                    let u = choose|u: int| 0 <= u < c_old.len() && c_old[u] == xx;
                    assert(c[u] == xx);
                }
            }
        }
        Ghost(draws + 1)
    }

    /// Grow the cluster of same-spin sites from `seed`; returns the number
    /// of draws the bond tests used.
    fn grow(&mut self, seed: usize) -> (d: Ghost<nat>)
        requires
            old(self).wf(),
            seed < old(self).lat().size(),
        ensures
            final(self).growing(
                old(self).lattice,
                old(self).lat().spins_view()[seed as int],
                seed as int,
                old(self).rng@,
                d@,
            ),
            final(self).stack@.len() == 0,
            grow_outcome(
                old(self).lat().side(),
                old(self).lat().spins_view(),
                old(self).bond_threshold,
                seed as int,
                old(self).rng@,
                final(self).cluster@,
                final(self).rng@,
            ),
            final(self).bond_threshold == old(self).bond_threshold,
            final(self).flipped_total == old(self).flipped_total,
            final(self).moves == old(self).moves,
    {
        let ghost lat0 = self.lattice;
        let ghost thr = self.bond_threshold;
        let ghost n = lat0.size();
        let ghost l = lat0.side();
        let ghost s0 = lat0.spins_view();
        let ghost spin = s0[seed as int];
        let ghost r1 = self.rng@;
        self.in_cluster.set(seed, true);
        self.stack.clear();
        self.cluster.clear();
        self.stack.push(seed as u32);
        self.cluster.push(seed as u32);
        let ghost mut draws: nat = 0;
        let ghost start = grow_start(n, seed as int, r1);
        let ghost mut it: nat = 0;
        proof {
            assert(self.in_cluster@ =~= start.0);
            assert(self.stack@ =~= start.1);
            assert(self.cluster@ =~= start.2);
            let c = self.cluster@;
            assert(c =~= seq![seed as u32]);
            assert forall|jj: int| 0 <= jj < n implies (#[trigger] self.in_cluster@[jj]
                <==> c.contains(jj as u32)) by {
                if jj == seed as int {
                    assert(c[0] == seed as u32);
                } else {
                    assert(jj as u32 != seed as u32);
                    if c.contains(jj as u32) {
                        let u = choose|u: int| 0 <= u < c.len() && c[u] == jj as u32;
                        assert(u == 0);
                    }
                }
            }
            assert(self.stack@[0] == seed as u32);
            assert(c[0] == seed as u32);
            assert(c.len() <= n);
        }
        while self.stack.len() > 0
            invariant
                self.growing(lat0, spin, seed as int, r1, draws),
                self.bond_threshold == old(self).bond_threshold,
                self.flipped_total == old(self).flipped_total,
                self.moves == old(self).moves,
                l == lat0.side(),
                n == lat0.size(),
                s0 == lat0.spins_view(),
                thr == self.bond_threshold,
                start == grow_start(n, seed as int, r1),
                (self.in_cluster@, self.stack@, self.cluster@, self.rng@) == grow_iter(l, s0, thr, start, it),
            decreases 5 * (n - self.cluster@.len()) + self.stack@.len(),
        {
            let ghost g = (self.in_cluster@, self.stack@, self.cluster@, self.rng@);
            proof {
                lemma_grow_iter_succ(l, s0, thr, start, it);
            }
            let i = self.stack.pop().unwrap();
            let ghost popped = self.stack@;
            proof {
                assert(self.cluster@.contains(i));
                let u = choose|u: int| 0 <= u < self.cluster@.len() && self.cluster@[u] == i;
                assert(i < n);
                lemma_neighbors(l, i as int);
            }
            let nb = *self.lattice.neighbors(i as usize);
            let Ghost(d1) = self.consider(i, nb[0], Ghost(lat0), Ghost(spin), Ghost(seed as int), Ghost(r1), Ghost(draws));
            let Ghost(d2) = self.consider(i, nb[1], Ghost(lat0), Ghost(spin), Ghost(seed as int), Ghost(r1), Ghost(d1));
            let Ghost(d3) = self.consider(i, nb[2], Ghost(lat0), Ghost(spin), Ghost(seed as int), Ghost(r1), Ghost(d2));
            let Ghost(d4) = self.consider(i, nb[3], Ghost(lat0), Ghost(spin), Ghost(seed as int), Ghost(r1), Ghost(d3));
            proof {
                draws = d4;
                it = it + 1;
                assert(i == g.1.last());
            }
        }
        proof {
            let st = grow_iter(l, s0, thr, start, it);
            assert(st.1.len() == 0 && st.2 == self.cluster@ && st.3 == self.rng@);
        }
        Ghost(draws)
    }
}

impl Wolff {
    /// What the bond from a cluster site of spin `spin` to site j
    /// contributes to the energy change of flipping the cluster: 0 inside
    /// the cluster, +2 to a same-spin site outside, -2 to an opposite one.
    fn boundary_contrib(&self, j: u32, spin: i8) -> (r: i64)
        requires
            self.lattice.wf(),
            j < self.lattice.size(),
            self.in_cluster@.len() == self.lattice.size(),
            spin == 1 || spin == -1,
        ensures
            r == (if self.in_cluster@[j as int] {
                0
            } else {
                2 * (spin as int) * (self.lattice.spins_view()[j as int] as int)
            }),
    {
        let ghost sj = self.lattice.spins_view()[j as int] as int;
        proof {
            crate::ising::torus::lemma_spin_product(spin as int, sj);
            assert(2 * (spin as int) * sj == 2 * ((spin as int) * sj)) by (nonlinear_arith);
        }
        if self.in_cluster[j as usize] {
            0
        } else if self.lattice.spin_at(j as usize) == spin {
            2
        } else {
            -2
        }
    }

    /// Flip the grown cluster and update magnetization and energy. Boundary
    /// bonds change: same-spin neighbours cost +2, opposite-spin give -2.
    fn flip_cluster(&mut self)
        requires
            old(self).lattice.wf(),
            old(self).in_cluster@.len() == old(self).lattice.size(),
            forall|j: int|
                0 <= j < old(self).lattice.size() ==> (#[trigger] old(self).in_cluster@[j]
                    <==> old(self).cluster@.contains(j as u32)),
            grown_cluster(
                old(self).lattice.side(),
                old(self).lattice.spins_view(),
                old(self).cluster@[0] as int,
                old(self).cluster@,
            ),
            old(self).flipped_total + old(self).lattice.size() <= u64::MAX,
            old(self).moves < u64::MAX,
        ensures
            final(self).wf(),
            final(self).lattice.side() == old(self).lattice.side(),
            final(self).lattice.size() == old(self).lattice.size(),
            final(self).lattice.spins_view() == flip_set(
                old(self).lattice.spins_view(),
                member_mask(old(self).lattice.size(), old(self).cluster@),
            ),
            final(self).cluster@ == old(self).cluster@,
            final(self).rng@ == old(self).rng@,
            final(self).bond_threshold == old(self).bond_threshold,
            final(self).flipped_total == old(self).flipped_total + old(self).cluster@.len(),
            final(self).moves == old(self).moves + 1,
    {
        let ghost n = self.lattice.size();
        let ghost l = self.lattice.side();
        let ghost s0 = self.lattice.spins_view();
        let ghost c = self.cluster@;
        proof {
            lemma_list_len_bound(c, n);
            assert(s0[c[0] as int] == 1 || s0[c[0] as int] == -1);
        }
        let spin = self.lattice.spin_at(self.cluster[0] as usize);
        let mut delta_e: i64 = 0;
        let mut t: usize = 0;
        while t < self.cluster.len()
            invariant
                self.lattice.wf(),
                self.lattice.size() == n,
                self.lattice.side() == l,
                self.lattice.spins_view() == s0,
                self.cluster@ == c,
                self.in_cluster@.len() == n,
                forall|j: int| 0 <= j < n ==> (#[trigger] self.in_cluster@[j] <==> c.contains(j as u32)),
                grown_cluster(l, s0, c[0] as int, c),
                spin == s0[c[0] as int],
                spin == 1 || spin == -1,
                c.len() <= n,
                n <= u32::MAX,
                0 <= t <= c.len(),
                delta_e == sum_to(|u: int| cluster_site_term(l, s0, c, c[u] as int), t as int),
                -8 * t <= delta_e <= 8 * t,
                self.flipped_total == old(self).flipped_total,
                self.moves == old(self).moves,
                self.rng@ == old(self).rng@,
                self.bond_threshold == old(self).bond_threshold,
            decreases c.len() - t,
        {
            let i = self.cluster[t];
            proof {
                lemma_neighbors(l, i as int);
            }
            let nb = *self.lattice.neighbors(i as usize);
            let e0 = self.boundary_contrib(nb[0], spin);
            let e1 = self.boundary_contrib(nb[1], spin);
            let e2 = self.boundary_contrib(nb[2], spin);
            let e3 = self.boundary_contrib(nb[3], spin);
            let e = e0 + e1 + e2 + e3;
            proof {
                let m = member_mask(n, c);
                let sp = spin as int;
                let o0 = outside(s0, m, right(l, i as int));
                let o1 = outside(s0, m, down(l, i as int));
                let o2 = outside(s0, m, left(l, i as int));
                let o3 = outside(s0, m, up(l, i as int));
                assert(s0[i as int] == spin);
                assert(e0 == 2 * sp * o0);
                assert(e1 == 2 * sp * o1);
                assert(e2 == 2 * sp * o2);
                assert(e3 == 2 * sp * o3);
                assert(2 * sp * (o0 + o1 + o2 + o3) == 2 * sp * o0 + 2 * sp * o1 + 2 * sp * o2 + 2 * sp
                    * o3) by (nonlinear_arith);
                assert(e == cluster_site_term(l, s0, c, i as int));
            }
            delta_e = delta_e + e;
            t += 1;
        }
        proof {
            lemma_cluster_energy(l, s0, c);
            let f = |j: int| cluster_site_term(l, s0, c, j);
            crate::ising::sums::lemma_sum_ext(
                |u: int| cluster_site_term(l, s0, c, c[u] as int),
                |u: int| f(c[u] as int),
                c.len() as int,
            );
        }
        self.lattice.flip_sites(&self.cluster, spin, delta_e);
        let ghost lat1 = self.lattice;
        assert(c.skip(0) =~= c);
        let mut t: usize = 0;
        while t < self.cluster.len()
            invariant
                self.cluster@ == c,
                c.no_duplicates(),
                forall|u: int| 0 <= u < c.len() ==> #[trigger] c[u] < n,
                self.in_cluster@.len() == n,
                n <= u32::MAX,
                0 <= t <= c.len(),
                forall|j: int| 0 <= j < n ==> (#[trigger] self.in_cluster@[j] <==> c.skip(t as int).contains(j as u32)),
                self.lattice == lat1,
                c.len() <= n,
                self.flipped_total == old(self).flipped_total,
                self.moves == old(self).moves,
                self.rng@ == old(self).rng@,
                self.bond_threshold == old(self).bond_threshold,
            decreases c.len() - t,
        {
            let i = self.cluster[t];
            let ghost before = self.in_cluster@;
            self.in_cluster.set(i as usize, false);
            proof {
                assert forall|j: int| 0 <= j < n implies (#[trigger] self.in_cluster@[j] <==> c.skip(
                    t as int + 1,
                ).contains(j as u32)) by {
                    if j == i as int {
                        if c.skip(t as int + 1).contains(j as u32) {
                            let u = choose|u: int|
                                #![trigger c.skip(t as int + 1)[u]]
                                0 <= u < c.skip(t as int + 1).len() && c.skip(t as int + 1)[u] == j as u32;
                            assert(c[t as int + 1 + u] == c[t as int]);
                        }
                    } else {
                        assert(j as u32 != i);
                        if c.skip(t as int + 1).contains(j as u32) {
                            let u = choose|u: int|
                                #![trigger c.skip(t as int + 1)[u]]
                                0 <= u < c.skip(t as int + 1).len() && c.skip(t as int + 1)[u] == j as u32;
                            assert(c.skip(t as int)[u + 1] == j as u32);
                        }
                        if c.skip(t as int).contains(j as u32) {
                            let u = choose|u: int|
                                #![trigger c.skip(t as int)[u]]
                                0 <= u < c.skip(t as int).len() && c.skip(t as int)[u] == j as u32;
                            assert(u != 0);
                            assert(c.skip(t as int + 1)[u - 1] == j as u32);
                        }
                    }
                }
            }
            t += 1;
        }
        proof {
            assert forall|j: int| 0 <= j < self.in_cluster@.len() implies !#[trigger] self.in_cluster@[j] by {
                assert(c.skip(c.len() as int).len() == 0);
            }
        }
        let size = self.cluster.len();
        self.flipped_total = self.flipped_total + size as u64;
        self.moves = self.moves + 1;
    }

    /// Grow and flip one cluster; returns the number of spins flipped.
    pub fn move_once(&mut self) -> (c: usize)
        requires
            old(self).wf(),
            old(self).flipped_count() + old(self).lat().size() <= u64::MAX,
            old(self).move_count() < u64::MAX,
        ensures
            final(self).wf(),
            final(self).lat().side() == old(self).lat().side(),
            final(self).lat().size() == old(self).lat().size(),
            final(self).threshold() == old(self).threshold(),
            grown_cluster(
                old(self).lat().side(),
                old(self).lat().spins_view(),
                (xo_output(old(self).rng_state()) % (old(self).lat().size() as u64)) as int,
                final(self).last_cluster(),
            ),
            c == final(self).last_cluster().len(),
            final(self).lat().spins_view() == flip_set(
                old(self).lat().spins_view(),
                member_mask(old(self).lat().size(), final(self).last_cluster()),
            ),
            exists|k: nat| final(self).rng_state() == #[trigger] xo_state_after(xo_advance(old(self).rng_state()), k),
            grow_outcome(
                old(self).lat().side(),
                old(self).lat().spins_view(),
                old(self).threshold(),
                (xo_output(old(self).rng_state()) % (old(self).lat().size() as u64)) as int,
                xo_advance(old(self).rng_state()),
                final(self).last_cluster(),
                final(self).rng_state(),
            ),
            final(self).flipped_count() == old(self).flipped_count() + c,
            final(self).move_count() == old(self).move_count() + 1,
    {
        let ghost r0 = self.rng@;
        let n = self.lattice.site_count() as u64;
        proof {
            let l = self.lattice.side();
            assert(l * l >= 4) by (nonlinear_arith)
                requires
                    l >= 2,
            ;
        }
        let seed = self.rng.next_below(n) as usize;
        let Ghost(draws) = self.grow(seed);
        let c = self.cluster.len();
        self.flip_cluster();
        assert(self.rng@ == xo_state_after(xo_advance(r0), draws));
        c
    }
}

} // verus!
