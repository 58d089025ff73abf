//! The L by L periodic Ising lattice: spins, energy, magnetization, and the
//! energy change of a single spin flip (J = 1).
//!
//! The running magnetization and energy are kept equal to the spin sum and
//! to the bond energy of the current spins by every operation (`wf`).

use vstd::prelude::*;
use crate::ising::sums::{sum_to, sum_list, lemma_sum_const};
use crate::ising::torus::{
    right, down, left, up, valid_spins, spin_sum, h_bond, v_bond, ising_energy, flip_delta,
    flip_one, flip_set, member_mask, cluster_site_term, lemma_coords, lemma_neighbors,
    lemma_flip_one_energy, lemma_flip_one_sum, lemma_bounds, lemma_spin_product,
    lemma_cluster_sum,
};

verus! {

/// Entry i of the neighbour table: right, down, left, up.
pub open spec fn nbr_ok(l: int, i: int, e: [u32; 4]) -> bool {
    &&& e[0] as int == right(l, i)
    &&& e[1] as int == down(l, i)
    &&& e[2] as int == left(l, i)
    &&& e[3] as int == up(l, i)
}

/// Spins +1/-1 on an L by L torus, row-major, site y * l + x.
pub struct Lattice {
    l: usize,
    n: usize,
    /// +1 or -1, row-major; site y*l + x.
    spins: Vec<i8>,
    /// Precomputed periodic neighbour table (right, down, left, up).
    neighbors: Vec<[u32; 4]>,
    /// Running sum of spins and total energy (sum over bonds of -s_i s_j).
    mag_sum: i64,
    energy: i64,
}

impl Lattice {
    /// The neighbour table lists the four periodic neighbours of every site.
    pub closed spec fn table_ok(&self) -> bool {
        &&& self.neighbors@.len() == self.n
        &&& forall|i: int|
            0 <= i < self.size() ==> nbr_ok(self.side(), i, #[trigger] self.neighbors@[i])
    }

    /// The running magnetization sum.
    pub closed spec fn mag_view(&self) -> int {
        self.mag_sum as int
    }

    /// The running energy.
    pub closed spec fn energy_view(&self) -> int {
        self.energy as int
    }

    /// The side L.
    pub closed spec fn side(&self) -> int {
        self.l as int
    }

    /// The number of sites L^2.
    pub closed spec fn size(&self) -> int {
        self.n as int
    }

    /// The spins, row-major.
    pub closed spec fn spins_view(&self) -> Seq<i8> {
        self.spins@
    }

    /// Well-formed: an L by L torus (L >= 2) whose running sums agree with
    /// its spins.
    pub open spec fn wf(&self) -> bool {
        &&& 2 <= self.side()
        &&& self.size() == self.side() * self.side()
        &&& self.size() <= u32::MAX
        &&& self.spins_view().len() == self.size()
        &&& valid_spins(self.spins_view())
        &&& self.table_ok()
        &&& self.mag_view() == spin_sum(self.spins_view())
        &&& self.energy_view() == ising_energy(self.side(), self.spins_view())
    }

    /// The side L.
    pub fn side_len(&self) -> (r: usize)
        ensures
            r == self.side(),
    {
        self.l
    }

    /// The number of sites L^2.
    pub fn site_count(&self) -> (r: usize)
        ensures
            r == self.size(),
    {
        self.n
    }

    /// The spins, row-major.
    pub fn spins(&self) -> (r: &Vec<i8>)
        ensures
            r@ == self.spins_view(),
    {
        &self.spins
    }

    /// The spin at `site`.
    pub fn spin_at(&self, site: usize) -> (r: i8)
        requires
            site < self.spins_view().len(),
        ensures
            r == self.spins_view()[site as int],
    {
        self.spins[site]
    }

    /// All spins up: E = -2 L^2, M = L^2.
    pub fn all_up(l: usize) -> (r: Self)
        requires
            l >= 2,
            l * l <= u32::MAX,
        ensures
            r.wf(),
            r.side() == l,
            r.spins_view() == Seq::new((l * l) as nat, |i: int| 1i8),
            r.mag_view() == l * l,
            r.energy_view() == -2 * (l * l),
    {
        let n = l * l;
        assert(l < 65536) by (nonlinear_arith)
            requires
                l * l <= u32::MAX,
                l >= 2,
        ;
        let mut neighbors: Vec<[u32; 4]> = Vec::with_capacity(n);
        let mut i: usize = 0;
        while i < n
            invariant
                2 <= l < 65536,
                n == l * l,
                n <= u32::MAX,
                i <= n,
                neighbors@.len() == i,
                forall|j: int| 0 <= j < i ==> nbr_ok(l as int, j, #[trigger] neighbors@[j]),
            decreases n - i,
        {
            proof {
                lemma_coords(l as int, i as int);
                lemma_neighbors(l as int, i as int);
            }
            let y = i / l;
            let x = i % l;
            let e: [u32; 4] = [
                (y * l + (x + 1) % l) as u32,
                (((y + 1) % l) * l + x) as u32,
                (y * l + (x + l - 1) % l) as u32,
                (((y + l - 1) % l) * l + x) as u32,
            ];
            neighbors.push(e);
            i += 1;
        }
        let spins = vec![1i8; n];
        let ghost s = spins@;
        proof {
            assert(s =~= Seq::new(n as nat, |i: int| 1i8));
            assert(valid_spins(s));
            lemma_sum_const(|i: int| s[i] as int, 1, n as int);
            assert forall|i: int|
                #![trigger h_bond(l as int, s, i)]
                #![trigger v_bond(l as int, s, i)]
                0 <= i < n implies h_bond(l as int, s, i) == 1 && v_bond(
                l as int,
                s,
                i,
            ) == 1 by {
                lemma_neighbors(l as int, i);
                lemma_spin_product(1, 1);
            }
            lemma_sum_const(|i: int| h_bond(l as int, s, i), 1, n as int);
            lemma_sum_const(|i: int| v_bond(l as int, s, i), 1, n as int);
        }
        Lattice { l, n, spins, neighbors, mag_sum: n as i64, energy: -2 * (n as i64) }
    }

    /// The four neighbours of `site`: right, down, left, up.
    pub fn neighbors(&self, site: usize) -> (r: &[u32; 4])
        requires
            self.wf(),
            site < self.size(),
        ensures
            nbr_ok(self.side(), site as int, *r),
    {
        &self.neighbors[site]
    }

    /// The total energy, sum over bonds of -s_i s_j.
    pub fn energy_total(&self) -> (r: i64)
        requires
            self.wf(),
        ensures
            r == ising_energy(self.side(), self.spins_view()),
    {
        self.energy
    }

    /// The sum of all spins.
    pub fn mag_sum(&self) -> (r: i64)
        requires
            self.wf(),
        ensures
            r == spin_sum(self.spins_view()),
    {
        self.mag_sum
    }

    /// Energy change of flipping `site`: 2 s_i (s_1 + s_2 + s_3 + s_4);
    /// takes values in {-8, -4, 0, 4, 8}.
    pub fn delta_e(&self, site: usize) -> (r: i64)
        requires
            self.wf(),
            site < self.size(),
        ensures
            r == flip_delta(self.side(), self.spins_view(), site as int),
            r == -8 || r == -4 || r == 0 || r == 4 || r == 8,
    {
        proof {
            lemma_neighbors(self.side(), site as int);
        }
        let nb = &self.neighbors[site];
        let s = self.spins[site] as i64;
        let sum = self.spins[nb[0] as usize] as i64 + self.spins[nb[1] as usize] as i64
            + self.spins[nb[2] as usize] as i64 + self.spins[nb[3] as usize] as i64;
        proof {
            assert(-4 <= sum <= 4);
            assert(sum == -4 || sum == -2 || sum == 0 || sum == 2 || sum == 4);
        }
        2 * s * sum
    }

    /// Flip `site` and update the running magnetization and energy.
    pub fn flip(&mut self, site: usize)
        requires
            old(self).wf(),
            site < old(self).size(),
        ensures
            final(self).wf(),
            final(self).side() == old(self).side(),
            final(self).size() == old(self).size(),
            final(self).spins_view() == flip_one(old(self).spins_view(), site as int),
    {
        let de = self.delta_e(site);
        self.flip_with(site, de);
    }

    /// Flip `site` given the energy change of the flip.
    pub fn flip_with(&mut self, site: usize, delta_e: i64)
        requires
            old(self).wf(),
            site < old(self).size(),
            delta_e == flip_delta(old(self).side(), old(self).spins_view(), site as int),
        ensures
            final(self).wf(),
            final(self).side() == old(self).side(),
            final(self).size() == old(self).size(),
            final(self).spins_view() == flip_one(old(self).spins_view(), site as int),
    {
        let ghost s0 = self.spins_view();
        let l = self.l;
        proof {
            lemma_flip_one_energy(l as int, s0, site as int);
            lemma_flip_one_sum(s0, site as int);
            lemma_bounds(l as int, flip_one(s0, site as int));
        }
        let s = self.spins[site];
        self.spins.set(site, -s);
        assert(self.spins_view() =~= flip_one(s0, site as int));
        self.mag_sum = self.mag_sum + 2 * (-s) as i64;
        self.energy = self.energy + delta_e;
    }

    /// Flip every site listed in `sites` (all holding `spin`, none twice),
    /// given the energy change of flipping that set.
    pub fn flip_sites(&mut self, sites: &Vec<u32>, spin: i8, delta_e: i64)
        requires
            old(self).wf(),
            sites@.no_duplicates(),
            forall|t: int| 0 <= t < sites@.len() ==> #[trigger] sites@[t] < old(self).size(),
            forall|t: int|
                0 <= t < sites@.len() ==> old(self).spins_view()[#[trigger] sites@[t] as int] == spin,
            delta_e == ising_energy(
                old(self).side(),
                flip_set(old(self).spins_view(), member_mask(old(self).size(), sites@)),
            ) - ising_energy(old(self).side(), old(self).spins_view()),
        ensures
            final(self).wf(),
            final(self).side() == old(self).side(),
            final(self).size() == old(self).size(),
            final(self).spins_view() == flip_set(old(self).spins_view(), member_mask(old(self).size(), sites@)),
    {
        let ghost s0 = self.spins_view();
        let ghost n = self.size();
        let ghost l = self.side();
        let mut t: usize = 0;
        while t < sites.len()
            invariant
                0 <= t <= sites@.len(),
                s0.len() == n,
                valid_spins(s0),
                sites@.no_duplicates(),
                forall|u: int| 0 <= u < sites@.len() ==> #[trigger] sites@[u] < n,
                forall|u: int| 0 <= u < sites@.len() ==> s0[#[trigger] sites@[u] as int] == spin,
                self.spins_view() == flip_set(s0, member_mask(n, sites@.take(t as int))),
                self.l as int == l,
                self.n as int == n,
                2 <= l,
                n == l * l,
                n <= u32::MAX,
                self.table_ok(),
                self.mag_sum as int == spin_sum(s0),
                self.energy as int == ising_energy(l, s0),
            decreases sites@.len() - t,
        {
            let i = sites[t] as usize;
            let v = self.spins[i];
            let ghost before = self.spins_view();
            assert(!sites@.take(t as int).contains(i as u32)) by {
                if sites@.take(t as int).contains(i as u32) {
                    let u = choose|u: int| 0 <= u < t && sites@.take(t as int)[u] == i as u32;
                    assert(sites@[u] == sites@[t as int]);
                }
            }
            self.spins.set(i, -v);
            assert(sites@.take(t as int + 1) =~= sites@.take(t as int).push(sites@[t as int]));
            assert(sites@.take(t as int + 1)[t as int] == i as u32);
            assert(self.spins_view() =~= flip_set(s0, member_mask(n, sites@.take(t as int + 1)))) by {
                assert forall|j: int| 0 <= j < n implies #[trigger] self.spins_view()[j] == flip_set(
                    s0,
                    member_mask(n, sites@.take(t as int + 1)),
                )[j] by {
                    if j != i as int {
                        assert(j == (j as u32) as int);
                        assert(j as u32 != i as u32);
                        if sites@.take(t as int + 1).contains(j as u32) {
                            let u = choose|u: int|
                                #![trigger sites@.take(t as int + 1)[u]]
                                0 <= u < t + 1 && sites@.take(t as int + 1)[u] == j as u32;
                            assert(u != t);
                            assert(sites@.take(t as int)[u] == j as u32);
                        }
                        if sites@.take(t as int).contains(j as u32) {
                            let u = choose|u: int| 0 <= u < t && sites@.take(t as int)[u] == j as u32;
                            assert(sites@.take(t as int + 1)[u] == j as u32);
                        }
                    } else {
                        assert(sites@.take(t as int + 1)[t as int] == j as u32);
                    }
                }
            }
            t += 1;
        }
        assert(sites@.take(sites@.len() as int) =~= sites@);
        let len = sites.len();
        proof {
            lemma_cluster_sum(s0, sites@, spin as int);
            lemma_bounds(l, flip_set(s0, member_mask(n, sites@)));
            lemma_bounds(l, s0);
            assert(len <= n) by {
                crate::ising::torus::lemma_list_len_bound(sites@, n);
            }
            let sp = spin as int;
            let ln = len as int;
            assert(-0x200_0000_0000 <= 2 * sp * ln <= 0x200_0000_0000) by (nonlinear_arith)
                requires
                    -128 <= sp <= 127,
                    0 <= ln <= u32::MAX,
            ;
        }
        self.mag_sum = self.mag_sum - 2 * (spin as i64) * (len as i64);
        self.energy = self.energy + delta_e;
    }

    /// Recount every bond from scratch: E = -2 L^2 + 2 N_disagree.
    pub fn recount_energy(&self) -> (r: i64)
        requires
            self.wf(),
        ensures
            r == ising_energy(self.side(), self.spins_view()),
    {
        let ghost l = self.side();
        let ghost s = self.spins_view();
        let mut disagree: i64 = 0;
        let mut i: usize = 0;
        while i < self.n
            invariant
                self.wf(),
                l == self.l,
                s == self.spins_view(),
                i <= self.n,
                0 <= disagree <= 2 * i,
                -2 * i + 2 * disagree == -(sum_to(|j: int| h_bond(l, s, j), i as int) + sum_to(
                    |j: int| v_bond(l, s, j),
                    i as int,
                )),
            decreases self.n - i,
        {
            proof {
                lemma_neighbors(l, i as int);
                lemma_spin_product(s[i as int] as int, s[right(l, i as int)] as int);
                lemma_spin_product(s[i as int] as int, s[down(l, i as int)] as int);
            }
            let nb = &self.neighbors[i];
            let v = self.spins[i];
            if v != self.spins[nb[0] as usize] {
                disagree += 1;
            }
            if v != self.spins[nb[1] as usize] {
                disagree += 1;
            }
            i += 1;
        }
        -2 * (self.n as i64) + 2 * disagree
    }
}

} // verus!
