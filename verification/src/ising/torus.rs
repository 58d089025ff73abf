//! Geometry of the periodic L by L lattice (site y * L + x) and the energy
//! identities of flipping one spin or a whole set of spins.

use vstd::prelude::*;
use crate::ising::sums::{
    sum_to, sum_list, restrict, lemma_sum_ext, lemma_sum_add, lemma_sum_rows, lemma_sum_rotate,
    lemma_sum_single, lemma_sum_bound, lemma_sum_list, lemma_sum_const,
};
use vstd::arithmetic::div_mod::{
    lemma_fundamental_div_mod, lemma_fundamental_div_mod_converse, lemma_mod_bound,
};

verus! {

/// The neighbour to the right of site i, wrapping at the edge.
pub open spec fn right(l: int, i: int) -> int {
    (i / l) * l + (i % l + 1) % l
}

/// The neighbour below site i, wrapping at the edge.
pub open spec fn down(l: int, i: int) -> int {
    ((i / l + 1) % l) * l + i % l
}

/// The neighbour to the left of site i, wrapping at the edge.
pub open spec fn left(l: int, i: int) -> int {
    (i / l) * l + (i % l + l - 1) % l
}

/// The neighbour above site i, wrapping at the edge.
pub open spec fn up(l: int, i: int) -> int {
    ((i / l + l - 1) % l) * l + i % l
}

/// Every spin is +1 or -1.
pub open spec fn valid_spins(s: Seq<i8>) -> bool {
    forall|i: int| #![trigger s[i]] 0 <= i < s.len() ==> s[i] == 1 || s[i] == -1
}

/// The sum of all spins.
pub open spec fn spin_sum(s: Seq<i8>) -> int {
    sum_to(|i: int| s[i] as int, s.len() as int)
}

/// The bond between site i and its right neighbour.
pub open spec fn h_bond(l: int, s: Seq<i8>, i: int) -> int {
    s[i] as int * s[right(l, i)] as int
}

/// The bond between site i and the neighbour below.
pub open spec fn v_bond(l: int, s: Seq<i8>, i: int) -> int {
    s[i] as int * s[down(l, i)] as int
}

/// E = - sum over the 2 L^2 bonds of s_i s_j (J = 1); each site owns its
/// right and its lower bond.
pub open spec fn ising_energy(l: int, s: Seq<i8>) -> int {
    -(sum_to(|i: int| h_bond(l, s, i), l * l) + sum_to(|i: int| v_bond(l, s, i), l * l))
}

/// The sum of the four neighbours of site k.
pub open spec fn local_field(l: int, s: Seq<i8>, k: int) -> int {
    s[right(l, k)] as int + s[down(l, k)] as int + s[left(l, k)] as int + s[up(l, k)] as int
}

/// Energy change of flipping site k: 2 s_k (s_1 + s_2 + s_3 + s_4).
pub open spec fn flip_delta(l: int, s: Seq<i8>, k: int) -> int {
    2 * (s[k] as int) * local_field(l, s, k)
}

/// The spins with site k flipped.
pub open spec fn flip_one(s: Seq<i8>, k: int) -> Seq<i8> {
    s.update(k, (-s[k]) as i8)
}

/// The spins with every site marked in c flipped.
pub open spec fn flip_set(s: Seq<i8>, c: Seq<bool>) -> Seq<i8> {
    Seq::new(s.len(), |i: int| if c[i] { (-s[i]) as i8 } else { s[i] })
}

/// The spin at k if k is outside the marked set, else 0.
pub open spec fn outside(s: Seq<i8>, c: Seq<bool>, k: int) -> int {
    if c[k] {
        0
    } else {
        s[k] as int
    }
}

/// What site j contributes to the energy change of flipping the marked set:
/// for a marked site, 2 s_j times the spins of its unmarked neighbours (each
/// bond across the boundary of the set changes sign).
pub open spec fn boundary_term(l: int, s: Seq<i8>, c: Seq<bool>, j: int) -> int {
    if c[j] {
        2 * (s[j] as int) * (outside(s, c, right(l, j)) + outside(s, c, down(l, j)) + outside(
            s,
            c,
            left(l, j),
        ) + outside(s, c, up(l, j)))
    } else {
        0
    }
}

/// Coordinates of a site index.
pub proof fn lemma_coords(l: int, i: int)
    requires
        1 <= l,
        0 <= i < l * l,
    ensures
        0 <= i / l < l,
        0 <= i % l < l,
        i == (i / l) * l + i % l,
{
    lemma_fundamental_div_mod(i, l);
    lemma_mod_bound(i, l);
    assert(l * (i / l) == (i / l) * l) by (nonlinear_arith);
    let q = i / l;
    let r = i % l;
    assert(0 <= q < l) by (nonlinear_arith)
        requires
            i == q * l + r,
            0 <= r < l,
            0 <= i < l * l,
            1 <= l,
    ;
}

/// The site at row y, column x.
pub proof fn lemma_index_of(l: int, y: int, x: int)
    requires
        1 <= l,
        0 <= y < l,
        0 <= x < l,
    ensures
        (y * l + x) / l == y,
        (y * l + x) % l == x,
        0 <= y * l + x < l * l,
{
    lemma_fundamental_div_mod_converse(y * l + x, l, y, x);
    assert(0 <= y * l + x < l * l) by (nonlinear_arith)
        requires
            1 <= l,
            0 <= y < l,
            0 <= x < l,
    ;
}

/// a mod l for 0 <= a < 2l.
pub proof fn lemma_mod_once(l: int, a: int)
    requires
        1 <= l,
        0 <= a < 2 * l,
    ensures
        a % l == (if a < l { a } else { a - l }),
{
    if a < l {
        lemma_fundamental_div_mod_converse(a, l, 0, a);
    } else {
        lemma_fundamental_div_mod_converse(a, l, 1, a - l);
    }
}

/// The four neighbours are sites, differ from the site itself, and undo
/// one another.
pub proof fn lemma_neighbors(l: int, i: int)
    requires
        2 <= l,
        0 <= i < l * l,
    ensures
        0 <= right(l, i) < l * l,
        0 <= down(l, i) < l * l,
        0 <= left(l, i) < l * l,
        0 <= up(l, i) < l * l,
        right(l, i) != i,
        down(l, i) != i,
        left(l, i) != i,
        up(l, i) != i,
        left(l, right(l, i)) == i,
        up(l, down(l, i)) == i,
        right(l, left(l, i)) == i,
        down(l, up(l, i)) == i,
{
    lemma_coords(l, i);
    let y = i / l;
    let x = i % l;
    lemma_mod_once(l, x + 1);
    lemma_mod_once(l, y + 1);
    lemma_mod_once(l, x + l - 1);
    lemma_mod_once(l, y + l - 1);
    let xr = (x + 1) % l;
    let yd = (y + 1) % l;
    let xl = (x + l - 1) % l;
    let yu = (y + l - 1) % l;
    lemma_index_of(l, y, xr);
    lemma_index_of(l, yd, x);
    lemma_index_of(l, y, xl);
    lemma_index_of(l, yu, x);
    lemma_mod_once(l, xr + l - 1);
    lemma_mod_once(l, yd + l - 1);
    lemma_mod_once(l, xl + 1);
    lemma_mod_once(l, yu + 1);
    lemma_index_of(l, y, x);
    if right(l, i) == i {
        lemma_index_of(l, y, xr);
    }
}

/// The right neighbour of row y, column x.
pub proof fn lemma_right_of(l: int, y: int, x: int)
    requires
        1 <= l,
        0 <= y < l,
        0 <= x < l,
    ensures
        right(l, y * l + x) == y * l + (x + 1) % l,
        down(l, y * l + x) == ((y + 1) % l) * l + x,
{
    lemma_index_of(l, y, x);
}

/// Reindexing a sum by the right-neighbour permutation.
pub proof fn lemma_sum_right_perm(g: spec_fn(int) -> int, l: int)
    requires
        1 <= l,
    ensures
        sum_to(|i: int| g(right(l, i)), l * l) == sum_to(g, l * l),
{
    let f1 = |i: int| g(right(l, i));
    let rows1 = |y: int| |x: int| g(y * l + (x + 1) % l);
    let rows0 = |y: int| |x: int| g(y * l + x);
    let r1 = |y: int| sum_to(rows1(y), l);
    let r0 = |y: int| sum_to(rows0(y), l);
    assert forall|y: int, x: int| #![trigger rows1(y)(x)] 0 <= y < l && 0 <= x < l implies rows1(y)(x)
        == f1(y * l + x) by {
        lemma_right_of(l, y, x);
    }
    lemma_sum_rows(f1, rows1, r1, l, l);
    lemma_sum_rows(g, rows0, r0, l, l);
    assert forall|y: int| #![trigger r1(y)] 0 <= y < l implies r1(y) == r0(y) by {
        lemma_sum_rotate(rows0(y), rows1(y), l);
    }
    lemma_sum_ext(r1, r0, l);
}

/// Reindexing a sum by the down-neighbour permutation.
pub proof fn lemma_sum_down_perm(g: spec_fn(int) -> int, l: int)
    requires
        1 <= l,
    ensures
        sum_to(|i: int| g(down(l, i)), l * l) == sum_to(g, l * l),
{
    let f1 = |i: int| g(down(l, i));
    let rows1 = |y: int| |x: int| g(((y + 1) % l) * l + x);
    let rows0 = |y: int| |x: int| g(y * l + x);
    let r1 = |y: int| sum_to(rows1(y), l);
    let r0 = |y: int| sum_to(rows0(y), l);
    assert forall|y: int, x: int| #![trigger rows1(y)(x)] 0 <= y < l && 0 <= x < l implies rows1(y)(x)
        == f1(y * l + x) by {
        lemma_right_of(l, y, x);
    }
    lemma_sum_rows(f1, rows1, r1, l, l);
    lemma_sum_rows(g, rows0, r0, l, l);
    assert forall|y: int| #![trigger r1(y)] 0 <= y < l implies r1(y) == r0((y + 1) % l) by {
        lemma_sum_ext(rows1(y), rows0((y + 1) % l), l);
    }
    lemma_sum_rotate(r0, r1, l);
}

/// The product of two spins is 1 when they agree and -1 otherwise.
pub proof fn lemma_spin_product(a: int, b: int)
    requires
        a == 1 || a == -1,
        b == 1 || b == -1,
    ensures
        a * b == (if a == b { 1int } else { -1int }),
        (-a) * b == -(a * b),
        a * (-b) == -(a * b),
{
    if a == 1 {
        if b == 1 {
            assert(a * b == 1 && (-a) * b == -1 && a * (-b) == -1) by (nonlinear_arith)
                requires
                    a == 1,
                    b == 1,
            ;
        } else {
            assert(a * b == -1 && (-a) * b == 1 && a * (-b) == 1) by (nonlinear_arith)
                requires
                    a == 1,
                    b == -1,
            ;
        }
    } else {
        if b == 1 {
            assert(a * b == -1 && (-a) * b == 1 && a * (-b) == 1) by (nonlinear_arith)
                requires
                    a == -1,
                    b == 1,
            ;
        } else {
            assert(a * b == 1 && (-a) * b == -1 && a * (-b) == -1) by (nonlinear_arith)
                requires
                    a == -1,
                    b == -1,
            ;
        }
    }
}

/// The bond between i and j after flipping the marked set: unchanged when
/// both or neither are marked, negated when exactly one is.
proof fn lemma_bond_after_flip(s: Seq<i8>, c: Seq<bool>, i: int, j: int)
    requires
        valid_spins(s),
        c.len() == s.len(),
        0 <= i < s.len(),
        0 <= j < s.len(),
    ensures
        flip_set(s, c)[i] as int * flip_set(s, c)[j] as int == (if c[i] == c[j] {
            s[i] as int * s[j] as int
        } else {
            -(s[i] as int * s[j] as int)
        }),
{
    let t = flip_set(s, c);
    lemma_spin_product(s[i] as int, s[j] as int);
    if c[i] {
        assert(t[i] as int == -(s[i] as int));
    }
    if c[j] {
        assert(t[j] as int == -(s[j] as int));
    }
    if c[i] && c[j] {
        assert((-(s[i] as int)) * (-(s[j] as int)) == s[i] as int * s[j] as int) by (nonlinear_arith);
    }
}

/// Flipping a set of spins changes the energy by the sum of the boundary
/// terms: only bonds with exactly one end in the set change sign.
pub proof fn lemma_flip_set_energy(l: int, s: Seq<i8>, c: Seq<bool>)
    requires
        2 <= l,
        s.len() == l * l,
        c.len() == l * l,
        valid_spins(s),
    ensures
        ising_energy(l, flip_set(s, c)) == ising_energy(l, s) + sum_to(
            |j: int| boundary_term(l, s, c, j),
            l * l,
        ),
{
    let n = l * l;
    let t = flip_set(s, c);
    let h0 = |i: int| h_bond(l, s, i);
    let h1 = |i: int| h_bond(l, t, i);
    let v0 = |i: int| v_bond(l, s, i);
    let v1 = |i: int| v_bond(l, t, i);
    let a = |i: int|
        if c[i] && !c[right(l, i)] {
            2 * h0(i)
        } else {
            0
        };
    let b = |i: int|
        if !c[i] && c[right(l, i)] {
            2 * h0(i)
        } else {
            0
        };
    let bp = |j: int|
        if c[j] && !c[left(l, j)] {
            2 * h0(left(l, j))
        } else {
            0
        };
    let av = |i: int|
        if c[i] && !c[down(l, i)] {
            2 * v0(i)
        } else {
            0
        };
    let bv = |i: int|
        if !c[i] && c[down(l, i)] {
            2 * v0(i)
        } else {
            0
        };
    let bvp = |j: int|
        if c[j] && !c[up(l, j)] {
            2 * v0(up(l, j))
        } else {
            0
        };
    let h1a = |i: int| h1(i) + a(i);
    let v1a = |i: int| v1(i) + av(i);
    assert forall|i: int| #![trigger h0(i)] #![trigger v0(i)] 0 <= i < n implies h0(i) == h1a(i) + b(i) && v0(i) == v1a(i)
        + bv(i) by {
        lemma_neighbors(l, i);
        lemma_bond_after_flip(s, c, i, right(l, i));
        lemma_bond_after_flip(s, c, i, down(l, i));
    }
    lemma_sum_add(h1, a, h1a, n);
    lemma_sum_add(h1a, b, h0, n);
    lemma_sum_add(v1, av, v1a, n);
    lemma_sum_add(v1a, bv, v0, n);
    // the bonds entering the set from the left and from above
    assert forall|i: int| #![trigger b(i)] #![trigger bv(i)] 0 <= i < n implies b(i) == bp(right(l, i)) && bv(i) == bvp(
        down(l, i),
    ) by {
        lemma_neighbors(l, i);
    }
    lemma_sum_ext(b, |i: int| bp(right(l, i)), n);
    lemma_sum_right_perm(bp, l);
    lemma_sum_ext(bv, |i: int| bvp(down(l, i)), n);
    lemma_sum_down_perm(bvp, l);
    // the boundary term of a site collects its four boundary bonds
    let bt = |j: int| boundary_term(l, s, c, j);
    let x1 = |j: int| a(j) + bp(j);
    let x2 = |j: int| x1(j) + av(j);
    assert forall|j: int| #![trigger bt(j)] 0 <= j < n implies bt(j) == x2(j) + bvp(j) by {
        lemma_neighbors(l, j);
        lemma_neighbors(l, left(l, j));
        lemma_neighbors(l, up(l, j));
        let sj = s[j] as int;
        let o_r = outside(s, c, right(l, j));
        let o_d = outside(s, c, down(l, j));
        let o_l = outside(s, c, left(l, j));
        let o_u = outside(s, c, up(l, j));
        assert(2 * sj * (o_r + o_d + o_l + o_u) == 2 * sj * o_r + 2 * sj * o_d + 2 * sj * o_l + 2 * sj
            * o_u) by (nonlinear_arith);
        let sl = s[left(l, j)] as int;
        let su = s[up(l, j)] as int;
        assert(sl * sj == sj * sl && su * sj == sj * su) by (nonlinear_arith);
        assert(2 * sj * o_r == 2 * (sj * o_r) && 2 * sj * o_d == 2 * (sj * o_d) && 2 * sj * o_l == 2 * (
        sj * o_l) && 2 * sj * o_u == 2 * (sj * o_u)) by (nonlinear_arith);
        if c[j] {
            assert(!c[right(l, j)] ==> a(j) == 2 * sj * o_r);
            assert(c[right(l, j)] ==> a(j) == 0 && o_r == 0 && sj * o_r == 0);
            assert(c[left(l, j)] ==> bp(j) == 0 && o_l == 0 && sj * o_l == 0);
            assert(c[down(l, j)] ==> av(j) == 0 && o_d == 0 && sj * o_d == 0);
            assert(c[up(l, j)] ==> bvp(j) == 0 && o_u == 0 && sj * o_u == 0);
        }
    }
    lemma_sum_add(a, bp, x1, n);
    lemma_sum_add(x1, av, x2, n);
    lemma_sum_add(x2, bvp, bt, n);
}

/// Flipping one spin changes the energy by 2 s_k (s_1 + s_2 + s_3 + s_4).
pub proof fn lemma_flip_one_energy(l: int, s: Seq<i8>, k: int)
    requires
        2 <= l,
        s.len() == l * l,
        valid_spins(s),
        0 <= k < l * l,
    ensures
        ising_energy(l, flip_one(s, k)) == ising_energy(l, s) + flip_delta(l, s, k),
        valid_spins(flip_one(s, k)),
{
    let n = l * l;
    let c = Seq::new(n as nat, |j: int| j == k);
    assert(flip_set(s, c) =~= flip_one(s, k));
    lemma_flip_set_energy(l, s, c);
    let bt = |j: int| boundary_term(l, s, c, j);
    lemma_sum_single(bt, n, k);
    lemma_neighbors(l, k);
}

/// Flipping a set of spins changes their sum by -2 s_j for every marked j.
pub proof fn lemma_flip_set_sum(s: Seq<i8>, c: Seq<bool>)
    requires
        valid_spins(s),
        c.len() == s.len(),
    ensures
        spin_sum(flip_set(s, c)) == spin_sum(s) + sum_to(
            |j: int|
                if c[j] {
                    -2 * (s[j] as int)
                } else {
                    0
                },
            s.len() as int,
        ),
        valid_spins(flip_set(s, c)),
{
    let t = flip_set(s, c);
    let d = |j: int|
        if c[j] {
            -2 * (s[j] as int)
        } else {
            0
        };
    lemma_sum_add(|i: int| s[i] as int, d, |i: int| t[i] as int, s.len() as int);
}

/// Flipping one spin changes the spin sum by -2 s_k.
pub proof fn lemma_flip_one_sum(s: Seq<i8>, k: int)
    requires
        valid_spins(s),
        0 <= k < s.len(),
    ensures
        spin_sum(flip_one(s, k)) == spin_sum(s) - 2 * (s[k] as int),
        valid_spins(flip_one(s, k)),
{
    let c = Seq::new(s.len(), |j: int| j == k);
    assert(flip_set(s, c) =~= flip_one(s, k));
    lemma_flip_set_sum(s, c);
    let d = |j: int|
        if c[j] {
            -2 * (s[j] as int)
        } else {
            0
        };
    lemma_sum_single(d, s.len() as int, k);
}

/// The spin sum lies in [-n, n] and the energy in [-2n, 2n].
pub proof fn lemma_bounds(l: int, s: Seq<i8>)
    requires
        2 <= l,
        s.len() == l * l,
        valid_spins(s),
    ensures
        -(l * l) <= spin_sum(s) <= l * l,
        -2 * (l * l) <= ising_energy(l, s) <= 2 * (l * l),
{
    let n = l * l;
    assert(l * l >= 0) by (nonlinear_arith)
        requires
            2 <= l,
    ;
    lemma_sum_bound(|i: int| s[i] as int, n, 1);
    assert forall|i: int| #![trigger h_bond(l, s, i)] #![trigger v_bond(l, s, i)] 0 <= i < n implies -1 <= h_bond(l, s, i) <= 1 && -1 <= v_bond(
        l,
        s,
        i,
    ) <= 1 by {
        lemma_neighbors(l, i);
        lemma_spin_product(s[i] as int, s[right(l, i)] as int);
        lemma_spin_product(s[i] as int, s[down(l, i)] as int);
    }
    lemma_sum_bound(|i: int| h_bond(l, s, i), n, 1);
    lemma_sum_bound(|i: int| v_bond(l, s, i), n, 1);
}

/// The members of a list of sites, as a mask over the n sites.
pub open spec fn member_mask(n: int, list: Seq<u32>) -> Seq<bool> {
    Seq::new(n as nat, |j: int| list.contains(j as u32))
}

/// What a site of the set `list` contributes to the energy change of
/// flipping that set: 2 s_j times its neighbours outside the set.
pub open spec fn cluster_site_term(l: int, s: Seq<i8>, list: Seq<u32>, j: int) -> int {
    let c = member_mask(l * l, list);
    2 * (s[j] as int) * (outside(s, c, right(l, j)) + outside(s, c, down(l, j)) + outside(
        s,
        c,
        left(l, j),
    ) + outside(s, c, up(l, j)))
}

/// Flipping the sites of a duplicate-free list changes the energy by the
/// sum of their cluster terms.
pub proof fn lemma_cluster_energy(l: int, s: Seq<i8>, list: Seq<u32>)
    requires
        2 <= l,
        s.len() == l * l,
        l * l <= u32::MAX,
        valid_spins(s),
        list.no_duplicates(),
        forall|t: int| 0 <= t < list.len() ==> #[trigger] list[t] < l * l,
    ensures
        ising_energy(l, flip_set(s, member_mask(l * l, list))) == ising_energy(l, s) + sum_list(
            |j: int| cluster_site_term(l, s, list, j),
            list,
        ),
{
    let n = l * l;
    let c = member_mask(n, list);
    lemma_flip_set_energy(l, s, c);
    let f = |j: int| cluster_site_term(l, s, list, j);
    lemma_sum_list(f, list, n);
    assert forall|j: int| #![trigger restrict(f, list)(j)] 0 <= j < n implies restrict(f, list)(j)
        == boundary_term(l, s, c, j) by {
        if c[j] {
            assert(list.contains(j as u32));
        }
    }
    lemma_sum_ext(restrict(f, list), |j: int| boundary_term(l, s, c, j), n);
}

/// Flipping the sites of a duplicate-free list, all holding `spin`, changes
/// the spin sum by -2 spin times the list's length.
pub proof fn lemma_cluster_sum(s: Seq<i8>, list: Seq<u32>, spin: int)
    requires
        valid_spins(s),
        s.len() <= u32::MAX + 1,
        list.no_duplicates(),
        forall|t: int| 0 <= t < list.len() ==> #[trigger] list[t] < s.len(),
        forall|t: int| 0 <= t < list.len() ==> s[#[trigger] list[t] as int] as int == spin,
    ensures
        spin_sum(flip_set(s, member_mask(s.len() as int, list))) == spin_sum(s) - 2 * spin * list.len(),
        valid_spins(flip_set(s, member_mask(s.len() as int, list))),
{
    let n = s.len() as int;
    let c = member_mask(n, list);
    lemma_flip_set_sum(s, c);
    let f = |j: int| -2 * (s[j] as int);
    lemma_sum_list(f, list, n);
    assert forall|j: int| #![trigger restrict(f, list)(j)] 0 <= j < n implies restrict(f, list)(j)
        == (if c[j] {
        -2 * (s[j] as int)
    } else {
        0
    }) by {}
    lemma_sum_ext(
        restrict(f, list),
        |j: int|
            if c[j] {
                -2 * (s[j] as int)
            } else {
                0
            },
        n,
    );
    lemma_sum_const(|t: int| f(list[t] as int), -2 * spin, list.len() as int);
    assert((-2 * spin) * list.len() == -2 * spin * list.len()) by (nonlinear_arith);
    assert(-2 * spin * list.len() == -(2 * spin * list.len())) by (nonlinear_arith);
}

/// A duplicate-free list of indices below n has at most n entries.
pub proof fn lemma_list_len_bound(list: Seq<u32>, n: int)
    requires
        list.no_duplicates(),
        forall|t: int| 0 <= t < list.len() ==> #[trigger] list[t] < n,
        0 <= n <= u32::MAX + 1,
    ensures
        list.len() <= n,
{
    let one = |j: int| 1int;
    lemma_sum_list(one, list, n);
    lemma_sum_const(|t: int| one(list[t] as int), 1, list.len() as int);
    lemma_sum_bound(restrict(one, list), n, 1);
    assert(1 * n == n);
}

/// Flipping a site twice restores the lattice: the second flip undoes the
/// first spin change and its energy change is the negative of the first.
pub proof fn law_flip_undone(l: int, s: Seq<i8>, k: int)
    requires
        2 <= l,
        s.len() == l * l,
        valid_spins(s),
        0 <= k < l * l,
    ensures
        flip_one(flip_one(s, k), k) == s,
        flip_delta(l, flip_one(s, k), k) == -flip_delta(l, s, k),
        ising_energy(l, flip_one(flip_one(s, k), k)) == ising_energy(l, s),
        spin_sum(flip_one(flip_one(s, k), k)) == spin_sum(s),
{
    let t = flip_one(s, k);
    lemma_neighbors(l, k);
    assert(flip_one(t, k) =~= s);
    assert(local_field(l, t, k) == local_field(l, s, k));
    assert(flip_delta(l, t, k) == -flip_delta(l, s, k)) by (nonlinear_arith)
        requires
            t[k] as int == -(s[k] as int),
            flip_delta(l, t, k) == 2 * (t[k] as int) * local_field(l, t, k),
            flip_delta(l, s, k) == 2 * (s[k] as int) * local_field(l, s, k),
            local_field(l, t, k) == local_field(l, s, k),
    ;
}

/// Walking right t times from column sx of row sy stays in a set closed
/// under right moves.
proof fn lemma_row_walk(l: int, m: spec_fn(int) -> bool, sy: int, sx: int, t: nat)
    requires
        2 <= l,
        0 <= sy < l,
        0 <= sx < l,
        m(sy * l + sx),
        forall|i: int| 0 <= i < l * l && #[trigger] m(i) ==> m(right(l, i)),
    ensures
        m(sy * l + (sx + t) % l),
    decreases t,
{
    if t == 0 {
        lemma_mod_once(l, sx);
    } else {
        let t1 = (t - 1) as nat;
        lemma_row_walk(l, m, sy, sx, t1);
        let x = (sx + t1) % l;
        lemma_mod_bound(sx + t1, l);
        lemma_index_of(l, sy, x);
        assert(m(sy * l + x));
        lemma_right_of(l, sy, x);
        assert(m(right(l, sy * l + x)));
        vstd::arithmetic::div_mod::lemma_add_mod_noop(sx + t1, 1, l);
        lemma_mod_once(l, 1);
        assert((x + 1) % l == (sx + t) % l);
    }
}

/// Walking down u times from row sy of column x stays in a set closed under
/// down moves.
proof fn lemma_column_walk(l: int, m: spec_fn(int) -> bool, sy: int, x: int, u: nat)
    requires
        2 <= l,
        0 <= sy < l,
        0 <= x < l,
        m(sy * l + x),
        forall|i: int| 0 <= i < l * l && #[trigger] m(i) ==> m(down(l, i)),
    ensures
        m(((sy + u) % l) * l + x),
    decreases u,
{
    if u == 0 {
        lemma_mod_once(l, sy);
    } else {
        lemma_column_walk(l, m, sy, x, (u - 1) as nat);
        let y = (sy + u - 1) % l;
        lemma_mod_bound(sy + u - 1, l);
        lemma_index_of(l, y, x);
        lemma_right_of(l, y, x);
        vstd::arithmetic::div_mod::lemma_add_mod_noop(sy + u - 1, 1, l);
        lemma_mod_once(l, 1);
    }
}

/// The torus is connected: a set of sites that holds one site and is closed
/// under right and down moves holds every site.
pub proof fn lemma_closed_set_is_everything(l: int, m: spec_fn(int) -> bool, seed: int)
    requires
        2 <= l,
        0 <= seed < l * l,
        m(seed),
        forall|i: int| 0 <= i < l * l && #[trigger] m(i) ==> m(right(l, i)) && m(down(l, i)),
    ensures
        forall|j: int| 0 <= j < l * l ==> #[trigger] m(j),
{
    lemma_coords(l, seed);
    let sy = seed / l;
    let sx = seed % l;
    assert(seed == sy * l + sx);
    assert forall|j: int| 0 <= j < l * l implies #[trigger] m(j) by {
        lemma_coords(l, j);
        let y = j / l;
        let x = j % l;
        lemma_row_walk(l, m, sy, sx, (x + l - sx) as nat);
        lemma_mod_once(l, x + l);
        assert((sx + (x + l - sx)) % l == x);
        lemma_column_walk(l, m, sy, x, (y + l - sy) as nat);
        lemma_mod_once(l, y + l);
        assert((sy + (y + l - sy)) % l == y);
        assert(j == y * l + x);
    }
}

} // verus!
