//! Finite sums over integer ranges and the identities the lattice proofs use.

use vstd::prelude::*;

verus! {

/// f(0) + f(1) + ... + f(n - 1).
pub open spec fn sum_to(f: spec_fn(int) -> int, n: int) -> int
    decreases n,
{
    if n <= 0 {
        0
    } else {
        sum_to(f, n - 1) + f(n - 1)
    }
}

/// Sums of functions that agree on the range are equal.
pub proof fn lemma_sum_ext(f: spec_fn(int) -> int, g: spec_fn(int) -> int, n: int)
    requires
        forall|i: int| #![trigger f(i)] #![trigger g(i)] 0 <= i < n ==> f(i) == g(i),
    ensures
        sum_to(f, n) == sum_to(g, n),
    decreases n,
{
    if n > 0 {
        lemma_sum_ext(f, g, n - 1);
    }
}

/// The sum of a pointwise sum is the sum of the sums.
pub proof fn lemma_sum_add(f: spec_fn(int) -> int, g: spec_fn(int) -> int, h: spec_fn(int) -> int, n: int)
    requires
        forall|i: int| #![trigger h(i)] 0 <= i < n ==> h(i) == f(i) + g(i),
    ensures
        sum_to(h, n) == sum_to(f, n) + sum_to(g, n),
    decreases n,
{
    if n > 0 {
        lemma_sum_add(f, g, h, n - 1);
    }
}

/// Changing a function at one point of the range changes the sum by the
/// difference at that point.
pub proof fn lemma_sum_point_change(f: spec_fn(int) -> int, g: spec_fn(int) -> int, n: int, a: int)
    requires
        0 <= a < n,
        forall|i: int| #![trigger f(i)] #![trigger g(i)] 0 <= i < n && i != a ==> f(i) == g(i),
    ensures
        sum_to(g, n) == sum_to(f, n) + g(a) - f(a),
    decreases n,
{
    if n - 1 == a {
        lemma_sum_ext(f, g, n - 1);
    } else {
        lemma_sum_point_change(f, g, n - 1, a);
    }
}

/// A function that vanishes off one point sums to its value there.
pub proof fn lemma_sum_single(f: spec_fn(int) -> int, n: int, a: int)
    requires
        0 <= a < n,
        forall|i: int| #![trigger f(i)] 0 <= i < n && i != a ==> f(i) == 0,
    ensures
        sum_to(f, n) == f(a),
{
    let z = |i: int| 0int;
    lemma_sum_zero(n);
    lemma_sum_point_change(z, f, n, a);
}

/// The sum of zeros is zero.
pub proof fn lemma_sum_zero(n: int)
    ensures
        sum_to(|i: int| 0int, n) == 0,
    decreases n,
{
    if n > 0 {
        lemma_sum_zero(n - 1);
    }
}

/// Bounds: if |f| <= b on the range then |sum| <= b * n.
pub proof fn lemma_sum_bound(f: spec_fn(int) -> int, n: int, b: int)
    requires
        0 <= n,
        0 <= b,
        forall|i: int| #![trigger f(i)] 0 <= i < n ==> -b <= f(i) <= b,
    ensures
        -b * n <= sum_to(f, n) <= b * n,
    decreases n,
{
    if n > 0 {
        lemma_sum_bound(f, n - 1, b);
        assert(b * n == b * (n - 1) + b) by (nonlinear_arith);
        assert(-b * n == -b * (n - 1) - b) by (nonlinear_arith);
    }
}

/// A constant sums to the constant times the length.
pub proof fn lemma_sum_const(f: spec_fn(int) -> int, c: int, n: int)
    requires
        0 <= n,
        forall|i: int| #![trigger f(i)] 0 <= i < n ==> f(i) == c,
    ensures
        sum_to(f, n) == c * n,
    decreases n,
{
    if n > 0 {
        lemma_sum_const(f, c, n - 1);
        assert(c * n == c * (n - 1) + c) by (nonlinear_arith);
    } else {
        assert(c * n == 0) by (nonlinear_arith)
            requires
                n == 0,
        ;
    }
}

/// Splitting a range: the first a terms of f, then the next b terms, given
/// as g(x) = f(a + x).
pub proof fn lemma_sum_split(f: spec_fn(int) -> int, g: spec_fn(int) -> int, a: int, b: int)
    requires
        0 <= a,
        0 <= b,
        forall|x: int| #![trigger g(x)] 0 <= x < b ==> g(x) == f(a + x),
    ensures
        sum_to(f, a + b) == sum_to(f, a) + sum_to(g, b),
    decreases b,
{
    if b > 0 {
        lemma_sum_split(f, g, a, b - 1);
    }
}

/// Summing an m by l grid (index y * l + x) row by row gives the whole sum:
/// row(y)(x) is f(y * l + x) and r(y) is the sum of row y.
pub proof fn lemma_sum_rows(
    f: spec_fn(int) -> int,
    row: spec_fn(int) -> spec_fn(int) -> int,
    r: spec_fn(int) -> int,
    l: int,
    m: int,
)
    requires
        0 <= l,
        0 <= m,
        forall|y: int, x: int| #![trigger row(y)(x)] 0 <= y < m && 0 <= x < l ==> row(y)(x) == f(y * l + x),
        forall|y: int| #![trigger r(y)] 0 <= y < m ==> r(y) == sum_to(row(y), l),
    ensures
        sum_to(f, m * l) == sum_to(r, m),
    decreases m,
{
    if m > 0 {
        lemma_sum_rows(f, row, r, l, m - 1);
        assert(m * l == (m - 1) * l + l) by (nonlinear_arith);
        assert((m - 1) * l >= 0) by (nonlinear_arith)
            requires
                m >= 1,
                l >= 0,
        ;
        lemma_sum_split(f, row(m - 1), (m - 1) * l, l);
        assert(sum_to(r, m) == sum_to(r, m - 1) + r(m - 1));
    } else {
        assert(m * l == 0) by (nonlinear_arith)
            requires
                m == 0,
        ;
    }
}

/// A cyclic shift of a range of length l does not change the sum:
/// g(x) = f((x + 1) % l).
pub proof fn lemma_sum_rotate(f: spec_fn(int) -> int, g: spec_fn(int) -> int, l: int)
    requires
        1 <= l,
        forall|x: int| #![trigger g(x)] 0 <= x < l ==> g(x) == f((x + 1) % l),
    ensures
        sum_to(g, l) == sum_to(f, l),
{
    let h = |x: int| f(1 + x);
    assert forall|x: int| #![trigger g(x)] 0 <= x < l - 1 implies g(x) == h(x) by {
        vstd::arithmetic::div_mod::lemma_small_mod((x + 1) as nat, l as nat);
    }
    lemma_sum_ext(g, h, l - 1);
    assert(g(l - 1) == f(0)) by {
        vstd::arithmetic::div_mod::lemma_mod_self_0(l);
    }
    lemma_sum_split(f, h, 1, l - 1);
    assert(sum_to(f, 1) == sum_to(f, 0) + f(0));
    assert(sum_to(g, l) == sum_to(g, l - 1) + g(l - 1));
}

/// Sum of f over the entries of a list of indices.
pub open spec fn sum_list(f: spec_fn(int) -> int, list: Seq<u32>) -> int {
    sum_to(|t: int| f(list[t] as int), list.len() as int)
}

/// The indicator restriction of f to the members of a list.
pub open spec fn restrict(f: spec_fn(int) -> int, list: Seq<u32>) -> spec_fn(int) -> int {
    |j: int| if list.contains(j as u32) && 0 <= j { f(j) } else { 0 }
}

/// Summing over a duplicate-free list of indices below n is summing the
/// function restricted to the list's members over the whole range.
pub proof fn lemma_sum_list(f: spec_fn(int) -> int, list: Seq<u32>, n: int)
    requires
        list.no_duplicates(),
        forall|t: int| #![trigger list[t]] 0 <= t < list.len() ==> list[t] < n,
        0 <= n <= u32::MAX + 1,
    ensures
        sum_list(f, list) == sum_to(restrict(f, list), n),
    decreases list.len(),
{
    if list.len() == 0 {
        assert forall|j: int| #![trigger restrict(f, list)(j)] 0 <= j < n implies restrict(f, list)(j) == 0 by {}
        lemma_sum_zero(n);
        lemma_sum_ext(restrict(f, list), |i: int| 0int, n);
    } else {
        let k = list.len() - 1;
        let prefix = list.drop_last();
        let last = list[k];
        assert forall|a: int, b: int| #![trigger prefix[a], prefix[b]] 0 <= a < b < prefix.len() implies prefix[a] != prefix[b] by {
            assert(prefix[a] == list[a] && prefix[b] == list[b]);
        }
        lemma_sum_list(f, prefix, n);
        lemma_sum_ext(
            |t: int| f(prefix[t] as int),
            |t: int| f(list[t] as int),
            k,
        );
        assert(!prefix.contains(last)) by {
            if prefix.contains(last) {
                let t = choose|t: int| 0 <= t < prefix.len() && prefix[t] == last;
                assert(list[t] == list[k]);
            }
        }
        assert forall|j: int| #![trigger restrict(f, list)(j)] 0 <= j < n && j != last as int implies restrict(f, prefix)(j) == restrict(f, list)(j) by {
            if list.contains(j as u32) {
                let t = choose|t: int| 0 <= t < list.len() && list[t] == j as u32;
                assert(t != k);
                assert(prefix[t] == j as u32);
            }
            if prefix.contains(j as u32) {
                let t = choose|t: int| 0 <= t < prefix.len() && prefix[t] == j as u32;
                assert(list[t] == j as u32);
            }
        }
        assert(list.contains(last)) by {
            assert(list[k] == last);
        }
        lemma_sum_point_change(restrict(f, prefix), restrict(f, list), n, last as int);
    }
}

} // verus!
