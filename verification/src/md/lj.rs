//! The Lennard-Jones pair potential in reduced units (sigma = epsilon = 1),
//! evaluated exactly. Both the energy and r times the pair force are
//! polynomials in x = (sigma / r)^6:
//!
//!   u(r)     = 4 [(1/r)^12 - (1/r)^6]      = 4 (x^2 - x)
//!   r F(r)   = 24 [2 (1/r)^12 - (1/r)^6]   = 24 (2 x^2 - x)
//!
//! with F = -du/dr (positive = repulsive). Values are fractions num / den
//! with den > 0; the simulation evaluates the same formulas in floating
//! point.

use vstd::prelude::*;

verus! {

/// A fraction num / den.
#[derive(Clone, Copy, Debug, PartialEq, Eq)]
pub struct Ratio {
    pub num: i128,
    pub den: i128,
}

/// Size bound on numerators and denominators that the exact evaluation
/// keeps within 128-bit arithmetic.
pub open spec fn small(v: i128) -> bool {
    -0x4_0000_0000_0000 <= v <= 0x4_0000_0000_0000
}

/// The energy 4 (x^2 - x) at x = p / q, as the fraction 4 (p^2 - p q) / q^2.
pub open spec fn lj_energy_num(p: int, q: int) -> int {
    4 * (p * p - p * q)
}

/// r F(r) = 24 (2 x^2 - x) at x = p / q, as 24 (2 p^2 - p q) / q^2.
pub open spec fn lj_virial_num(p: int, q: int) -> int {
    24 * (2 * p * p - p * q)
}

/// Bounds of the powers of v in (0, 300] and v^6 = (v^3)^2.
proof fn lemma_sixth_power(v: int)
    requires
        0 < v <= 300,
    ensures
        0 < v * v <= 90_000,
        0 < v * v * v <= 27_000_000,
        0 < (v * v * v) * (v * v * v) <= 729_000_000_000_000,
        (v * v * v) * (v * v * v) == v * v * v * v * v * v,
{
    assert(0 < v * v <= 90_000) by (nonlinear_arith)
        requires
            0 < v <= 300,
    ;
    assert(0 < v * v * v <= 27_000_000) by (nonlinear_arith)
        requires
            0 < v <= 300,
            0 < v * v <= 90_000,
    ;
    assert(0 < (v * v * v) * (v * v * v) <= 729_000_000_000_000) by (nonlinear_arith)
        requires
            0 < v * v * v <= 27_000_000,
    ;
    assert((v * v * v) * (v * v * v) == v * v * v * v * v * v) by (nonlinear_arith);
}

/// Bounds of the products of two small values.
proof fn lemma_small_products(p: int, q: int)
    requires
        -0x4_0000_0000_0000 <= p <= 0x4_0000_0000_0000,
        0 < q <= 0x4_0000_0000_0000,
    ensures
        0 <= p * p <= 0x10_0000_0000_0000_0000_0000_0000,
        -0x10_0000_0000_0000_0000_0000_0000 <= p * q <= 0x10_0000_0000_0000_0000_0000_0000,
        0 < q * q <= 0x10_0000_0000_0000_0000_0000_0000,
{
    assert(0 <= p * p <= 0x10_0000_0000_0000_0000_0000_0000) by (nonlinear_arith)
        requires
            -0x4_0000_0000_0000 <= p <= 0x4_0000_0000_0000,
    ;
    assert(-0x10_0000_0000_0000_0000_0000_0000 <= p * q <= 0x10_0000_0000_0000_0000_0000_0000) by (nonlinear_arith)
        requires
            -0x4_0000_0000_0000 <= p <= 0x4_0000_0000_0000,
            0 < q <= 0x4_0000_0000_0000,
    ;
    assert(0 < q * q <= 0x10_0000_0000_0000_0000_0000_0000) by (nonlinear_arith)
        requires
            0 < q <= 0x4_0000_0000_0000,
    ;
}

/// x = (1 / r)^6 for r = p / q.
pub fn inverse_sixth_power(r: Ratio) -> (x: Ratio)
    requires
        0 < r.num <= 300,
        0 < r.den <= 300,
    ensures
        x.num == r.den * r.den * r.den * r.den * r.den * r.den,
        x.den == r.num * r.num * r.num * r.num * r.num * r.num,
        0 < x.den,
        small(x.num),
        small(x.den),
{
    let p = r.num;
    let q = r.den;
    proof {
        lemma_sixth_power(p as int);
        lemma_sixth_power(q as int);
    }
    let p3 = p * p * p;
    let q3 = q * q * q;
    Ratio { num: q3 * q3, den: p3 * p3 }
}

/// The pair energy at x = (sigma / r)^6: 4 (x^2 - x).
pub fn lj_energy_x(x: Ratio) -> (u: Ratio)
    requires
        0 < x.den,
        small(x.num),
        small(x.den),
    ensures
        u.num == lj_energy_num(x.num as int, x.den as int),
        u.den == x.den * x.den,
        u.den > 0,
{
    let p = x.num;
    let q = x.den;
    proof {
        lemma_small_products(p as int, q as int);
    }
    Ratio { num: 4 * (p * p - p * q), den: q * q }
}

/// r times the pair force at x = (sigma / r)^6: 24 (2 x^2 - x).
pub fn lj_virial_x(x: Ratio) -> (w: Ratio)
    requires
        0 < x.den,
        small(x.num),
        small(x.den),
    ensures
        w.num == lj_virial_num(x.num as int, x.den as int),
        w.den == x.den * x.den,
        w.den > 0,
{
    let p = x.num;
    let q = x.den;
    proof {
        lemma_small_products(p as int, q as int);
        assert(2 * p * p == 2 * (p * p)) by (nonlinear_arith);
    }
    Ratio { num: 24 * (2 * (p * p) - p * q), den: q * q }
}

/// The energy vanishes at r = sigma (x = 1).
pub proof fn law_energy_zero_at_sigma(q: int)
    requires
        q > 0,
    ensures
        lj_energy_num(q, q) == 0,
{
}

/// The well depth is epsilon: u >= -1 for every x, with equality exactly at
/// x = 1/2, that is r = 2^(1/6).
pub proof fn law_energy_minimum(p: int, q: int)
    requires
        q > 0,
    ensures
        lj_energy_num(p, q) >= -(q * q),
        lj_energy_num(p, q) == -(q * q) <==> 2 * p == q,
{
    let d = 2 * p - q;
    assert(lj_energy_num(p, q) + q * q == d * d) by (nonlinear_arith)
        requires
            d == 2 * p - q,
    ;
    assert(d * d >= 0 && (d * d == 0 <==> d == 0)) by (nonlinear_arith);
}

/// The force is repulsive inside the minimum (x > 1/2), zero at it and
/// attractive beyond it (0 < x < 1/2).
pub proof fn law_force_sign(p: int, q: int)
    requires
        q > 0,
        p > 0,
    ensures
        lj_virial_num(p, q) > 0 <==> 2 * p > q,
        lj_virial_num(p, q) == 0 <==> 2 * p == q,
        lj_virial_num(p, q) < 0 <==> 2 * p < q,
{
    let d = 2 * p - q;
    assert(lj_virial_num(p, q) == 24 * (p * d)) by (nonlinear_arith)
        requires
            d == 2 * p - q,
    ;
    assert((p * d > 0 <==> d > 0) && (p * d == 0 <==> d == 0) && (p * d < 0 <==> d < 0)) by (nonlinear_arith)
        requires
            p > 0,
    ;
}

/// The force is minus the gradient of the energy: with x = r^-6,
/// dx/dr = -6 x / r, so r F = -r du/dr = 6 x du/dx, and du/dx = 4 (2x - 1)
/// is exactly the central difference quotient of u over any step h:
/// u(x + h) - u(x - h) = 2 h * 4 (2x - 1). Stated for x = p/q, h = a/q.
pub proof fn law_force_is_minus_gradient(p: int, q: int, a: int)
    requires
        q > 0,
    ensures
        lj_energy_num(p + a, q) - lj_energy_num(p - a, q) == 2 * a * 4 * (2 * p - q),
        lj_virial_num(p, q) == 6 * p * 4 * (2 * p - q),
{
    assert(lj_energy_num(p + a, q) - lj_energy_num(p - a, q) == 2 * a * 4 * (2 * p - q)) by (nonlinear_arith);
    assert(lj_virial_num(p, q) == 6 * p * 4 * (2 * p - q)) by (nonlinear_arith);
}

} // verus!
