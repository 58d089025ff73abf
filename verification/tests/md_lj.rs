use compphys::md::lj::{inverse_sixth_power, lj_energy_x, lj_virial_x, Ratio};

/// Tolerance for comparing reduced-unit (sigma = epsilon = 1) f64 values.
const TOL: f64 = 1.0e-12;

fn value(r: Ratio) -> f64 {
    r.num as f64 / r.den as f64
}

fn ratio(num: i128, den: i128) -> Ratio {
    Ratio { num, den }
}

/// x = (1/r)^6 at r = num/den.
fn x_at(num: i128, den: i128) -> Ratio {
    inverse_sixth_power(ratio(num, den))
}

/// At the potential minimum r = 2^(1/6), x = (1/r)^6 = 1/2 exactly.
fn x_at_r_min() -> Ratio {
    ratio(1, 2)
}

fn assert_close(actual: f64, expected: f64, ctx: &str) {
    assert!((actual - expected).abs() < TOL, "{ctx}: got {actual}, expected {expected} (tol {TOL})");
}

// u(r) = 4[(1/r)^12 - (1/r)^6] vanishes at r = sigma = 1.
#[test]
fn energy_is_zero_at_sigma() {
    assert_close(value(lj_energy_x(x_at(1, 1))), 0.0, "u(1)");
}

// Minimum well depth is -epsilon = -1 at r = 2^(1/6).
#[test]
fn energy_at_minimum_is_minus_epsilon() {
    assert_close(value(lj_energy_x(x_at_r_min())), -1.0, "u(r_min)");
}

// u(2) = 4(2^-12 - 2^-6) = -0.0615234375.
#[test]
fn energy_at_two_sigma() {
    assert_close(value(lj_energy_x(x_at(2, 1))), -0.0615234375, "u(2)");
}

// F(r) = -du/dr = 24/r [2(1/r)^12 - (1/r)^6]; F(1) = 24 (repulsive).
#[test]
fn force_at_sigma_is_repulsive() {
    assert_close(value(lj_virial_x(x_at(1, 1))) / 1.0, 24.0, "F(1)");
}

// Force vanishes at the potential minimum.
#[test]
fn force_at_minimum_is_zero() {
    assert_close(value(lj_virial_x(x_at_r_min())), 0.0, "F(r_min)");
}

// F(2) = 48/2^13 - 24/2^7 = -0.181640625 (attractive, r > r_min).
#[test]
fn force_at_two_sigma_is_attractive() {
    assert_close(value(lj_virial_x(x_at(2, 1))) / 2.0, -0.181640625, "F(2)");
}

// Consistency: F(r) must equal -du/dr. With x = r^-6, -r du/dr = 6 x du/dx;
// du/dx is taken as a central difference in x, which is exact for the
// quadratic u(x), at several separations.
#[test]
fn force_is_negative_gradient_of_energy() {
    let big: i128 = 1_000_000;
    for (num, den) in [(11i128, 10i128), (5, 4), (0, 0), (3, 2), (2, 1), (3, 1)] {
        let (x, r) = if den == 0 {
            (x_at_r_min(), 2.0_f64.powf(1.0 / 6.0))
        } else {
            (x_at(num, den), num as f64 / den as f64)
        };
        // x +- h with h = 1 / (den(x) * big): numerators p*big +- 1 over q*big
        let up = ratio(x.num * big + 1, x.den * big);
        let down = ratio(x.num * big - 1, x.den * big);
        let (u_up, u_down) = (lj_energy_x(up), lj_energy_x(down));
        assert_eq!(u_up.den, u_down.den);
        // the difference of two fractions over one denominator, taken exactly
        let du = (u_up.num - u_down.num) as f64 / u_up.den as f64;
        let h = 1.0 / (x.den as f64 * big as f64);
        let numeric = 6.0 * value(x) * du / (2.0 * h) / r;
        let analytic = value(lj_virial_x(x)) / r;
        assert!(
            (numeric - analytic).abs() < 1.0e-6,
            "F({r}): analytic {analytic}, -du/dr {numeric}"
        );
    }
}
