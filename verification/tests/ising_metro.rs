use compphys::ising::lattice::Lattice;
use compphys::ising::metro::Metro;
use compphys::ising::Xoshiro256;

const TWO53: f64 = (1u64 << 53) as f64;

/// Thresholds of the acceptance min(1, e^{-dE/T}) for dE = -8, -4, 0, 4, 8.
fn thresholds(t: f64) -> [u64; 5] {
    let mut out = [0u64; 5];
    for i in 0..5 {
        let de = (i as i64 * 4 - 8) as f64;
        let p = (-de / t).exp().min(1.0);
        out[i] = (p * TWO53).ceil() as u64;
    }
    out
}

fn metro_at(l: usize, t: f64, seed: u64) -> Metro {
    Metro::new(Lattice::all_up(l), Xoshiro256::seed_from_u64(seed), thresholds(t))
}

fn acceptance_rate(m: &Metro) -> f64 {
    m.accepted() as f64 / m.proposals() as f64
}

fn magnetization(m: &Metro) -> f64 {
    m.lattice().mag_sum() as f64 / m.lattice().site_count() as f64
}

#[test]
fn same_seed_same_trajectory() {
    let mut a = metro_at(8, 1.5, 2026);
    let mut b = metro_at(8, 1.5, 2026);
    for _ in 0..100 {
        a.sweep();
        b.sweep();
    }
    assert_eq!(a.lattice().mag_sum(), b.lattice().mag_sum());
    assert_eq!(a.lattice().energy_total(), b.lattice().energy_total());
    assert_eq!(a.accepted(), b.accepted());
    assert_eq!(a.lattice().spins(), b.lattice().spins());
}

#[test]
fn metro_different_seed_diverges() {
    let mut a = metro_at(8, 1.5, 2026);
    let mut b = metro_at(8, 1.5, 2027);
    for _ in 0..100 {
        a.sweep();
        b.sweep();
    }
    assert_ne!(a.lattice().spins(), b.lattice().spins());
}

#[test]
fn acceptance_table_matches_exp() {
    let m = metro_at(4, 2.3, 1);
    for (de, want) in [
        (-8i64, 1.0f64),
        (-4, 1.0),
        (0, 1.0),
        (4, (-4.0f64 / 2.3).exp()),
        (8, (-8.0f64 / 2.3).exp()),
    ] {
        let got = m.threshold_for(de) as f64 / TWO53;
        assert!((got - want).abs() < 1e-12, "A(dE={de}) = {got}, want {want}");
    }
}

#[test]
fn uphill_acceptance_at_t23_matches_sheet_table() {
    let m = metro_at(4, 2.3, 1);
    assert!((m.threshold_for(4) as f64 / TWO53 - 0.1757).abs() < 5e-5);
    assert!((m.threshold_for(8) as f64 / TWO53 - 0.0309).abs() < 5e-5);
}

#[test]
fn cold_lattice_stays_ordered() {
    let mut m = metro_at(16, 1.5, 42);
    for _ in 0..2000 {
        m.sweep();
    }
    assert!(magnetization(&m).abs() > 0.8, "|m| = {}", magnetization(&m).abs());
    assert!(acceptance_rate(&m) > 0.0 && acceptance_rate(&m) < 1.0);
}

#[test]
fn metro_hot_lattice_demagnetizes() {
    let mut m = metro_at(16, 3.0, 42);
    for _ in 0..2000 {
        m.sweep();
    }
    assert!(magnetization(&m).abs() < 0.3, "|m| = {}", magnetization(&m).abs());
}

#[test]
fn hot_accepts_more_than_cold() {
    let mut cold = metro_at(16, 1.5, 42);
    let mut hot = metro_at(16, 3.0, 42);
    for _ in 0..500 {
        cold.sweep();
        hot.sweep();
    }
    assert!(acceptance_rate(&hot) > acceptance_rate(&cold));
}

#[test]
fn one_sweep_makes_l_squared_proposals() {
    let mut m = metro_at(6, 2.0, 3);
    m.sweep();
    assert_eq!(m.proposals(), 36);
    assert!(m.accepted() <= m.proposals());
    assert_eq!(m.lattice().energy_total(), m.lattice().recount_energy());
}

#[test]
fn zero_threshold_rejects_every_uphill_move() {
    // from all up every first move is uphill: with thresholds 0 nothing flips
    let mut m = Metro::new(Lattice::all_up(4), Xoshiro256::seed_from_u64(1), [0; 5]);
    m.sweep();
    assert_eq!(m.accepted(), 0);
    assert_eq!(m.lattice().mag_sum(), 16);
}

#[test]
fn reset_stats_zeroes_the_counters() {
    let mut m = metro_at(4, 3.0, 8);
    m.sweep();
    m.reset_stats();
    assert_eq!((m.accepted(), m.proposals()), (0, 0));
}

#[test]
fn zero_thresholds_never_raise_the_energy() {
    // start hot, then quench with every threshold zero
    let mut m = metro_at(8, 50.0, 7);
    for _ in 0..20 {
        m.sweep();
    }
    m.set_thresholds([0; 5]);
    let mut e = m.lattice().energy_total();
    for _ in 0..30 {
        m.sweep();
        let e2 = m.lattice().energy_total();
        assert!(e2 <= e, "energy rose from {e} to {e2}");
        assert_eq!(e2, m.lattice().recount_energy());
        e = e2;
    }
}

#[test]
fn saturated_thresholds_accept_every_proposal() {
    let mut m = Metro::new(Lattice::all_up(6), Xoshiro256::seed_from_u64(5), [1u64 << 53; 5]);
    for k in 1..=10u64 {
        m.sweep();
        assert_eq!(m.proposals(), 36 * k);
        assert_eq!(m.accepted(), 36 * k);
        assert_eq!(m.lattice().energy_total(), m.lattice().recount_energy());
    }
}
