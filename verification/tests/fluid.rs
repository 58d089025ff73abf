use compphys::fluid::fft::wavenumbers;
use compphys::fluid::field_gen::{band_pairs, mode_index, rem_euclid, Xoshiro256pp};
use compphys::fluid::spectral::{keeps_mode, mode_wavenumbers, odd_nyquist, two_thirds_cutoff, wave_k2};
use compphys::fluid::integrators::{by_name, EqualWeightsRk4, Euler, Method, Midpoint, Rk4, UnknownMethod};
use compphys::ising::Xoshiro256;

#[test]
fn wavenumbers_follow_fft_order() {
    assert_eq!(wavenumbers(8), vec![0, 1, 2, 3, -4, -3, -2, -1]);
    assert_eq!(wavenumbers(64)[31], 31);
    assert_eq!(wavenumbers(64)[32], -32);
}

#[test]
fn odd_lengths_keep_the_extra_positive_mode() {
    assert_eq!(wavenumbers(5), vec![0, 1, -3, -2, -1]);
    assert_eq!(wavenumbers(1), vec![-1]);
    assert!(wavenumbers(0).is_empty());
}

#[test]
fn two_thirds_rule_cuts_the_spectrum() {
    let n = 64;
    let k = two_thirds_cutoff(n);
    assert_eq!(k, 21);
    assert_eq!(2 * k * k, 882);
    // a mode beyond the cutoff is removed; the corner mode survives
    assert!(!keeps_mode(n, mode_index(n, 25, 0)));
    assert!(keeps_mode(n, mode_index(n, 21, 21)));
    assert!(keeps_mode(n, mode_index(n, -21, -21)));
    assert!(!keeps_mode(n, mode_index(n, -22, 0)));
    assert!(keeps_mode(n, 0));
}

#[test]
fn mode_index_wraps_negative_wavenumbers() {
    assert_eq!(mode_index(8, 0, 0), 0);
    assert_eq!(mode_index(8, -1, 0), 7);
    assert_eq!(mode_index(8, 0, -1), 56);
    assert_eq!(mode_index(8, 3, 2), 19);
    assert_eq!(rem_euclid(-9, 8), 7);
    assert_eq!(rem_euclid(16, 8), 0);
}

#[test]
fn band_pairs_lists_the_positive_half_ring_in_draw_order() {
    let pairs = band_pairs(1, 1);
    assert_eq!(pairs, vec![(1, 0), (0, 1)]);
    let pairs = band_pairs(2, 6);
    for &(kx, ky) in &pairs {
        let k2 = kx * kx + ky * ky;
        assert!((4..=36).contains(&k2));
        assert!(ky > 0 || (ky == 0 && kx > 0));
    }
    // every ring mode appears once, with its partner (-kx, -ky) absent
    let ring = (-6i64..=6)
        .flat_map(|kx| (-6i64..=6).map(move |ky| (kx, ky)))
        .filter(|&(kx, ky)| (4..=36).contains(&(kx * kx + ky * ky)))
        .count();
    assert_eq!(2 * pairs.len(), ring);
    for w in pairs.windows(2) {
        assert!(w[0].1 < w[1].1 || (w[0].1 == w[1].1 && w[0].0 < w[1].0));
    }
}

#[test]
fn empty_band_has_no_pairs() {
    assert!(band_pairs(3, 2).is_empty());
    assert!(band_pairs(0, -1).is_empty());
    assert_eq!(band_pairs(0, 0), vec![]);
}

#[test]
fn field_stream_matches_the_ising_stream() {
    let mut a = Xoshiro256pp::new(2026);
    let mut b = Xoshiro256::seed_from_u64(2026);
    for _ in 0..100 {
        assert_eq!(a.next_u64(), b.next_u64());
    }
    let mut r = Xoshiro256pp::new(0);
    assert_eq!(r.next_u64(), 5987356902031041503);
}

#[test]
fn by_name_selects_and_rejects() {
    assert_eq!(by_name("euler").unwrap().name(), "euler");
    assert_eq!(by_name("rk2").unwrap().name(), "rk2");
    assert_eq!(by_name("rk4").unwrap().name(), "rk4");
    assert!(by_name("verlet").is_err());
}

#[test]
fn integrator_names_and_selection() {
    assert_eq!(Euler.name(), "euler");
    assert_eq!(Midpoint.name(), "rk2");
    assert_eq!(Rk4.name(), "rk4");
    assert_eq!(EqualWeightsRk4.name(), "equal-weight rk4");
    assert_eq!(by_name("rk2"), Ok(Method::Midpoint));
    assert_eq!(by_name("equal-weight rk4"), Err(UnknownMethod("equal-weight rk4".to_string())));
    assert_eq!(by_name("RK4"), Err(UnknownMethod("RK4".to_string())));
    assert_eq!(by_name(""), Err(UnknownMethod("".to_string())));
    for m in [Method::Euler, Method::Midpoint, Method::Rk4] {
        assert_eq!(by_name(m.name()), Ok(m));
    }
}

#[test]
fn mode_wavenumbers_read_row_and_column() {
    // n = 4: wavenumbers 0, 1, -2, -1
    assert_eq!(mode_wavenumbers(4, 0), (0, 0));
    assert_eq!(mode_wavenumbers(4, 1), (1, 0));
    assert_eq!(mode_wavenumbers(4, 6), (-2, 1));
    assert_eq!(mode_wavenumbers(4, 15), (-1, -1));
}

#[test]
fn k2_vanishes_only_at_the_mean_mode() {
    for n in [2usize, 3, 4, 7, 8] {
        for idx in 0..n * n {
            let (kx, ky) = mode_wavenumbers(n, idx);
            assert_eq!(wave_k2(n, idx), kx * kx + ky * ky);
            assert_eq!(wave_k2(n, idx) == 0, idx == 0);
        }
    }
    assert_eq!(wave_k2(8, 8 * 4 + 4), 32); // the corner (-4, -4)
    // a one-point grid stores wavenumber -1, so even its mean mode has k^2 = 2
    assert_eq!(wave_k2(1, 0), 2);
}

#[test]
fn odd_derivatives_vanish_at_the_nyquist_row_and_column() {
    // n = 8: the Nyquist wavenumber is -4 at column/row 4
    assert!(odd_nyquist(8, 4, 1, 0));
    assert!(!odd_nyquist(8, 4, 2, 0));
    assert!(!odd_nyquist(8, 4, 0, 1));
    assert!(odd_nyquist(8, 8 * 4 + 1, 0, 1));
    assert!(odd_nyquist(8, 8 * 4 + 4, 1, 2));
    assert!(!odd_nyquist(8, 3, 1, 1));
    // odd n: -floor(n/2) is an ordinary mode, and it is still zeroed
    assert_eq!(mode_wavenumbers(5, 3), (-2, 0));
    assert!(odd_nyquist(5, 3, 1, 0));
}

#[test]
fn mode_index_and_mode_wavenumbers_invert_each_other() {
    for n in [1usize, 2, 5, 8] {
        for idx in 0..n * n {
            let (kx, ky) = mode_wavenumbers(n, idx);
            assert_eq!(mode_index(n, kx, ky), idx);
        }
        let lo = n as i64 / 2 - n as i64;
        let hi = n as i64 / 2;
        for ky in lo..hi {
            for kx in lo..hi {
                assert_eq!(mode_wavenumbers(n, mode_index(n, kx, ky)), (kx, ky));
            }
        }
    }
}
