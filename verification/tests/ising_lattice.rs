use compphys::ising::frames::spins_array_bytes;
use compphys::ising::lattice::Lattice;
use compphys::ising::Xoshiro256;

#[test]
fn all_up_is_ground_state() {
    let lat = Lattice::all_up(4);
    assert_eq!(lat.energy_total(), -2 * 4 * 4); // E = -2 L^2 when every bond agrees
    assert_eq!(lat.mag_sum(), 16);
    assert_eq!(lat.mag_sum() as f64 / lat.site_count() as f64, 1.0);
    assert_eq!(lat.energy_total() as f64 / lat.site_count() as f64, -2.0);
}

#[test]
fn checkerboard_is_maximally_disordered() {
    let mut lat = Lattice::all_up(4);
    for y in 0..4 {
        for x in 0..4 {
            if (x + y) % 2 == 1 {
                lat.flip(y * 4 + x);
            }
        }
    }
    assert_eq!(lat.energy_total(), 2 * 16); // every bond disagrees
    assert_eq!(lat.mag_sum(), 0);
}

#[test]
fn corner_sees_periodic_neighbors() {
    let lat = Lattice::all_up(4);
    // site 0 at corner (0,0): right 1, down 4, left 3 (wrap), up 12 (wrap)
    let nb = lat.neighbors(0);
    let mut want = [1usize, 4, 3, 12];
    want.sort();
    let mut got: Vec<usize> = nb.iter().map(|&v| v as usize).collect();
    got.sort();
    assert_eq!(got, want);
}

#[test]
fn neighbour_table_order_is_right_down_left_up() {
    let lat = Lattice::all_up(4);
    assert_eq!(*lat.neighbors(5), [6, 9, 4, 1]);
    assert_eq!(*lat.neighbors(15), [12, 3, 14, 11]);
}

#[test]
fn delta_e_takes_the_five_tabulated_values() {
    let mut lat = Lattice::all_up(4);
    // All-up: neighbours sum +4, flipping costs 2*(+1)*(+4) = +8.
    assert_eq!(lat.delta_e(0), 8);
    // Flip site 0; its four neighbours now each see one disagreeing bond.
    lat.flip(0);
    assert_eq!(lat.delta_e(0), -8); // undoing the flip
    let nb = *lat.neighbors(0);
    for &j in nb.iter() {
        // each neighbour has exactly one disagreeing bond (to site 0): sum = +2
        assert_eq!(lat.delta_e(j as usize), 4);
    }
}

#[test]
fn incremental_energy_matches_full_recount_under_random_flips() {
    let mut lat = Lattice::all_up(8);
    let mut rng = Xoshiro256::seed_from_u64(123);
    let n = 8 * 8;
    for _ in 0..2000 {
        let site = rng.next_below(n as u64) as usize;
        lat.flip(site);
        let recount = lat.recount_energy();
        assert_eq!(lat.energy_total(), recount, "incremental energy drifted");
        assert_eq!(lat.mag_sum(), lat.spins().iter().map(|&s| s as i64).sum::<i64>());
    }
}

#[test]
fn flipping_twice_restores_the_lattice() {
    let mut lat = Lattice::all_up(5);
    lat.flip(7);
    lat.flip(12);
    let spins = lat.spins().clone();
    let (e, m) = (lat.energy_total(), lat.mag_sum());
    lat.flip(3);
    lat.flip(3);
    assert_eq!(*lat.spins(), spins);
    assert_eq!((lat.energy_total(), lat.mag_sum()), (e, m));
}

#[test]
fn two_by_two_lattice_counts_each_bond_pair() {
    // L = 2: right and left neighbour coincide; all-up E = -2 L^2 = -8
    let mut lat = Lattice::all_up(2);
    assert_eq!(lat.energy_total(), -8);
    assert_eq!(lat.delta_e(0), 8);
    lat.flip(0);
    assert_eq!(lat.energy_total(), 0);
    assert_eq!(lat.recount_energy(), 0);
}

#[test]
fn flip_with_applies_the_given_change() {
    let mut lat = Lattice::all_up(3);
    let de = lat.delta_e(4);
    lat.flip_with(4, de);
    assert_eq!(lat.energy_total(), -18 + 8);
    assert_eq!(lat.mag_sum(), 9 - 2);
    assert_eq!(lat.spins()[4], -1);
}

#[test]
fn flip_sites_flips_a_set_and_keeps_the_sums() {
    let mut lat = Lattice::all_up(4);
    let mut probe = Lattice::all_up(4);
    let sites: Vec<u32> = vec![5, 6, 9];
    for &s in &sites {
        probe.flip(s as usize);
    }
    let de = probe.energy_total() - lat.energy_total();
    lat.flip_sites(&sites, 1, de);
    assert_eq!(lat.spins(), probe.spins());
    assert_eq!(lat.mag_sum(), 16 - 6);
    assert_eq!(lat.energy_total(), lat.recount_energy());
}

#[test]
fn frame_spin_array_is_row_major_json() {
    assert_eq!(spins_array_bytes(&[]), b"[]".to_vec());
    assert_eq!(spins_array_bytes(&[1]), b"[1]".to_vec());
    assert_eq!(spins_array_bytes(&[-1]), b"[-1]".to_vec());
    assert_eq!(spins_array_bytes(&[1, -1, -1, 1]), b"[1,-1,-1,1]".to_vec());
    let mut lat = Lattice::all_up(2);
    lat.flip(1);
    assert_eq!(spins_array_bytes(&lat.spins()), b"[1,-1,1,1]".to_vec());
}
