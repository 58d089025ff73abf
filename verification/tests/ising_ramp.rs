use compphys::ising::ramp::{check_ramp_sizes, frame_due, global_sweep, RampError, Update};

#[test]
fn update_parses_the_two_rules() {
    assert_eq!(Update::parse("metropolis"), Ok(Update::Metropolis));
    assert_eq!(Update::parse("wolff"), Ok(Update::Wolff));
    assert_eq!(Update::parse("glauber"), Err(RampError::UnknownUpdate("glauber".to_string())));
    assert_eq!(Update::parse("Wolff"), Err(RampError::UnknownUpdate("Wolff".to_string())));
    assert_eq!(Update::parse(""), Err(RampError::UnknownUpdate("".to_string())));
}

#[test]
fn update_names_round_trip() {
    for u in [Update::Metropolis, Update::Wolff] {
        assert_eq!(Update::parse(u.as_str()), Ok(u));
    }
}

#[test]
fn time_units_follow_the_rule() {
    assert_eq!(Update::Metropolis.time_unit(), "sweep");
    assert_eq!(Update::Wolff.time_unit(), "cluster_flip");
}

#[test]
fn lattice_smaller_than_two_is_rejected() {
    assert_eq!(check_ramp_sizes(1, 10), Err(RampError::LatticeTooSmall));
    assert_eq!(check_ramp_sizes(0, 10), Err(RampError::LatticeTooSmall));
    assert_eq!(check_ramp_sizes(2, 10), Ok(()));
}

#[test]
fn measure_must_be_positive_and_lattice_indexable() {
    assert_eq!(check_ramp_sizes(8, 0), Err(RampError::NoMeasuredSteps));
    assert_eq!(check_ramp_sizes(65536, 1), Err(RampError::LatticeTooLarge));
    assert_eq!(check_ramp_sizes(65535, 1), Ok(()));
}

#[test]
fn frames_are_due_at_multiples_of_every() {
    assert!(!frame_due(0, 5));
    assert!(frame_due(5, 5));
    assert!(frame_due(5, 10));
    assert!(!frame_due(5, 7));
    let due: Vec<u64> = (1..=20).filter(|&k| frame_due(4, k)).collect();
    assert_eq!(due, vec![4, 8, 12, 16, 20]);
}

#[test]
fn sweep_numbers_run_on_across_temperatures() {
    // discard 3, measure 4: temperature 0 measures sweeps 4..=7, temperature
    // 1 discards 8..=10 and measures 11..=14
    assert_eq!(global_sweep(0, 3, 4, 1), 4);
    assert_eq!(global_sweep(0, 3, 4, 4), 7);
    assert_eq!(global_sweep(1, 3, 4, 1), 11);
    assert_eq!(global_sweep(1, 3, 4, 4), 14);
    assert_eq!(global_sweep(2, 0, 5, 2), 12);
    assert_eq!(global_sweep(0, 0, 1, 1), 1);
}
