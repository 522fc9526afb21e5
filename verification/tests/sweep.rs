use ising::sweep::{check_sizes, next_t, ConfigError};
use ising::system::MAX_SIDE;
use std::collections::VecDeque;

#[test]
fn next_t_hands_out_the_front() {
    let mut ts: VecDeque<f64> = VecDeque::new();
    ts.push_back(0.5);
    ts.push_back(1.0);
    ts.push_back(1.5);
    assert_eq!(next_t(&mut ts), Some(0.5));
    assert_eq!(ts.len(), 2);
    assert_eq!(next_t(&mut ts), Some(1.0));
    assert_eq!(next_t(&mut ts), Some(1.5));
    assert_eq!(next_t(&mut ts), None);
    assert_eq!(ts.len(), 0);
}

#[test]
fn next_t_on_an_empty_queue() {
    let mut ts: VecDeque<u32> = VecDeque::new();
    assert_eq!(next_t(&mut ts), None);
    assert_eq!(next_t(&mut ts), None);
    assert!(ts.is_empty());
}

#[test]
fn a_sweep_of_one_temperature_hands_out_that_temperature_once() {
    let t0 = 2.25_f64;
    let mut ts: VecDeque<f64> = VecDeque::new();
    ts.push_back(t0);
    let mut rows: Vec<f64> = Vec::new();
    while let Some(t) = next_t(&mut ts) {
        rows.push(t);
    }
    assert_eq!(rows, vec![t0]);
}

#[test]
fn every_item_is_handed_out_exactly_once_in_order() {
    let mut ts: VecDeque<usize> = (0..400).collect();
    let mut taken: Vec<usize> = Vec::new();
    while let Some(t) = next_t(&mut ts) {
        taken.push(t);
    }
    assert_eq!(taken.len(), 400);
    for (k, t) in taken.iter().enumerate() {
        assert_eq!(*t, k);
    }
}

#[test]
fn sizes_within_their_ranges_are_accepted() {
    assert_eq!(check_sizes(64, 400, 4), Ok(()));
    assert_eq!(check_sizes(1, 1, 1), Ok(()));
    assert_eq!(check_sizes(MAX_SIDE, usize::MAX, usize::MAX), Ok(()));
}

#[test]
fn an_empty_or_oversized_lattice_is_refused() {
    assert_eq!(check_sizes(0, 400, 4), Err(ConfigError::Side));
    assert_eq!(check_sizes(MAX_SIDE + 1, 400, 4), Err(ConfigError::Side));
    assert_eq!(check_sizes(usize::MAX, 400, 4), Err(ConfigError::Side));
    assert_eq!(check_sizes(0, 0, 0), Err(ConfigError::Side));
}

#[test]
fn a_sweep_without_temperatures_is_refused() {
    assert_eq!(check_sizes(64, 0, 4), Err(ConfigError::Steps));
    assert_eq!(check_sizes(64, 0, 0), Err(ConfigError::Steps));
}

#[test]
fn a_sweep_without_workers_is_refused() {
    assert_eq!(check_sizes(64, 400, 0), Err(ConfigError::Workers));
}
