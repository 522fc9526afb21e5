use ising::random::UNIT;
use ising::system::System;
use ising::update::{
    absorb, cluster_step, cluster_visit, local_step, local_update, metropolis_step, push_neighbors,
    Acceptance, UpdateRule,
};
use rand::rngs::SmallRng;
use rand::SeedableRng;
use std::collections::VecDeque;

fn lattice(n: usize, seed: u64) -> System {
    System::new(n, SmallRng::seed_from_u64(seed))
}

fn scramble(sys: &mut System) {
    let n = sys.side();
    let mut k: usize = 1;
    for i in 0..n {
        for j in 0..n {
            k = (k * 7 + 3) % 11;
            if k < 5 {
                sys.flip(i, j);
            }
        }
    }
}

fn spins(sys: &System) -> Vec<i32> {
    let n = sys.side();
    let mut all = Vec::new();
    for i in 0..n {
        for j in 0..n {
            all.push(sys.at(i, j));
        }
    }
    all
}

const FROZEN: Acceptance = Acceptance { four: 0, eight: 0 };
const HOT: Acceptance = Acceptance { four: UNIT, eight: UNIT };

#[test]
fn a_flip_that_costs_nothing_is_always_accepted() {
    let acc = Acceptance { four: 0, eight: 0 };
    assert!(acc.admits(0, 0));
    assert!(acc.admits(0, UNIT - 1));
    assert!(acc.admits(-4, UNIT - 1));
    assert!(acc.admits(-8, UNIT - 1));
}

#[test]
fn an_uphill_flip_is_accepted_below_its_threshold() {
    let acc = Acceptance { four: 1000, eight: 10 };
    assert!(acc.admits(4, 0));
    assert!(acc.admits(4, 999));
    assert!(!acc.admits(4, 1000));
    assert!(!acc.admits(4, UNIT - 1));
    assert!(acc.admits(8, 9));
    assert!(!acc.admits(8, 10));
    assert!(!acc.admits(8, 999));
}

#[test]
fn zero_threshold_rejects_every_draw_and_full_threshold_accepts_every_draw() {
    for draw in [0u64, 1, UNIT / 2, UNIT - 1] {
        assert!(!FROZEN.admits(4, draw));
        assert!(!FROZEN.admits(8, draw));
        assert!(HOT.admits(4, draw));
        assert!(HOT.admits(8, draw));
    }
}

#[test]
fn local_update_accepts_and_reports_the_changes() {
    let mut sys = lattice(4, 1);
    let acc = Acceptance { four: 50, eight: 20 };
    // Cost 8 on the cold lattice, and the draw is below the threshold.
    assert_eq!(local_update(&mut sys, 1, 1, 19, &acc), (8, -2));
    assert_eq!(sys.at(1, 1), -1);
    assert_eq!(sys.evaluate_energy(), -24);
    assert_eq!(sys.magnetization(), 14);
    // The neighbour now costs 4.
    assert_eq!(local_update(&mut sys, 1, 2, 49, &acc), (4, -2));
    assert_eq!(sys.at(1, 2), -1);
    // Flipping the first site back lowers the energy by 4: any draw will do.
    assert_eq!(local_update(&mut sys, 1, 1, UNIT - 1, &acc), (-4, 2));
    assert_eq!(sys.at(1, 1), 1);
}

#[test]
fn local_update_rejects_and_leaves_the_lattice() {
    let mut sys = lattice(4, 1);
    let acc = Acceptance { four: 50, eight: 20 };
    assert_eq!(local_update(&mut sys, 1, 1, 20, &acc), (0, 0));
    assert_eq!(local_update(&mut sys, 1, 1, UNIT - 1, &acc), (0, 0));
    assert_eq!(spins(&sys), vec![1; 16]);
    sys.flip(1, 1);
    let before = spins(&sys);
    assert_eq!(local_update(&mut sys, 1, 2, 50, &acc), (0, 0));
    assert_eq!(spins(&sys), before);
}

#[test]
fn local_update_accepts_a_free_flip_on_any_draw() {
    let mut sys = lattice(4, 1);
    sys.flip(0, 1);
    sys.flip(1, 0);
    // Two neighbours up, two down: the flip costs nothing.
    assert_eq!(sys.deltaE(0, 0), 0);
    assert_eq!(local_update(&mut sys, 0, 0, UNIT - 1, &FROZEN), (0, -2));
    assert_eq!(sys.at(0, 0), -1);
}

#[test]
fn zero_temperature_never_raises_the_energy() {
    for n in [1usize, 2, 3, 6] {
        let mut sys = lattice(n, 7 + n as u64);
        scramble(&mut sys);
        let mut energy = sys.evaluate_energy();
        let mut magnetization = sys.magnetization();
        for _ in 0..500 {
            let (de, dm) = local_step(&mut sys, &FROZEN);
            assert!(de <= 0);
            let now = sys.evaluate_energy();
            assert!(now <= energy);
            if n >= 2 {
                assert_eq!(now, energy + de);
            }
            energy = now;
            magnetization += dm;
            assert_eq!(sys.magnetization(), magnetization);
        }
    }
}

#[test]
fn zero_temperature_leaves_the_ground_state() {
    let mut sys = lattice(4, 3);
    for _ in 0..200 {
        assert_eq!(local_step(&mut sys, &FROZEN), (0, 0));
    }
    assert_eq!(spins(&sys), vec![1; 16]);
}

#[test]
fn infinite_temperature_accepts_every_proposal() {
    let mut sys = lattice(4, 11);
    let mut energy = sys.evaluate_energy();
    for _ in 0..300 {
        let before = spins(&sys);
        let (de, dm) = local_step(&mut sys, &HOT);
        assert!(dm == 2 || dm == -2);
        let after = spins(&sys);
        let changed = before.iter().zip(after.iter()).filter(|(a, b)| a != b).count();
        assert_eq!(changed, 1);
        energy += de;
        assert_eq!(sys.evaluate_energy(), energy);
    }
}

#[test]
fn local_step_at_a_finite_temperature_reports_what_it_does() {
    // Thresholds of exp(-4/2.27) and exp(-8/2.27), rounded up.
    let acc = Acceptance { four: 1_546_369_054_386_085, eight: 265_482_885_937_520 };
    let mut sys = lattice(8, 5);
    let mut energy = sys.evaluate_energy();
    let mut magnetization = sys.magnetization();
    let mut accepted = 0;
    let mut rejected = 0;
    for _ in 0..5000 {
        let before = spins(&sys);
        let (de, dm) = local_step(&mut sys, &acc);
        if dm == 0 {
            assert_eq!(de, 0);
            assert_eq!(spins(&sys), before);
            rejected += 1;
        } else {
            assert!(dm == 2 || dm == -2);
            accepted += 1;
        }
        energy += de;
        magnetization += dm;
        assert_eq!(sys.evaluate_energy(), energy);
        assert_eq!(sys.magnetization(), magnetization);
    }
    assert!(accepted > 0);
    assert!(rejected > 0);
}

#[test]
fn push_neighbors_adds_right_left_below_above() {
    let sys = lattice(4, 1);
    let mut queue: VecDeque<(usize, usize)> = VecDeque::new();
    queue.push_back((9, 9));
    push_neighbors(&sys, 0, 3, &mut queue);
    let got: Vec<(usize, usize)> = queue.into_iter().collect();
    assert_eq!(got, vec![(9, 9), (0, 0), (0, 2), (1, 3), (3, 3)]);
}

#[test]
fn absorb_flips_the_site_and_queues_its_neighbours() {
    let mut sys = lattice(3, 1);
    sys.flip(1, 2);
    let mut frontier: VecDeque<(usize, usize)> = VecDeque::new();
    assert_eq!(absorb(&mut sys, &mut frontier, 1, 1), (4, -2));
    assert_eq!(sys.at(1, 1), -1);
    let got: Vec<(usize, usize)> = frontier.iter().cloned().collect();
    assert_eq!(got, vec![(1, 2), (1, 0), (2, 1), (0, 1)]);
    assert_eq!(absorb(&mut sys, &mut frontier, 1, 1), (-4, 2));
    assert_eq!(sys.at(1, 1), 1);
    assert_eq!(frontier.len(), 8);
}

#[test]
fn cluster_visit_takes_a_like_spin_below_the_threshold() {
    let mut sys = lattice(4, 1);
    let mut frontier: VecDeque<(usize, usize)> = VecDeque::new();
    assert_eq!(cluster_visit(&mut sys, &mut frontier, 1, 2, 2, 99, 100), (8, -2));
    assert_eq!(sys.at(2, 2), -1);
    let got: Vec<(usize, usize)> = frontier.iter().cloned().collect();
    assert_eq!(got, vec![(2, 3), (2, 1), (3, 2), (1, 2)]);
}

#[test]
fn cluster_visit_passes_over_a_site_on_a_high_draw() {
    let mut sys = lattice(4, 1);
    let mut frontier: VecDeque<(usize, usize)> = VecDeque::new();
    assert_eq!(cluster_visit(&mut sys, &mut frontier, 1, 2, 2, 100, 100), (0, 0));
    assert_eq!(cluster_visit(&mut sys, &mut frontier, 1, 2, 2, 0, 0), (0, 0));
    assert_eq!(spins(&sys), vec![1; 16]);
    assert!(frontier.is_empty());
}

#[test]
fn cluster_visit_passes_over_a_site_of_the_other_spin() {
    let mut sys = lattice(4, 1);
    sys.flip(2, 2);
    let before = spins(&sys);
    let mut frontier: VecDeque<(usize, usize)> = VecDeque::new();
    assert_eq!(cluster_visit(&mut sys, &mut frontier, 1, 2, 2, 0, UNIT), (0, 0));
    assert_eq!(spins(&sys), before);
    assert!(frontier.is_empty());
    // Seen from a cluster of down spins the same site is taken.
    assert_eq!(cluster_visit(&mut sys, &mut frontier, -1, 2, 2, 0, UNIT), (-8, 2));
    assert_eq!(spins(&sys), vec![1; 16]);
}

#[test]
fn cluster_with_zero_threshold_is_its_seed() {
    let mut sys = lattice(5, 21);
    assert_eq!(cluster_step(&mut sys, 0), (8, -2));
    let downs = spins(&sys).iter().filter(|&&s| s == -1).count();
    assert_eq!(downs, 1);
    assert_eq!(sys.evaluate_energy(), -50 + 8);
}

#[test]
fn cluster_with_full_threshold_is_the_whole_domain() {
    let mut sys = lattice(5, 22);
    assert_eq!(cluster_step(&mut sys, UNIT), (0, -50));
    assert_eq!(spins(&sys), vec![-1; 25]);
    assert_eq!(cluster_step(&mut sys, UNIT), (0, 50));
    assert_eq!(spins(&sys), vec![1; 25]);
}

#[test]
fn cluster_with_full_threshold_stops_at_the_domain_wall() {
    // Rows 0 and 1 down, rows 2 to 5 up: two domains with straight walls.
    let mut sys = lattice(6, 23);
    for i in 0..2 {
        for j in 0..6 {
            sys.flip(i, j);
        }
    }
    let energy = sys.evaluate_energy();
    assert_eq!(energy, -72 + 2 * 12);
    let (de, dm) = cluster_step(&mut sys, UNIT);
    // Whichever domain held the seed has joined the other.
    assert_eq!(de, -24);
    assert!(dm == 24 || dm == -48);
    let all = spins(&sys);
    assert!(all == vec![1; 36] || all == vec![-1; 36]);
    assert_eq!(sys.evaluate_energy(), -72);
}

#[test]
fn cluster_is_never_empty_and_reports_what_it_does() {
    // Threshold of 1 - exp(-2/2.27), rounded up.
    let bond: u64 = 5_275_114_824_530_326;
    for n in [1usize, 2, 3, 8] {
        let mut sys = lattice(n, 30 + n as u64);
        scramble(&mut sys);
        let mut energy = sys.evaluate_energy();
        let mut magnetization = sys.magnetization();
        for _ in 0..300 {
            let before = spins(&sys);
            let (de, dm) = cluster_step(&mut sys, bond);
            assert!(dm != 0);
            assert_eq!(dm % 2, 0);
            let after = spins(&sys);
            let flipped: Vec<usize> =
                (0..before.len()).filter(|&k| before[k] != after[k]).collect();
            assert!(!flipped.is_empty());
            // Every flipped site held the same spin.
            let s = before[flipped[0]];
            assert!(flipped.iter().all(|&k| before[k] == s));
            assert_eq!(dm, -2 * s * flipped.len() as i32);
            magnetization += dm;
            assert_eq!(sys.magnetization(), magnetization);
            if n >= 2 {
                energy += de;
                assert_eq!(sys.evaluate_energy(), energy);
            }
        }
    }
}

#[test]
fn cluster_on_a_single_site_flips_it() {
    let mut sys = lattice(1, 40);
    assert_eq!(cluster_step(&mut sys, UNIT), (8, -2));
    assert_eq!(sys.at(0, 0), -1);
    assert_eq!(cluster_step(&mut sys, UNIT), (8, 2));
    assert_eq!(sys.at(0, 0), 1);
}

#[test]
fn cluster_sites_are_connected() {
    let bond: u64 = UNIT / 2;
    let n = 6usize;
    let mut sys = lattice(n, 41);
    scramble(&mut sys);
    for _ in 0..200 {
        let before = spins(&sys);
        cluster_step(&mut sys, bond);
        let after = spins(&sys);
        let flipped: Vec<usize> = (0..before.len()).filter(|&k| before[k] != after[k]).collect();
        // Flood the flipped sites from the first one through flipped neighbours only.
        let mut reached = vec![false; n * n];
        let mut stack = vec![flipped[0]];
        reached[flipped[0]] = true;
        while let Some(k) = stack.pop() {
            let (i, j) = (k / n, k % n);
            let around = [
                i * n + (j + 1) % n,
                i * n + (j + n - 1) % n,
                ((i + 1) % n) * n + j,
                ((i + n - 1) % n) * n + j,
            ];
            for q in around {
                if !reached[q] && before[q] != after[q] {
                    reached[q] = true;
                    stack.push(q);
                }
            }
        }
        assert!(flipped.iter().all(|&k| reached[k]));
    }
}

#[test]
fn metropolis_step_follows_the_rule() {
    let mut sys = lattice(4, 50);
    assert_eq!(metropolis_step(&mut sys, &UpdateRule::Local(FROZEN)), (0, 0));
    assert_eq!(spins(&sys), vec![1; 16]);
    assert_eq!(metropolis_step(&mut sys, &UpdateRule::Local(HOT)), (8, -2));
    // One site is down now. The cluster is that site or all the others.
    let change = metropolis_step(&mut sys, &UpdateRule::Cluster(UNIT));
    assert!(change == (-8, 2) || change == (-8, -30));
    let all = spins(&sys);
    assert!(all == vec![1; 16] || all == vec![-1; 16]);
}

/// The threshold of the probability `p`: the least `t` such that a draw `d`
/// below the unit satisfies `d / UNIT < p` exactly when `d < t`.
fn threshold(p: f64) -> u64 {
    let scaled = (p * UNIT as f64).ceil();
    if !(scaled > 0.0) {
        0
    } else if scaled >= UNIT as f64 {
        UNIT
    } else {
        scaled as u64
    }
}

#[test]
fn a_threshold_decides_like_the_comparison_of_fractions() {
    let scale = 1.0 / UNIT as f64;
    for beta in [0.0_f64, 0.01, 0.2, 0.44, 1.0, 2.5, 10.0, 100.0, f64::INFINITY] {
        let p4 = (-beta * 4.).exp();
        let p8 = (-beta * 8.).exp();
        let acc = Acceptance { four: threshold(p4), eight: threshold(p8) };
        let mut draws: Vec<u64> = vec![0, 1, UNIT / 3, UNIT / 2, UNIT - 2, UNIT - 1];
        for t in [acc.four, acc.eight] {
            for d in [t.wrapping_sub(2), t.wrapping_sub(1), t, t + 1] {
                if d < UNIT {
                    draws.push(d);
                }
            }
        }
        for &d in &draws {
            let u = d as f64 * scale;
            assert_eq!(acc.admits(4, d), u < p4);
            assert_eq!(acc.admits(8, d), u < p8);
            assert!(acc.admits(0, d));
            assert!(acc.admits(-4, d));
        }
    }
}

#[test]
fn thresholds_at_the_ends_of_the_temperature_range() {
    // Infinite temperature: every Boltzmann factor is one.
    assert_eq!(threshold((-0.0_f64 * 4.).exp()), UNIT);
    assert_eq!(threshold((-0.0_f64 * 8.).exp()), UNIT);
    // Zero temperature: every Boltzmann factor vanishes.
    assert_eq!(threshold((-f64::INFINITY * 4.).exp()), 0);
    // The bond probability of the cluster rule runs the other way.
    assert_eq!(threshold(1. - (-2. * 0.0_f64).exp()), 0);
    assert_eq!(threshold(1. - (-2. * f64::INFINITY).exp()), UNIT);
    // In between, the thresholds fall with the cost.
    let four = threshold((-4.0_f64 / 2.27).exp());
    let eight = threshold((-8.0_f64 / 2.27).exp());
    assert!(0 < eight && eight < four && four < UNIT);
    assert!((four as f64 / UNIT as f64 - 0.171_681_45).abs() < 1e-7);
    assert!((eight as f64 / UNIT as f64 - 0.029_474_52).abs() < 1e-7);
    // A probability that is a multiple of the unit's step is its own threshold.
    assert_eq!(threshold(0.5), UNIT / 2);
    assert_eq!(threshold(0.25), UNIT / 4);
    let step = 1.0 / UNIT as f64;
    assert_eq!(threshold(12345.0 * step), 12345);
    // Any other probability is rounded up.
    assert_eq!(threshold(12345.5 * step), 12346);
    assert_eq!(threshold(step / 1024.0), 1);
}
