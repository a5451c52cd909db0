use percolation::spanning::check_percolation;
use percolation::trial::{run_trial, run_trials, ConfigError};
use rand::rngs::SmallRng;
use rand::SeedableRng;

#[test]
fn trial_on_5x5_terminates_with_valid_threshold() {
    let mut rng = SmallRng::seed_from_u64(42);
    let trial = run_trial(&mut rng, 5, 5);
    assert!(trial.opened >= 1 && trial.opened <= 25);
    assert_eq!(trial.lattice.len(), 25);
    let open = trial.lattice.iter().filter(|&&l| l > 0).count();
    assert_eq!(open, trial.opened);
    let (percolated, label) = check_percolation(&trial.lattice, 5, 5);
    assert!(percolated);
    assert_eq!(label, trial.label);
    let threshold = trial.opened as f32 / 25.0;
    assert!(threshold > 0.0 && threshold <= 1.0);
}

#[test]
fn single_trial_batch_reports_its_threshold() {
    let mut rng = SmallRng::seed_from_u64(7);
    let sim = run_trials(&mut rng, 5, 5, 1).unwrap();
    assert_eq!(sim.opened_counts.len(), 1);
    let j = sim.opened_counts[0];
    assert!(j >= 1 && j <= 25);
    assert_eq!(sim.total_opened, j as u64);
    assert_eq!(sim.last.opened, j);
    let threshold = sim.total_opened as f32 / 25.0;
    assert!((threshold - j as f32 / 25.0).abs() < 1e-6);
}

#[test]
fn mean_threshold_is_sum_over_iterations() {
    let mut rng = SmallRng::seed_from_u64(1234);
    let iters = 4usize;
    let sim = run_trials(&mut rng, 3, 3, iters).unwrap();
    assert_eq!(sim.opened_counts.len(), iters);
    let sum: u64 = sim.opened_counts.iter().map(|&j| j as u64).sum();
    assert_eq!(sim.total_opened, sum);
    // the reported mean equals the mean of the per-trial fractions
    let len = 9.0f32;
    let mean = sim.total_opened as f32 / (iters as f32 * len);
    let by_hand: f32 =
        sim.opened_counts.iter().map(|&j| j as f32 / len).sum::<f32>() / iters as f32;
    assert!((mean - by_hand).abs() < 1e-6);
    for &j in sim.opened_counts.iter() {
        assert!(j >= 1 && j <= 9);
    }
}

#[test]
fn trials_are_deterministic_under_a_fixed_seed() {
    let mut rng_a = SmallRng::seed_from_u64(99);
    let mut rng_b = SmallRng::seed_from_u64(99);
    let sim_a = run_trials(&mut rng_a, 4, 4, 3).unwrap();
    let sim_b = run_trials(&mut rng_b, 4, 4, 3).unwrap();
    assert_eq!(sim_a.opened_counts, sim_b.opened_counts);
    assert_eq!(sim_a.total_opened, sim_b.total_opened);
    assert_eq!(sim_a.last.lattice, sim_b.last.lattice);
}

#[test]
fn one_by_one_grid_percolates_at_first_opening() {
    let mut rng = SmallRng::seed_from_u64(5);
    let trial = run_trial(&mut rng, 1, 1);
    assert_eq!(trial.opened, 1);
    assert_eq!(trial.lattice, vec![1]);
    assert_eq!(trial.label, 1);
}

#[test]
fn zero_rows_is_rejected() {
    let mut rng = SmallRng::seed_from_u64(0);
    assert_eq!(run_trials(&mut rng, 0, 5, 1).unwrap_err(), ConfigError::ZeroRows);
}

#[test]
fn zero_cols_is_rejected() {
    let mut rng = SmallRng::seed_from_u64(0);
    assert_eq!(run_trials(&mut rng, 5, 0, 1).unwrap_err(), ConfigError::ZeroCols);
}

#[test]
fn zero_iterations_is_rejected() {
    let mut rng = SmallRng::seed_from_u64(0);
    assert_eq!(run_trials(&mut rng, 5, 5, 0).unwrap_err(), ConfigError::ZeroIterations);
}

#[test]
fn oversized_grid_is_rejected() {
    let mut rng = SmallRng::seed_from_u64(0);
    let too_many = u32::MAX as usize;
    assert_eq!(run_trials(&mut rng, too_many, 2, 1).unwrap_err(), ConfigError::TooManySites);
}

#[test]
fn oversized_iteration_count_is_rejected() {
    let mut rng = SmallRng::seed_from_u64(0);
    let too_many = u32::MAX as usize + 1;
    assert_eq!(run_trials(&mut rng, 2, 2, too_many).unwrap_err(), ConfigError::TooManyIterations);
}
