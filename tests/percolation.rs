use percolation::grid::{generate_grid, threshold_grid};
use percolation::search::percolates;
use percolation::sweep::{run_sweep, run_trials, validate, SweepConfig, SweepError, SweepPoint};
use rand::rngs::StdRng;
use rand::SeedableRng;

fn theta(pt: &SweepPoint) -> f64 {
    pt.percolating as f64 / pt.trials as f64
}

fn p_value(pt: &SweepPoint) -> f64 {
    pt.step as f64 / pt.steps as f64
}

#[test]
fn empty_grid_never_percolates() {
    let mut rng = StdRng::seed_from_u64(1);
    for n in 1..6usize {
        for m in 1..6usize {
            let g = generate_grid(n, m, 0, 10, &mut rng);
            assert_eq!(g, vec![vec![0u8; m]; n]);
            assert!(!percolates(&g));
        }
    }
}

#[test]
fn full_grid_always_percolates() {
    let mut rng = StdRng::seed_from_u64(2);
    for n in 1..6usize {
        for m in 1..6usize {
            let g = generate_grid(n, m, 7, 7, &mut rng);
            assert_eq!(g, vec![vec![1u8; m]; n]);
            assert!(percolates(&g));
        }
    }
}

#[test]
fn single_row_percolates_iff_occupied() {
    assert!(!percolates(&vec![vec![0, 0, 0]]));
    assert!(percolates(&vec![vec![0, 1, 0]]));
    assert!(percolates(&vec![vec![0, 0, 1]]));
    assert!(percolates(&vec![vec![1]]));
    assert!(!percolates(&vec![vec![0]]));
}

#[test]
fn theta_rises_with_probability() {
    let mut rng = StdRng::seed_from_u64(3);
    let config = SweepConfig { n: 5, m: 5, steps: 10, size: 2000 };
    let pts = run_sweep(&config, &mut rng).unwrap();
    for w in pts.windows(2) {
        assert!(theta(&w[1]) >= theta(&w[0]) - 0.05);
    }
    assert_eq!(theta(&pts[0]), 0.0);
    assert!(theta(&pts[9]) > 0.9);
}

#[test]
fn sweep_has_one_point_per_step() {
    let mut rng = StdRng::seed_from_u64(4);
    for steps in 1..8usize {
        let config = SweepConfig { n: 3, m: 4, steps, size: 5 };
        let pts = run_sweep(&config, &mut rng).unwrap();
        assert_eq!(pts.len(), steps);
        for (i, pt) in pts.iter().enumerate() {
            assert_eq!(pt.step, i);
            assert_eq!(pt.steps, steps);
            assert_eq!(pt.trials, 5);
            assert!(pt.percolating <= 5);
            assert_eq!(p_value(pt), i as f64 / steps as f64);
        }
    }
}

#[test]
fn seeded_trials_repeat() {
    let mut a = StdRng::seed_from_u64(99);
    let mut b = StdRng::seed_from_u64(99);
    for _ in 0..20 {
        let ga = generate_grid(6, 6, 3, 5, &mut a);
        let gb = generate_grid(6, 6, 3, 5, &mut b);
        assert_eq!(ga, gb);
        assert_eq!(percolates(&ga), percolates(&gb));
    }
    let config = SweepConfig { n: 4, m: 4, steps: 5, size: 50 };
    let ra = run_sweep(&config, &mut StdRng::seed_from_u64(5)).unwrap();
    let rb = run_sweep(&config, &mut StdRng::seed_from_u64(5)).unwrap();
    assert_eq!(ra, rb);
}

#[test]
fn two_by_one_full_percolates() {
    let mut rng = StdRng::seed_from_u64(6);
    let g = generate_grid(2, 1, 1, 1, &mut rng);
    assert_eq!(g, vec![vec![1], vec![1]]);
    assert!(percolates(&g));
}

#[test]
fn two_by_one_empty_does_not_percolate() {
    let mut rng = StdRng::seed_from_u64(7);
    let g = generate_grid(2, 1, 0, 1, &mut rng);
    assert_eq!(g, vec![vec![0], vec![0]]);
    assert!(!percolates(&g));
}

#[test]
fn left_column_percolates() {
    let g = vec![vec![1, 0, 0], vec![1, 0, 0], vec![1, 0, 0]];
    assert!(percolates(&g));
}

#[test]
fn disconnected_corners_do_not_percolate() {
    let g = vec![vec![1, 0, 0], vec![0, 0, 0], vec![0, 0, 1]];
    assert!(!percolates(&g));
}

#[test]
fn five_by_five_sweep_of_four_steps() {
    let mut rng = StdRng::seed_from_u64(8);
    let config = SweepConfig { n: 5, m: 5, steps: 4, size: 200 };
    let pts = run_sweep(&config, &mut rng).unwrap();
    assert_eq!(pts.len(), 4);
    let ps: Vec<f64> = pts.iter().map(p_value).collect();
    assert_eq!(ps, vec![0.0, 0.25, 0.5, 0.75]);
    for w in pts.windows(2) {
        assert!(theta(&w[1]) >= theta(&w[0]) - 0.1);
    }
    assert_eq!(pts[0].percolating, 0);
}

#[test]
fn winding_path_goes_up_and_sideways() {
    let g = vec![
        vec![0, 0, 0, 0, 1],
        vec![1, 1, 1, 0, 1],
        vec![1, 0, 1, 0, 1],
        vec![1, 0, 1, 1, 1],
        vec![1, 0, 0, 0, 0],
    ];
    assert!(percolates(&g));
    let mut blocked = g.clone();
    blocked[3][3] = 0;
    assert!(!percolates(&blocked));
}

#[test]
fn diagonal_steps_do_not_connect() {
    let g = vec![vec![1, 0], vec![0, 1]];
    assert!(!percolates(&g));
    let h = vec![vec![0, 1], vec![1, 0]];
    assert!(!percolates(&h));
}

#[test]
fn empty_top_row_does_not_percolate() {
    let g = vec![vec![0, 0, 0], vec![1, 1, 1], vec![1, 1, 1]];
    assert!(!percolates(&g));
}

#[test]
fn threshold_marks_draws_below_numerator() {
    let draws = vec![vec![0, 3, 5], vec![2, 9, 4]];
    let g = threshold_grid(&draws, 3);
    assert_eq!(g, vec![vec![1, 0, 0], vec![1, 0, 0]]);
    let none = threshold_grid(&draws, 0);
    assert_eq!(none, vec![vec![0, 0, 0], vec![0, 0, 0]]);
}

#[test]
fn trials_at_the_ends_are_exact() {
    let mut rng = StdRng::seed_from_u64(9);
    assert_eq!(run_trials(4, 3, 0, 5, 30, &mut rng), 0);
    assert_eq!(run_trials(4, 3, 5, 5, 30, &mut rng), 30);
    let mid = run_trials(4, 3, 2, 5, 30, &mut rng);
    assert!(mid <= 30);
}

#[test]
fn zero_parameters_are_refused() {
    let mut rng = StdRng::seed_from_u64(10);
    let base = SweepConfig { n: 3, m: 3, steps: 2, size: 2 };
    assert_eq!(run_sweep(&SweepConfig { n: 0, ..base }, &mut rng), Err(SweepError::NoRows));
    assert_eq!(run_sweep(&SweepConfig { m: 0, ..base }, &mut rng), Err(SweepError::NoColumns));
    assert_eq!(run_sweep(&SweepConfig { steps: 0, ..base }, &mut rng), Err(SweepError::NoSteps));
    assert_eq!(run_sweep(&SweepConfig { size: 0, ..base }, &mut rng), Err(SweepError::NoTrials));
    let all_zero = SweepConfig { n: 0, m: 0, steps: 0, size: 0 };
    assert_eq!(validate(&all_zero), Err(SweepError::NoRows));
    assert_eq!(validate(&base), Ok(()));
    assert!(!SweepError::NoSteps.message().is_empty());
}
