//! The Monte Carlo sweep: for each of `steps` occupation probabilities
//! `i / steps`, count how many of `size` random grids percolate.

use crate::grid::{cells, generate_grid};
use crate::paths::{lemma_empty_grid_never_spans, lemma_full_grid_spans};
use crate::search::percolates;
use rand::rngs::StdRng;
use vstd::prelude::*;

verus! {

/// Parameters of a sweep: grid rows `n`, grid columns `m`, the number of
/// probability samples `steps`, and the trials `size` run at each sample.
#[derive(Clone, Copy, Debug, PartialEq, Eq)]
pub struct SweepConfig {
    pub n: usize,
    pub m: usize,
    pub steps: usize,
    pub size: usize,
}

/// A sweep refused before any work: one of its parameters is zero.
#[derive(Clone, Copy, Debug, PartialEq, Eq)]
pub enum SweepError {
    NoRows,
    NoColumns,
    NoSteps,
    NoTrials,
}

/// One sample of a sweep: at occupation probability `step / steps`,
/// `percolating` of `trials` random grids percolated, so the estimate of
/// θ(p) is `percolating / trials`.
#[derive(Clone, Copy, Debug, PartialEq, Eq)]
pub struct SweepPoint {
    pub step: usize,
    pub steps: usize,
    pub percolating: usize,
    pub trials: usize,
}

impl SweepError {
    /// A short description of the refused parameter.
    pub fn message(&self) -> (s: &'static str) {
        match self {
            SweepError::NoRows => "the grid needs at least one row",
            SweepError::NoColumns => "the grid needs at least one column",
            SweepError::NoSteps => "the sweep needs at least one probability step",
            SweepError::NoTrials => "each step needs at least one trial",
        }
    }
}

/// The first zero parameter of a configuration, in the order rows, columns,
/// steps, trials; `None` when the configuration is valid.
pub open spec fn config_error(c: SweepConfig) -> Option<SweepError> {
    if c.n == 0 {
        Some(SweepError::NoRows)
    } else if c.m == 0 {
        Some(SweepError::NoColumns)
    } else if c.steps == 0 {
        Some(SweepError::NoSteps)
    } else if c.size == 0 {
        Some(SweepError::NoTrials)
    } else {
        None
    }
}

/// What the sample at index `i` of a sweep under `c` is: its probability is
/// `i / c.steps`, it ran `c.size` trials, at most all of them percolated, and
/// none did at probability zero.
pub open spec fn valid_point(c: SweepConfig, i: int, pt: SweepPoint) -> bool {
    &&& pt.step == i
    &&& pt.steps == c.steps
    &&& pt.trials == c.size
    &&& pt.percolating <= c.size
    &&& i == 0 ==> pt.percolating == 0
}

/// Checks a configuration: `Ok` exactly when no parameter is zero, else the
/// first zero one.
pub fn validate(c: &SweepConfig) -> (r: Result<(), SweepError>)
    ensures
        r is Ok <==> config_error(*c) is None,
        r matches Err(e) ==> config_error(*c) == Some(e),
{
    if c.n == 0 {
        Err(SweepError::NoRows)
    } else if c.m == 0 {
        Err(SweepError::NoColumns)
    } else if c.steps == 0 {
        Err(SweepError::NoSteps)
    } else if c.size == 0 {
        Err(SweepError::NoTrials)
    } else {
        Ok(())
    }
}

/// Runs `trials` trials at occupation probability `p_num / p_den` on `n` by
/// `m` grids and returns how many percolated. At probability zero none do;
/// at probability one all do.
pub fn run_trials(n: usize, m: usize, p_num: usize, p_den: usize, trials: usize, rng: &mut StdRng) -> (hits: usize)
    requires
        n >= 1,
        m >= 1,
        p_den >= 1,
        p_num <= p_den,
    ensures
        hits <= trials,
        p_num == 0 ==> hits == 0,
        p_num == p_den ==> hits == trials,
{
    let mut hits: usize = 0;
    for t in 0..trials
        invariant
            n >= 1,
            m >= 1,
            p_den >= 1,
            p_num <= p_den,
            hits <= t,
            p_num == 0 ==> hits == 0,
            p_num == p_den ==> hits == t,
    {
        let grid = generate_grid(n, m, p_num, p_den, rng);
        let ok = percolates(&grid);
        proof {
            if p_num == 0 {
                lemma_empty_grid_never_spans(cells(&grid));
            }
            if p_num == p_den {
                lemma_full_grid_spans(cells(&grid));
            }
        }
        if ok {
            hits = hits + 1;
        }
    }
    hits
}

/// Runs the sweep: for `i` in `0..steps`, in order, runs `size` trials at
/// occupation probability `i / steps`. Refuses a configuration with a zero
/// parameter before any work, naming the first one.
pub fn run_sweep(config: &SweepConfig, rng: &mut StdRng) -> (r: Result<Vec<SweepPoint>, SweepError>)
    ensures
        match r {
            Ok(pts) => {
                &&& config_error(*config) is None
                &&& pts@.len() == config.steps
                &&& forall|i: int| 0 <= i < pts@.len() ==> valid_point(*config, i, #[trigger] pts@[i])
            },
            Err(e) => config_error(*config) == Some(e),
        },
{
    match validate(config) {
        Err(e) => {
            return Err(e);
        },
        Ok(()) => {},
    }
    let mut pts: Vec<SweepPoint> = Vec::new();
    for i in 0..config.steps
        invariant
            config_error(*config) is None,
            pts@.len() == i,
            forall|k: int| 0 <= k < i ==> valid_point(*config, k, #[trigger] pts@[k]),
    {
        let hits = run_trials(config.n, config.m, i, config.steps, config.size, rng);
        pts.push(SweepPoint { step: i, steps: config.steps, percolating: hits, trials: config.size });
    }
    Ok(pts)
}

} // verus!
