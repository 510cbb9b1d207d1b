//! Site percolation on a rectangular grid: random grid generation, a
//! top-to-bottom connectivity test over 4-adjacent occupied cells, and a
//! Monte Carlo sweep over occupation probabilities.

pub mod grid;
pub mod paths;
pub mod search;
pub mod sweep;
