//! Masked Hamming Distance (MHD) kernels, the MHD memory built on them, and a
//! branch-and-bound engine for binary decision problems (subset-sum and 0/1
//! knapsack) steered by interchangeable solvers: depth-first, best-first, Monte-Carlo
//! tree search, MHD Monte-Carlo rollouts and best-first MHD.
pub mod bf_mhd;
pub mod bits;
mod chance;
pub mod distance;
pub mod fixed;
pub mod knapsack;
pub mod mcts;
pub mod memory;
pub mod mhd_mc;
pub mod optimizer;
pub mod parsers;
pub mod problem;
pub mod sample;
pub mod solution;
pub mod solver;
pub mod subset_sum;
mod text;

pub use bf_mhd::BestfirstMhdMonteCarloSolver;
pub use bits::{get_bit, put_bit};
pub use distance::{
    align_to, align_to_at, distance, distance_aligned, distance_fast, naive, truncated_distance,
    weight, DistanceError,
};
pub use knapsack::Problem01Knapsack;
pub use mcts::{MonteCarloTreeSolver, MonteTreeNode};
pub use memory::{DistanceMultiplier, Exploration, MemoryError, MhdMemory};
pub use mhd_mc::MhdMonteCarloSolver;
pub use optimizer::{find_best_solution, new_best_solution};
pub use parsers::{parse_dot_csv_record, parse_dot_dat_line, ParseError};
pub use problem::Problem;
pub use sample::{Sample, ScoreType, ZERO_SCORE};
pub use solution::MinimalSolution;
pub use solver::{BestFirstSolver, DepthFirstSolver, Solver};
pub use subset_sum::ProblemSubsetSum;
