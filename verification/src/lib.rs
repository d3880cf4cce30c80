//! Edge-reinforced random walks on the two-dimensional integer lattice.
//!
//! A walker starts at the origin and moves one lattice unit per step. In the
//! plain walk all four directions are equally likely. In the reinforced walk
//! every edge the walker has crossed recently becomes more likely to be
//! crossed again, in proportion to how often it was crossed.
//!
//! All arithmetic is exact: weights are fixed-point integers with 32
//! fractional bits, positions are `i32` pairs, and every return time is an
//! integer. Randomness enters only through uniform integer draws, so each
//! step is a function of the walk's state and of one drawn number.

pub mod estimate;
pub mod lattice;
pub mod ledger;
pub mod random;
pub mod sampler;
pub mod walk;

pub use estimate::{
    erw_return_time, monte_carlo_erw_et, monte_carlo_et, replay_monte_carlo_erw_et,
    replay_monte_carlo_et, return_time, EstimateError,
};
pub use lattice::{edge_key, Direction, EdgeKey, LatticePoint};
pub use ledger::Ledger;
pub use random::RandomSource;
pub use walk::{erw_walk, random_walk, replay_erw_walk, replay_random_walk, WalkResult, MAX_STEPS};
