//! A discrete-time probabilistic state-space explorer for finite,
//! rule-driven Markov systems.
//!
//! A world is a set of named entities, each holding named resources with
//! 64-bit values. Named rules, each a condition plus a weighted action,
//! transform one state into another. Starting from an initial probability
//! distribution over states, the engine enumerates reachable states,
//! memoizes rule evaluations in a write-once cache, and advances the
//! distribution one exact step at a time.
//!
//! All probability arithmetic is exact: probabilities and weights are
//! fixed-point numbers in billionths of full mass, so mass conservation
//! holds to the bit, not merely within a floating-point tolerance.

pub mod alist;
pub mod hashing;
pub mod units;
pub mod errors;
pub mod state;
pub mod distribution;
pub mod rules;
pub mod cache;
pub mod step;
pub mod graph;
