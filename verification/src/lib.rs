//! A Markov decision process utility engine.
//!
//! The crate computes the long-run expected utility of a state by a direct
//! recursive expansion of the Bellman optimality equation.  Values (rewards,
//! probabilities, the discount factor and utilities) are exact rational
//! numbers, so every result is stated and proved against a mathematical
//! rational model rather than floating point.

pub mod agg;
pub mod mdp;
pub mod rat;

pub use agg::set_max;
pub use agg::set_sum;
pub use agg::AggError;
pub use mdp::utility;
pub use mdp::Action;
pub use mdp::EvalError;
pub use mdp::State;
pub use mdp::MDP;
pub use rat::Frac;
pub use rat::Rat;

