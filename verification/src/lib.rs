//! A budget-bounded solver for single decision points of poker-style betting
//! games.
//!
//! A solve turns bet-size tokens into bounded actions ([`abstraction`]),
//! lays them out as a flat decision node ([`game_tree`]), runs regret
//! minimisation over the node ([`cfr`]) for as many rounds as the time
//! budget grants ([`budget`], [`solver`]) and reports a mixed strategy.
//!
//! Every quantity is exact: chip amounts and big-blind multiples are counts
//! of millionths ([`fixed`], read from text by [`numeral`]); frequencies,
//! values, regrets and the quality proxy are fractions. Nothing here rounds
//! by the machine's floating point, so a solve gives the same strategy
//! everywhere.

pub mod abstraction;
pub mod budget;
pub mod cfr;
pub mod fixed;
pub mod game_tree;
pub mod numeral;
pub mod solver;
pub mod text;
