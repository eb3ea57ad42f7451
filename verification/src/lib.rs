//! Minimum page counts for precedence-constrained item placement.
//!
//! Items `1..=n` carry directed dependency edges `u -> v`, meaning `u` must be
//! placed on a strictly earlier page than `v`. Pages hold at most `capacity`
//! items. The library builds the dependency graph, decides feasibility
//! (acyclicity), and computes the exact minimum number of pages by a pruned
//! branch search.

pub mod combos;
pub mod laws;
pub mod graph;
pub mod model;
pub mod solver;

pub use graph::DependencyGraph;
pub use graph::PackError;
pub use solver::min_pages;
pub use solver::min_pages_feasible;
pub use solver::solve;
pub use solver::Feasibility;
