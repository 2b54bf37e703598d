//! Branch-and-price for one-dimensional bin packing.
//!
//! The crate holds the combinatorial core of a column-generation solver:
//! the knapsack pricing oracle, the Ryan-Foster branching rule, and the
//! stores that tie master-problem columns to packing patterns and
//! search-tree nodes to branching decisions.  The linear-programming
//! engine that drives the search is not part of it: the engine hands in
//! plain values and receives plain values back.
//!
//! Real quantities (dual prices, LP values, bounds) are carried as
//! fixed-point integers, see [`fixed`].

pub mod bnp;
pub mod fixed;
pub mod decisions;
pub mod generator;
pub mod instance;
pub mod knapsack;
pub mod patterns;
pub mod pricing;
pub mod ryanfoster;

pub use decisions::{BBNodeId, BranchingDecisionMap, BranchingDecisions, Pair};
pub use instance::BinPackingInstance;
pub use patterns::{PatternForVar, VarId};
