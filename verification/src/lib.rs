//! Exact 0/1 knapsack solver: an exhaustive branch-and-bound search over
//! subsets of a small item set, returning the best achievable weight sum not
//! exceeding a capacity limit, together with the bitmask of the chosen items.
//!
//! Weights and the limit are non-negative integers; a caller working in
//! fractional units (say, billionths) scales its quantities to integers
//! before the search and scales the result back afterwards.

pub mod laws;
pub mod model;
pub mod report;
pub mod search;
