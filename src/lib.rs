//! Detection of currency-arbitrage cycles.
//!
//! Exchange rates are turned into additive edge costs (the negated logarithm of each
//! rate, quantised to integers by the caller); a cycle whose costs sum to less than
//! zero is a chain of conversions whose compounded rate exceeds one.

pub mod builder;
pub mod cost_graph;
pub mod detect;
pub mod options;
pub mod profit;
