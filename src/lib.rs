//! Maximal independent sets of an undirected graph by repeated randomized
//! greedy sweeps, keeping the largest (or smallest) result found.

pub mod graph;
pub mod parse;
pub mod trial;
pub mod search;
