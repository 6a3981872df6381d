//! Search for sum-free colorings: assignments of one of `k` colors to each
//! of the integers `1..=N` such that no `a + b = c` is monochromatic.

pub mod coloring;
pub mod config;
pub mod search;
pub mod bans;
pub mod frontier;
pub mod random;
