//! The settings of one search.

use vstd::prelude::*;

verus! {

/// What to search for, and how hard to try.
pub struct Args {
    /// Number of colors to use.
    pub colors: u8,
    /// Length of the coloring wanted.
    pub target: usize,
    /// Name of the strategy.
    pub algorithm: String,
    /// Budget of iterations.
    pub attempts: usize,
}

} // verus!
