//! The limits of a round of sampling.

use vstd::prelude::*;

verus! {

/// The most traces that a pair of pads gets in one round of sampling.
pub const MAX_TRACES_PER_ITERATION: usize = 4;

/// The most attempts that a net makes in one round of sampling.
pub const MAX_GENERATION_ATTEMPTS: usize = 10;

} // verus!
