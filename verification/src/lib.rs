//! Verified core of a vanity-address search engine: pattern validation,
//! placement matching, single-writer session aggregation, rate smoothing,
//! and the on-disk match-record format.

use vstd::prelude::*;

pub mod alphabet;
pub mod codec;
pub mod config;
pub mod generator;
pub mod lifecycle;
pub mod matcher;
pub mod session;

verus! {

/// Number of inner iterations per perturbation counter; one reseed cycle
/// checks `COUNT_PER_LOOP * COUNT_PER_LOOP` candidates.
pub const COUNT_PER_LOOP: usize = 100;

/// Upper bound on the number of worker threads.
pub const MAX_THREADS: usize = 128;

/// Fallback number of worker threads when parallelism detection fails.
pub const DEFAULT_THREADS: usize = 4;

} // verus!
