//! How long the steps of training a tree took.

use std::sync::atomic::{AtomicU64, Ordering};
use vstd::prelude::*;

verus! {

/// The time spent in the steps of training, step by step.
pub struct Timing {
    pub choose_best_split_not_root: TimingDuration,
    pub compute_binning_instructions: TimingDuration,
}

/// A span of time in nanoseconds that several threads may add to. What
/// `get` returns is whatever the span is at that moment.
pub struct TimingDuration(AtomicU64);

impl TimingDuration {
    /// A span of no time.
    pub fn new() -> TimingDuration {
        TimingDuration(AtomicU64::new(0))
    }

    /// The span at this moment, in nanoseconds.
    pub fn get(&self) -> u64 {
        self.0.load(Ordering::Relaxed)
    }

    /// Adds nanoseconds to the span, which wraps around at the end of its
    /// range, and returns the span before.
    pub fn inc(&self, nanoseconds: u64) -> u64 {
        self.0.fetch_add(nanoseconds, Ordering::Relaxed)
    }
}

} // verus!
