//! A counter of finished steps that is shared between threads.

use std::sync::atomic::{AtomicU64, Ordering};
use std::sync::Arc;
use vstd::prelude::*;

verus! {

/// Counts the steps of a task towards a known total. Clones share one count:
/// any thread may read it while another adds to it, so what `get` returns is
/// whatever the count is at that moment.
#[derive(Debug)]
pub struct ProgressCounter {
    current: Arc<AtomicU64>,
    total: u64,
}

impl Clone for ProgressCounter {
    /// A counter that shares the count of this one.
    fn clone(&self) -> (r: ProgressCounter)
        ensures
            r.spec_total() == self.spec_total(),
    {
        ProgressCounter { current: self.current.clone(), total: self.total }
    }
}

impl ProgressCounter {
    /// The number of steps of the whole task.
    pub closed spec fn spec_total(self) -> u64 {
        self.total
    }

    /// A counter at zero.
    #[must_use]
    pub fn new(total: u64) -> (r: ProgressCounter)
        ensures
            r.spec_total() == total,
    {
        ProgressCounter { current: Arc::new(AtomicU64::new(0)), total }
    }

    /// The number of steps of the whole task.
    #[must_use]
    pub fn total(&self) -> (r: u64)
        ensures
            r == self.spec_total(),
    {
        self.total
    }

    /// The count at this moment.
    #[must_use]
    pub fn get(&self) -> u64 {
        self.current.load(Ordering::Relaxed)
    }

    /// Replaces the count.
    pub fn set(&self, value: u64) {
        self.current.store(value, Ordering::Relaxed);
    }

    /// Adds to the count, which wraps around at the end of its range.
    pub fn inc(&self, amount: u64) {
        self.current.fetch_add(amount, Ordering::Relaxed);
    }
}

} // verus!
