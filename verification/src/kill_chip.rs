//! A flag by which the owner of a long task asks it to stop.

use std::sync::atomic::{AtomicBool, Ordering};
use vstd::prelude::*;

verus! {

/// The flag is shared between the owner, who may set it, and the task, which
/// polls it between its steps and never sets it. What `is_activated`
/// returns is whatever the flag is at that moment.
pub struct KillChip {
    activated: AtomicBool,
}

impl KillChip {
    /// A flag that is not set.
    pub fn new() -> KillChip {
        KillChip { activated: AtomicBool::new(false) }
    }

    /// Sets the flag.
    pub fn activate(&self) {
        self.activated.store(true, Ordering::SeqCst);
    }

    /// Whether the flag is set at this moment.
    pub fn is_activated(&self) -> bool {
        self.activated.load(Ordering::SeqCst)
    }
}

} // verus!
