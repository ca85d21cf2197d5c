//! Cancelling a scan from another thread.
use std::sync::atomic::{AtomicBool, Ordering};
use std::sync::Arc;
use vstd::prelude::*;

verus! {

/// A flag shared by the interface and a scan worker. The duplicate finder
/// cannot be interrupted, so the flag is looked at before and after it runs.
#[derive(Clone, Default)]
pub struct CancellationToken(Arc<AtomicBool>);

impl CancellationToken {
    /// Raises the flag.
    pub fn cancel(&self) {
        self.0.store(true, Ordering::Release)
    }

    /// Whether the flag was raised. Another thread may raise it at any
    /// time, so nothing is promised of the answer.
    pub fn is_cancelled(&self) -> bool {
        self.0.load(Ordering::Acquire)
    }
}

} // verus!
