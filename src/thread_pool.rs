//! The interface of a pool of worker threads.

use vstd::prelude::*;

use crate::error::KvsError;

verus! {

/// A fixed set of long-running worker threads that run jobs from a shared
/// queue.
pub trait ThreadPool {
    /// Starts a pool of `threads` workers; an error if a worker cannot be
    /// started.
    fn new(threads: u32) -> Result<Self, KvsError> where Self: Sized;

    /// Queues `job` to run on one of the workers.
    fn spawn<F>(&self, job: F) where F: FnOnce() + Send + 'static;
}

} // verus!
