//! The thread pool interface that the server hands connections to.
use crate::error::KvsError;
use vstd::prelude::*;

verus! {

/// A pool of worker threads that runs jobs.
pub trait ThreadPool {
    /// A pool of `size` workers.
    fn new(size: usize) -> Result<Self, KvsError> where Self: Sized;

    /// Runs `job` once on some worker. A job that panics leaves the pool
    /// able to run the jobs after it.
    fn spawn<F>(&self, job: F) where F: FnOnce() + Send + 'static;
}

} // verus!
