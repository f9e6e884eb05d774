//! A thread pool on `rayon`.
use crate::error::KvsError;
use crate::thread_pool::ThreadPool;
use rayon::ThreadPool as RayonWorkers;
use vstd::prelude::*;

verus! {

/// `rayon::ThreadPool`, a pool of worker threads.
#[verifier::external_type_specification]
#[verifier::external_body]
pub struct ExRayonPool(RayonWorkers);

/// `rayon::ThreadPoolBuildError`, turned into `ServerError` with its
/// message.
#[verifier::external_type_specification]
#[verifier::external_body]
pub struct ExRayonBuildError(rayon::ThreadPoolBuildError);

/// Relies on `rayon::ThreadPoolBuilder`: builds a pool of `size` threads
/// whose panic handler drops the payload of a job that panicked, so that the
/// pool goes on running jobs (without a handler rayon aborts the process).
#[verifier::external_body]
fn rayon_build(size: usize) -> (r: Result<RayonWorkers, rayon::ThreadPoolBuildError>) {
    rayon::ThreadPoolBuilder::new().num_threads(size).panic_handler(|_payload| {}).build()
}

/// Relies on the `Display` of `rayon::ThreadPoolBuildError`: its message.
#[verifier::external_body]
fn rayon_error_text(e: &rayon::ThreadPoolBuildError) -> (r: String) {
    e.to_string()
}

/// Relies on `rayon::ThreadPool::spawn`: runs the job on one of the pool's
/// threads.
#[verifier::external_body]
fn rayon_spawn<F>(pool: &RayonWorkers, job: F) where F: FnOnce() + Send + 'static {
    pool.spawn(job)
}

/// A pool whose workers are `rayon`'s.
pub struct RayonThreadPool {
    pool: RayonWorkers,
}

impl ThreadPool for RayonThreadPool {
    fn new(size: usize) -> Result<Self, KvsError> {
        match rayon_build(size) {
            Ok(pool) => Ok(RayonThreadPool { pool }),
            Err(e) => Err(KvsError::ServerError(rayon_error_text(&e))),
        }
    }

    fn spawn<F>(&self, job: F) where F: FnOnce() + Send + 'static {
        rayon_spawn(&self.pool, job)
    }
}

} // verus!
