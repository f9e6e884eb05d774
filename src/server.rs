//! The server: an engine and the pool that serves its connections.
use crate::engine::KvsEngine;
use crate::thread_pool::ThreadPool;
use vstd::prelude::*;

verus! {

/// A server over an engine, with a pool to serve connections on.
pub struct KvsServer<T: KvsEngine, P: ThreadPool> {
    engine: T,
    thread_pool: P,
}

impl<T: KvsEngine, P: ThreadPool> KvsServer<T, P> {
    /// A server over `engine` that serves connections on `thread_pool`.
    pub fn new(engine: T, thread_pool: P) -> (s: Self)
        ensures
            s.engine() == engine,
            s.thread_pool() == thread_pool,
    {
        KvsServer { engine, thread_pool }
    }

    pub closed spec fn engine(&self) -> T {
        self.engine
    }

    pub closed spec fn thread_pool(&self) -> P {
        self.thread_pool
    }

    /// The engine; each connection is served from a clone of it.
    pub fn engine_ref(&self) -> (r: &T)
        ensures
            *r == self.engine(),
    {
        &self.engine
    }

    /// The pool that connections are handed to.
    pub fn pool_ref(&self) -> (r: &P)
        ensures
            *r == self.thread_pool(),
    {
        &self.thread_pool
    }
}

} // verus!
