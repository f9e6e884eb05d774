//! A persistent, log-structured key-value store.
//!
//! The library holds the store's logic: the on-disk record format
//! (`record`), segment file names (`segment`), the index (`index`), the
//! writer that decides every change and plans compactions (`writer`), the
//! request/response protocol (`protocol`, `engine`, `server`) and the
//! engine and pool that live on outside crates (`sled_engine`,
//! `rayon_pool`). Files, sockets and threads are driven by the caller, which
//! hands the library plain values.
pub mod engine;
pub mod error;
pub mod index;
pub mod protocol;
pub mod rayon_pool;
pub mod record;
pub mod segment;
pub mod server;
pub mod sled_engine;
pub mod thread_pool;
pub mod writer;
