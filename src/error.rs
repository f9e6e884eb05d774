//! The store's errors.
use vstd::prelude::*;

verus! {

/// `std::io::Error`, carried through as it is.
#[verifier::external_type_specification]
#[verifier::external_body]
pub struct ExIoError(std::io::Error);

/// `serde_json::Error`, carried through as it is.
#[verifier::external_type_specification]
#[verifier::external_body]
pub struct ExJsonError(serde_json::Error);

/// What can go wrong in the store, its client or its server.
#[derive(Debug)]
pub enum KvsError {
    /// A file or network operation failed.
    IoError(std::io::Error),
    /// A request or response could not be encoded or decoded.
    JSONSerializeError(serde_json::Error),
    /// A failure without more detail.
    Unknown,
    /// The key of a removal is not in the store.
    RecordNotFound,
    /// A segment file that the index points into is missing.
    FindFileError(String),
    /// The server answered a get with an error message.
    ClientGetError(String),
    /// The server answered a set with an error message.
    ClientSetError(String),
    /// The server answered a remove with an error message.
    ClientRemoveError(String),
    /// The alternative engine failed; its message.
    ServerError(String),
    /// Bytes that should hold a record do not.
    InvalidRecord,
    /// A segment offset or a generation id would leave the range of `u64`.
    Overflow,
}

} // verus!
