//! The alternative engine, on the `sled` embedded database.
use crate::engine::KvsEngine;
use crate::error::KvsError;
use crate::record::string_from_utf8;
use vstd::utf8::{decode_utf8, valid_utf8};
use std::path::PathBuf;
use vstd::prelude::*;

verus! {

/// `sled::Db`, a handle to an open database.
#[verifier::external_type_specification]
#[verifier::external_body]
pub struct ExSledDb(sled::Db);

/// `sled::Error`, turned into `ServerError` with its message.
#[verifier::external_type_specification]
#[verifier::external_body]
pub struct ExSledError(sled::Error);

/// `std::path::PathBuf`, the database's directory.
#[verifier::external_type_specification]
#[verifier::external_body]
pub struct ExPathBuf(std::path::PathBuf);

/// Relies on `Clone` of `sled::Db`: a second handle to the same database.
pub assume_specification[ <sled::Db as Clone>::clone ](db: &sled::Db) -> (r: sled::Db);

/// Relies on `sled::open`: opens, or creates, the database at a path.
#[verifier::external_body]
fn sled_open(path: PathBuf) -> (r: Result<sled::Db, sled::Error>) {
    sled::open(path)
}

/// Relies on the `Display` of `sled::Error`: its message.
#[verifier::external_body]
fn sled_error_text(e: &sled::Error) -> (r: String) {
    e.to_string()
}

/// Relies on `Tree::insert`: stores the value's bytes under the key's.
#[verifier::external_body]
fn sled_insert(db: &sled::Db, key: &str, value: &str) -> (r: Result<(), sled::Error>) {
    match db.insert(key, value.as_bytes()) {
        Ok(_) => Ok(()),
        Err(e) => Err(e),
    }
}

/// Relies on `Tree::get`: the bytes stored under the key's, if any.
#[verifier::external_body]
fn sled_get(db: &sled::Db, key: &str) -> (r: Result<Option<Vec<u8>>, sled::Error>) {
    match db.get(key) {
        Ok(v) => Ok(v.map(|b| b.to_vec())),
        Err(e) => Err(e),
    }
}

/// Relies on `Tree::remove`: removes the key and gives the bytes it had, if
/// it had any.
#[verifier::external_body]
fn sled_remove(db: &sled::Db, key: &str) -> (r: Result<Option<Vec<u8>>, sled::Error>) {
    match db.remove(key) {
        Ok(v) => Ok(v.map(|b| b.to_vec())),
        Err(e) => Err(e),
    }
}

/// Relies on `Tree::flush`: writes the dirty buffers to disk.
#[verifier::external_body]
fn sled_flush(db: &sled::Db) -> (r: Result<(), sled::Error>) {
    match db.flush() {
        Ok(_) => Ok(()),
        Err(e) => Err(e),
    }
}

fn server_error(e: sled::Error) -> (r: KvsError)
    ensures
        r is ServerError,
{
    KvsError::ServerError(sled_error_text(&e))
}

/// The answer to a get from the bytes that the database holds for the key:
/// none gives `None`; UTF-8 bytes give their text; other bytes give
/// `ServerError`.
pub fn stored_value(found: Option<Vec<u8>>) -> (r: Result<Option<String>, KvsError>)
    ensures
        found is None <==> r matches Ok(None),
        found matches Some(b) ==> {
            &&& (r is Ok <==> valid_utf8(b@))
            &&& (r matches Ok(Some(s)) ==> s@ == decode_utf8(b@))
            &&& (r matches Err(e) ==> e is ServerError)
        },
{
    match found {
        Some(bytes) => match string_from_utf8(bytes) {
            Some(s) => Ok(Some(s)),
            None => Err(KvsError::ServerError("stored value is not UTF-8".to_string())),
        },
        None => Ok(None),
    }
}

/// The outcome of a remove from what the database handed back for the
/// key: `RecordNotFound` exactly when it held nothing.
pub fn removal_outcome(found: &Option<Vec<u8>>) -> (r: Result<(), KvsError>)
    ensures
        r is Ok <==> found is Some,
        r matches Err(e) ==> e is RecordNotFound,
{
    match found {
        Some(_) => Ok(()),
        None => Err(KvsError::RecordNotFound),
    }
}

/// An engine on a `sled` database.
pub struct SledKvsEngine {
    sled: sled::Db,
}

impl Clone for SledKvsEngine {
    fn clone(&self) -> (r: Self) {
        SledKvsEngine { sled: self.sled.clone() }
    }
}

impl SledKvsEngine {
    /// Opens, or creates, the database at `path`; a failure of `sled`
    /// comes back as `ServerError`.
    pub fn open(path: PathBuf) -> (r: Result<Self, KvsError>)
        ensures
            r matches Err(e) ==> e is ServerError,
    {
        match sled_open(path) {
            Ok(sled) => Ok(SledKvsEngine { sled }),
            Err(e) => Err(server_error(e)),
        }
    }
}

impl KvsEngine for SledKvsEngine {
    fn set(&self, key: String, value: String) -> Result<(), KvsError> {
        if let Err(e) = sled_insert(&self.sled, key.as_str(), value.as_str()) {
            return Err(server_error(e));
        }
        if let Err(e) = sled_flush(&self.sled) {
            return Err(server_error(e));
        }
        Ok(())
    }

    fn get(&self, key: String) -> Result<Option<String>, KvsError> {
        match sled_get(&self.sled, key.as_str()) {
            Ok(found) => stored_value(found),
            Err(e) => Err(server_error(e)),
        }
    }

    fn remove(&self, key: String) -> Result<(), KvsError> {
        match sled_remove(&self.sled, key.as_str()) {
            Ok(found) => removal_outcome(&found)?,
            Err(e) => return Err(server_error(e)),
        }
        if let Err(e) = sled_flush(&self.sled) {
            return Err(server_error(e));
        }
        Ok(())
    }
}

} // verus!
