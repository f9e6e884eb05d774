//! The engine interface that the server serves requests from.
use crate::error::KvsError;
use crate::protocol::{get_response, update_response, Request, Response, ResponseBody};
use vstd::prelude::*;

verus! {

/// A storage engine: a shared handle to a key-value store.
pub trait KvsEngine: Clone + Send + 'static {
    /// Sets `key` to `value`, replacing any value it had.
    fn set(&self, key: String, value: String) -> Result<(), KvsError>;

    /// The value of `key`, or `None` where the store does not hold it.
    fn get(&self, key: String) -> Result<Option<String>, KvsError>;

    /// Removes `key`; `RecordNotFound` where the store does not hold it.
    fn remove(&self, key: String) -> Result<(), KvsError>;
}

/// Serves one request from the engine and gives the answer: a set or a
/// remove answers with no value or with the error's message.
pub fn dispatch<E: KvsEngine>(engine: &E, req: Request) -> (resp: Response)
    ensures
        !(req is Get) ==> resp.body == ResponseBody::Value(None) || resp.body is Failure,
{
    match req {
        Request::Get { key } => get_response(engine.get(key)),
        Request::Put { key, value } => update_response(engine.set(key, value)),
        Request::Remove { key } => update_response(engine.remove(key)),
    }
}

} // verus!
