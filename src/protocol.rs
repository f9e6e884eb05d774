//! The messages between client and server, and how each side maps them to
//! and from the store's results.
use crate::error::KvsError;
use vstd::prelude::*;

verus! {

/// A client's request.
#[derive(Debug)]
pub enum Request {
    Get { key: String },
    Put { key: String, value: String },
    Remove { key: String },
}

/// The body of the server's answer: a value, or nothing, on success; a
/// message on failure.
#[derive(Debug)]
pub enum ResponseBody {
    Value(Option<String>),
    Failure(String),
}

/// The server's answer to one request.
#[derive(Debug)]
pub struct Response {
    pub body: ResponseBody,
}

/// Relies on the `Display` of `std::io::Error`: its message.
#[verifier::external_body]
fn io_error_text(e: &std::io::Error) -> (r: String) {
    e.to_string()
}

/// Relies on the `Display` of `serde_json::Error`: its message.
#[verifier::external_body]
fn json_error_text(e: &serde_json::Error) -> (r: String) {
    e.to_string()
}

/// `m` is the message of `e`. The message of a file, network or JSON
/// error is the one that error itself gives.
pub open spec fn is_message_of(e: KvsError, m: Seq<char>) -> bool {
    match e {
        KvsError::IoError(_) => true,
        KvsError::JSONSerializeError(_) => true,
        KvsError::Unknown => m == "unknown error"@,
        KvsError::RecordNotFound => m == "Key not found"@,
        KvsError::InvalidRecord => m == "invalid record"@,
        KvsError::Overflow => m == "offset or generation out of range"@,
        KvsError::FindFileError(s) => m == "find file error "@ + s@,
        KvsError::ClientGetError(s) => m == "get value error: "@ + s@,
        KvsError::ClientSetError(s) => m == "set key-value error: "@ + s@,
        KvsError::ClientRemoveError(s) => m == "remove value error: "@ + s@,
        KvsError::ServerError(s) => m == "server error: "@ + s@,
    }
}

/// The message of an error; for a missing key, `Key not found`.
pub fn error_message(e: &KvsError) -> (r: String)
    ensures
        is_message_of(*e, r@),
{
    proof {
        reveal_strlit("unknown error");
        reveal_strlit("Key not found");
        reveal_strlit("invalid record");
        reveal_strlit("offset or generation out of range");
    }
    match e {
        KvsError::IoError(x) => io_error_text(x),
        KvsError::JSONSerializeError(x) => json_error_text(x),
        KvsError::Unknown => "unknown error".to_string(),
        KvsError::RecordNotFound => "Key not found".to_string(),
        KvsError::InvalidRecord => "invalid record".to_string(),
        KvsError::Overflow => "offset or generation out of range".to_string(),
        KvsError::FindFileError(s) => "find file error ".to_string().concat(s.as_str()),
        KvsError::ClientGetError(s) => "get value error: ".to_string().concat(s.as_str()),
        KvsError::ClientSetError(s) => "set key-value error: ".to_string().concat(s.as_str()),
        KvsError::ClientRemoveError(s) => "remove value error: ".to_string().concat(s.as_str()),
        KvsError::ServerError(s) => "server error: ".to_string().concat(s.as_str()),
    }
}

/// The server's answer to a get: the value or its absence, or the error's
/// message.
pub fn get_response(r: Result<Option<String>, KvsError>) -> (resp: Response)
    ensures
        r matches Ok(v) ==> resp.body == ResponseBody::Value(v),
        r matches Err(e) ==> resp.body matches ResponseBody::Failure(m) && is_message_of(e, m@),
{
    match r {
        Ok(v) => Response { body: ResponseBody::Value(v) },
        Err(e) => Response { body: ResponseBody::Failure(error_message(&e)) },
    }
}

/// The server's answer to a set or a remove: nothing on success, else the
/// error's message (`Key not found` for a missing key).
pub fn update_response(r: Result<(), KvsError>) -> (resp: Response)
    ensures
        r is Ok ==> resp.body == ResponseBody::Value(None),
        r matches Err(e) ==> resp.body matches ResponseBody::Failure(m) && is_message_of(e, m@),
{
    match r {
        Ok(()) => Response { body: ResponseBody::Value(None) },
        Err(e) => Response { body: ResponseBody::Failure(error_message(&e)) },
    }
}

/// The client's result of a get from the server's answer.
pub fn get_result(body: ResponseBody) -> (r: Result<Option<String>, KvsError>)
    ensures
        body matches ResponseBody::Value(v) ==> r == Ok::<Option<String>, KvsError>(v),
        body matches ResponseBody::Failure(m) ==> r matches Err(KvsError::ClientGetError(m2))
            && m2 == m,
{
    match body {
        ResponseBody::Value(v) => Ok(v),
        ResponseBody::Failure(m) => Err(KvsError::ClientGetError(m)),
    }
}

/// The client's result of a set from the server's answer.
pub fn set_result(body: ResponseBody) -> (r: Result<(), KvsError>)
    ensures
        body is Value ==> r is Ok,
        body matches ResponseBody::Failure(m) ==> r matches Err(KvsError::ClientSetError(m2))
            && m2 == m,
{
    match body {
        ResponseBody::Value(_) => Ok(()),
        ResponseBody::Failure(m) => Err(KvsError::ClientSetError(m)),
    }
}

/// The client's result of a remove from the server's answer.
pub fn remove_result(body: ResponseBody) -> (r: Result<(), KvsError>)
    ensures
        body is Value ==> r is Ok,
        body matches ResponseBody::Failure(m) ==> r matches Err(KvsError::ClientRemoveError(m2))
            && m2 == m,
{
    match body {
        ResponseBody::Value(_) => Ok(()),
        ResponseBody::Failure(m) => Err(KvsError::ClientRemoveError(m)),
    }
}

} // verus!
