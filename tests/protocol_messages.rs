use kvs::error::KvsError;
use kvs::protocol::{
    error_message, get_response, get_result, remove_result, set_result, update_response,
    ResponseBody,
};

#[test]
fn missing_key_message() {
    assert_eq!(error_message(&KvsError::RecordNotFound), "Key not found");
    assert_eq!(
        error_message(&KvsError::ServerError("disk".to_string())),
        "server error: disk"
    );
}

#[test]
fn get_answers() {
    match get_response(Ok(Some("v".to_string()))).body {
        ResponseBody::Value(Some(v)) => assert_eq!(v, "v"),
        other => panic!("unexpected {:?}", other),
    }
    assert!(matches!(get_response(Ok(None)).body, ResponseBody::Value(None)));
}

#[test]
fn remove_of_missing_key_answers_key_not_found() {
    match update_response(Err(KvsError::RecordNotFound)).body {
        ResponseBody::Failure(m) => assert_eq!(m, "Key not found"),
        other => panic!("unexpected {:?}", other),
    }
    assert!(matches!(update_response(Ok(())).body, ResponseBody::Value(None)));
}

#[test]
fn client_results() {
    assert_eq!(
        get_result(ResponseBody::Value(Some("v".to_string()))).unwrap(),
        Some("v".to_string())
    );
    match get_result(ResponseBody::Failure("m".to_string())) {
        Err(KvsError::ClientGetError(m)) => assert_eq!(m, "m"),
        other => panic!("unexpected {:?}", other),
    }
    assert!(set_result(ResponseBody::Value(None)).is_ok());
    assert!(matches!(
        set_result(ResponseBody::Failure("x".to_string())),
        Err(KvsError::ClientSetError(_))
    ));
    match remove_result(ResponseBody::Failure("Key not found".to_string())) {
        Err(KvsError::ClientRemoveError(m)) => assert_eq!(m, "Key not found"),
        other => panic!("unexpected {:?}", other),
    }
}
