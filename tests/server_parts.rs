use kvs::engine::{dispatch, KvsEngine};
use kvs::error::KvsError;
use kvs::protocol::{Request, ResponseBody};
use kvs::rayon_pool::RayonThreadPool;
use kvs::server::KvsServer;
use kvs::sled_engine::{removal_outcome, stored_value};
use kvs::thread_pool::ThreadPool;
use std::collections::BTreeMap;
use std::sync::mpsc;
use std::sync::{Arc, Mutex};

#[derive(Clone)]
struct MemEngine {
    map: Arc<Mutex<BTreeMap<String, String>>>,
}

impl KvsEngine for MemEngine {
    fn set(&self, key: String, value: String) -> Result<(), KvsError> {
        self.map.lock().unwrap().insert(key, value);
        Ok(())
    }

    fn get(&self, key: String) -> Result<Option<String>, KvsError> {
        Ok(self.map.lock().unwrap().get(&key).cloned())
    }

    fn remove(&self, key: String) -> Result<(), KvsError> {
        match self.map.lock().unwrap().remove(&key) {
            Some(_) => Ok(()),
            None => Err(KvsError::RecordNotFound),
        }
    }
}

#[test]
fn rayon_pool_runs_every_job() {
    let pool = RayonThreadPool::new(4).unwrap();
    let (tx, rx) = mpsc::channel();
    for i in 0..100u32 {
        let tx = tx.clone();
        pool.spawn(move || tx.send(i).unwrap());
    }
    let mut got: Vec<u32> = (0..100).map(|_| rx.recv().unwrap()).collect();
    got.sort();
    assert_eq!(got, (0..100).collect::<Vec<u32>>());
}

#[test]
fn dispatch_serves_requests_from_the_engine() {
    let engine = MemEngine { map: Arc::new(Mutex::new(BTreeMap::new())) };
    let pool = RayonThreadPool::new(1).unwrap();
    let server = KvsServer::new(engine, pool);
    let e = server.engine_ref();
    let r = dispatch(e, Request::Put { key: "k".to_string(), value: "v".to_string() });
    assert!(matches!(r.body, ResponseBody::Value(None)));
    match dispatch(e, Request::Get { key: "k".to_string() }).body {
        ResponseBody::Value(Some(v)) => assert_eq!(v, "v"),
        other => panic!("unexpected {:?}", other),
    }
    assert!(matches!(dispatch(e, Request::Remove { key: "k".to_string() }).body, ResponseBody::Value(None)));
    match dispatch(e, Request::Remove { key: "k".to_string() }).body {
        ResponseBody::Failure(m) => assert_eq!(m, "Key not found"),
        other => panic!("unexpected {:?}", other),
    }
    assert!(matches!(dispatch(e, Request::Get { key: "k".to_string() }).body, ResponseBody::Value(None)));
}

#[test]
fn rayon_pool_survives_a_panicking_job() {
    let pool = RayonThreadPool::new(2).unwrap();
    pool.spawn(|| panic!("job failure"));
    let (tx, rx) = mpsc::channel();
    for i in 0..10u32 {
        let tx = tx.clone();
        pool.spawn(move || tx.send(i).unwrap());
    }
    let mut got: Vec<u32> = (0..10).map(|_| rx.recv().unwrap()).collect();
    got.sort();
    assert_eq!(got, (0..10).collect::<Vec<u32>>());
}

#[test]
fn sled_answers_map_to_results() {
    assert_eq!(stored_value(None).unwrap(), None);
    assert_eq!(stored_value(Some(b"v".to_vec())).unwrap(), Some("v".to_string()));
    assert!(matches!(stored_value(Some(vec![0xff])), Err(KvsError::ServerError(_))));
    assert!(removal_outcome(&Some(b"v".to_vec())).is_ok());
    assert!(matches!(removal_outcome(&None), Err(KvsError::RecordNotFound)));
}
