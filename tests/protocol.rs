use std::sync::{Arc, Mutex};

use kvs::{
    next_step, Step, get_response, handle_request, remove_response, select_engine, set_response, stored_value,
    removal_outcome, Command, Decoded, Engine, GetResponse, KvsEngine, KvsError, LogIndex,
    RemoveResponse, Request, Response, SetResponse,
};

#[test]
fn requests_round_trip() {
    let reqs = vec![
        Request::Get { key: "a".to_string() },
        Request::Put { key: "k€y".to_string(), value: "".to_string() },
        Request::Remove { key: "".to_string() },
    ];
    for r in reqs {
        let mut bytes = r.encode();
        let n = bytes.len();
        bytes.extend_from_slice(&[9, 9, 9]);
        assert_eq!(Request::decode(&bytes), Decoded::Done(r.clone(), n));
        assert_eq!(Request::decode(&bytes[..n - 1]), Decoded::Incomplete);
    }
}

#[test]
fn responses_round_trip() {
    for r in vec![
        GetResponse::Success(None),
        GetResponse::Success(Some("1".to_string())),
        GetResponse::Failure("Key not found".to_string()),
    ] {
        let bytes = r.encode();
        assert_eq!(GetResponse::decode(&bytes), Decoded::Done(r.clone(), bytes.len()));
    }
    for r in vec![SetResponse::Success, SetResponse::Failure("no".to_string())] {
        let bytes = r.encode();
        assert_eq!(SetResponse::decode(&bytes), Decoded::Done(r.clone(), bytes.len()));
    }
    for r in vec![RemoveResponse::Success, RemoveResponse::Failure("no".to_string())] {
        let bytes = r.encode();
        assert_eq!(RemoveResponse::decode(&bytes), Decoded::Done(r.clone(), bytes.len()));
    }
}

#[test]
fn unknown_tags_are_invalid() {
    assert_eq!(Request::decode(&[3]), Decoded::Invalid);
    assert_eq!(GetResponse::decode(&[3]), Decoded::Invalid);
    assert_eq!(SetResponse::decode(&[2]), Decoded::Invalid);
    assert_eq!(Request::decode(&[]), Decoded::Incomplete);
}

#[test]
fn client_side_results() {
    assert_eq!(GetResponse::Success(Some("v".to_string())).into_result().unwrap(), Some("v".to_string()));
    match GetResponse::Failure("boom".to_string()).into_result() {
        Err(KvsError::StringError(m)) => assert_eq!(m, "boom"),
        other => panic!("unexpected {:?}", other),
    }
    assert!(SetResponse::Success.into_result().is_ok());
    assert!(matches!(RemoveResponse::Failure("x".to_string()).into_result(), Err(KvsError::StringError(_))));
}

#[test]
fn server_side_responses() {
    assert_eq!(get_response(Ok(None)), GetResponse::Success(None));
    assert_eq!(
        get_response(Err(KvsError::KeyNotFound)),
        GetResponse::Failure("Key not found".to_string())
    );
    assert_eq!(set_response(Ok(())), SetResponse::Success);
    assert_eq!(
        remove_response(Err(KvsError::KeyNotFound)),
        RemoveResponse::Failure("Key not found".to_string())
    );
    assert_eq!(KvsError::EngineMismatch.message(), "Engine mismatch");
    assert_eq!(KvsError::StringError("x y".to_string()).message(), "x y");
}

/// An engine over the library's index, with its log in memory.
#[derive(Clone)]
struct MemEngine(Arc<Mutex<(Vec<u8>, LogIndex)>>);

impl KvsEngine for MemEngine {
    fn set(&self, key: String, value: String) -> Result<(), KvsError> {
        let mut g = self.0.lock().unwrap();
        let cmd = Command::Put { key, value };
        g.0.extend_from_slice(&cmd.encode());
        g.1.record(&cmd);
        Ok(())
    }

    fn get(&self, key: String) -> Result<Option<String>, KvsError> {
        let g = self.0.lock().unwrap();
        match g.1.lookup(&key) {
            None => Ok(None),
            Some(p) => {
                let rec = &g.0[p.offset as usize..(p.offset + p.len) as usize];
                LogIndex::read_value(&key, rec).map(Some)
            }
        }
    }

    fn remove(&self, key: String) -> Result<(), KvsError> {
        let mut g = self.0.lock().unwrap();
        let bytes = g.1.remove_record(&key)?;
        g.0.extend_from_slice(&bytes);
        g.1.record(&Command::Remove { key });
        Ok(())
    }
}

#[test]
fn set_then_get_on_one_connection() {
    let engine = MemEngine(Arc::new(Mutex::new((Vec::new(), LogIndex::new()))));
    let mut stream = Request::Put { key: "a".to_string(), value: "1".to_string() }.encode();
    stream.extend_from_slice(&Request::Get { key: "a".to_string() }.encode());
    let mut answers = Vec::new();
    let mut pos = 0;
    while let Decoded::Done(req, n) = Request::decode(&stream[pos..]) {
        pos += n;
        answers.push(handle_request(&engine, req));
    }
    assert_eq!(pos, stream.len());
    assert_eq!(answers[0], Response::Put(SetResponse::Success));
    assert_eq!(answers[1], Response::Get(GetResponse::Success(Some("1".to_string()))));
    let wire = answers[1].encode();
    assert_eq!(
        GetResponse::decode(&wire),
        Decoded::Done(GetResponse::Success(Some("1".to_string())), wire.len())
    );
    let missing = handle_request(&engine, Request::Remove { key: "zz".to_string() });
    assert_eq!(missing, Response::Remove(RemoveResponse::Failure("Key not found".to_string())));
}

#[test]
fn engine_names() {
    assert!(matches!(Engine::from_str("kvs"), Ok(Engine::Kvs)));
    assert!(matches!(Engine::from_str("sled"), Ok(Engine::Sled)));
    assert!(matches!(Engine::from_str("Sled"), Err(KvsError::EngineNotFound)));
    assert!(matches!(Engine::from_str(""), Err(KvsError::EngineNotFound)));
}

#[test]
fn engine_mismatch_refuses_to_start() {
    assert!(matches!(select_engine("kvs", Some("sled")), Err(KvsError::EngineMismatch)));
    assert!(matches!(select_engine("sled", Some("kvs")), Err(KvsError::EngineMismatch)));
    assert!(matches!(select_engine("kvs", Some("kvs")), Ok(Engine::Kvs)));
    assert!(matches!(select_engine("sled", None), Ok(Engine::Sled)));
    assert!(matches!(select_engine("other", None), Err(KvsError::EngineNotFound)));
    assert!(matches!(select_engine("kvs", Some("junk")), Err(KvsError::EngineNotFound)));
}

#[test]
fn stored_bytes_become_values() {
    assert_eq!(stored_value(None).unwrap(), None);
    assert_eq!(stored_value(Some("héllo".as_bytes().to_vec())).unwrap(), Some("héllo".to_string()));
    assert!(matches!(stored_value(Some(vec![0xc3])), Err(KvsError::Utf8(_))));
    assert!(matches!(removal_outcome(None), Err(KvsError::KeyNotFound)));
    assert!(removal_outcome(Some(vec![1])).is_ok());
}

#[test]
fn connection_steps() {
    let engine = MemEngine(Arc::new(Mutex::new((Vec::new(), LogIndex::new()))));
    let bytes = Request::Put { key: "a".to_string(), value: "1".to_string() }.encode();
    assert_eq!(next_step(&engine, &bytes[..3]), Step::ReadMore);
    assert_eq!(next_step(&engine, &[]), Step::ReadMore);
    assert_eq!(next_step(&engine, &[7]), Step::Malformed);
    assert_eq!(
        next_step(&engine, &bytes),
        Step::Answer(Response::Put(SetResponse::Success), bytes.len())
    );
    let get = Request::Get { key: "a".to_string() }.encode();
    assert_eq!(
        next_step(&engine, &get),
        Step::Answer(Response::Get(GetResponse::Success(Some("1".to_string()))), get.len())
    );
}
