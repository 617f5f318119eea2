use mstate::backing::BackingStore;
use mstate::client::{
    interpret_commit_response, load_verified_snapshot, parse_query_response,
    store_from_verification,
};
use mstate::codec::Codec;
use mstate::error::{CallStage, Error, QueryError};
use mstate::state::State;
use mstate::store::{StoreRead, StoreWrite};

#[test]
fn failed_status_carries_the_remote_log() {
    let err = parse_query_response(7, "remote node fell over".to_string(), &[]).unwrap_err();
    match &err {
        Error::Query(QueryError::Status { code, log }) => {
            assert_eq!(*code, 7);
            assert_eq!(log, "remote node fell over");
        }
        other => panic!("unexpected error: {:?}", other),
    }
    assert_eq!(err.message(), "remote node fell over");
}

#[test]
fn short_payload_is_a_malformed_root() {
    let err = parse_query_response(0, String::new(), &[1, 2, 3]).unwrap_err();
    assert_eq!(err, Error::Query(QueryError::MalformedRoot));

    let err = parse_query_response(0, String::new(), &[0; 31]).unwrap_err();
    assert_eq!(err, Error::Query(QueryError::MalformedRoot));
}

#[test]
fn payload_splits_into_root_and_proof() {
    let mut value = vec![9u8; 32];
    value.extend([1, 2, 3]);
    let (root, proof) = parse_query_response(0, String::new(), &value).unwrap();
    assert_eq!(root, [9u8; 32]);
    assert_eq!(proof, vec![1, 2, 3]);
}

#[test]
fn rejected_proof_never_yields_a_store() {
    let outcome = Err("proof hash mismatch".to_string());
    let err = store_from_verification(outcome).unwrap_err();
    assert_eq!(err, Error::Verification("proof hash mismatch".to_string()));
}

#[test]
fn verified_entries_become_a_read_only_store() {
    let entries = vec![
        (b"a".to_vec(), vec![1]),
        (b"b".to_vec(), vec![2]),
    ];
    let store = store_from_verification(Ok(entries)).unwrap();
    assert_eq!(store.get(b"a").unwrap(), Some(vec![1]));
    assert_eq!(store.get(b"b").unwrap(), Some(vec![2]));
    assert_eq!(store.get(b"c").unwrap(), None);
    assert!(!store.is_writable());
}

#[test]
fn writes_to_read_only_variants_are_refused() {
    let mut store = store_from_verification(Ok(vec![(b"a".to_vec(), vec![1])])).unwrap();
    assert!(store.put(b"x".to_vec(), vec![9]).is_err());
    assert!(store.delete(b"a").is_err());
    // nothing was silently accepted or corrupted
    assert_eq!(store.get(b"a").unwrap(), Some(vec![1]));
    assert_eq!(store.get(b"x").unwrap(), None);

    let mut null_store = BackingStore::default();
    assert!(!null_store.is_writable());
    assert!(null_store.put(b"x".to_vec(), vec![9]).is_err());
    assert!(null_store.delete(b"x").is_err());
    assert_eq!(null_store.get(b"x").unwrap(), None);
}

#[derive(Debug, PartialEq)]
struct Snapshot {
    total: u64,
}

impl State for Snapshot {
    fn attach(&mut self, _store: BackingStore) -> Result<(), Error> {
        Ok(())
    }

    fn flush(self) -> Result<Vec<u8>, Error> {
        Ok(self.total.encode())
    }

    fn load(_store: BackingStore, bytes: &[u8]) -> Result<Self, Error> {
        Ok(Snapshot { total: u64::decode(bytes)? })
    }
}

#[test]
fn snapshot_loads_from_the_root_entry() {
    let entries = vec![(Vec::new(), 42u64.encode())];
    let store = store_from_verification(Ok(entries)).unwrap();
    let snapshot: Snapshot = load_verified_snapshot(store).unwrap();
    assert_eq!(snapshot, Snapshot { total: 42 });
}

#[test]
fn missing_root_entry_is_an_error() {
    let entries = vec![(b"not-root".to_vec(), vec![1])];
    let store = store_from_verification(Ok(entries)).unwrap();
    let err = load_verified_snapshot::<Snapshot>(store).unwrap_err();
    assert_eq!(err, Error::Query(QueryError::MissingRoot));
}

#[test]
fn commit_admission_failure_carries_the_log() {
    let err = interpret_commit_response(
        1,
        "checktx says no".to_string(),
        0,
        String::new(),
    )
    .unwrap_err();
    assert_eq!(
        err,
        Error::Call { stage: CallStage::Admission, log: "checktx says no".to_string() }
    );
    assert_eq!(err.message(), "checktx says no");
}

#[test]
fn commit_delivery_failure_carries_the_log() {
    let err = interpret_commit_response(
        0,
        String::new(),
        5,
        "delivertx says no".to_string(),
    )
    .unwrap_err();
    assert_eq!(
        err,
        Error::Call { stage: CallStage::Delivery, log: "delivertx says no".to_string() }
    );
}

#[test]
fn commit_success_is_ok() {
    assert!(interpret_commit_response(0, String::new(), 0, String::new()).is_ok());
}
