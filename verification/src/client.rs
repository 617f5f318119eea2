//! The verified remote-query protocol.
//!
//! One query round trip turns an untrusted network response into a trusted,
//! typed application snapshot: check the remote status code, split the
//! payload into the 32-byte root hash and the proof bytes, have the
//! proof-verification oracle check the proof against the root, rebuild a
//! read-only store from the verified entries, and load the snapshot from the
//! root entry. The oracle and the network transport live outside this
//! library; everything on either side of them is verified here, for every
//! outcome they can produce.

use vstd::prelude::*;

use crate::backing::{entry_list_map, BackingStore, ProofStore};
use crate::error::{CallStage, Error, QueryError};
use crate::state::State;
use crate::store::{copy_bytes, StoreRead};

verus! {

/// Split a query response into the trusted root hash and the proof bytes.
///
/// A non-zero status code fails with the remote diagnostic log carried
/// verbatim; a payload too short to hold a 32-byte root hash is a distinct
/// malformed-root error.
pub fn parse_query_response(code: u32, log: String, value: &[u8]) -> (r: Result<
    ([u8; 32], Vec<u8>),
    Error,
>)
    ensures
        (if code != 0 {
            r == Err::<([u8; 32], Vec<u8>), Error>(Error::Query(QueryError::Status { code, log }))
        } else if value@.len() < 32 {
            r == Err::<([u8; 32], Vec<u8>), Error>(Error::Query(QueryError::MalformedRoot))
        } else {
            r matches Ok((root, proof)) && root@ == value@.take(32) && proof@ == value@.skip(32)
        }),
{
    if code != 0 {
        return Err(Error::Query(QueryError::Status { code, log }));
    }
    if value.len() < 32 {
        return Err(Error::Query(QueryError::MalformedRoot));
    }
    let mut root = [0u8; 32];
    let mut i: usize = 0;
    while i < 32
        invariant
            i <= 32,
            value@.len() >= 32,
            root@.len() == 32,
            forall|j: int| 0 <= j < i ==> root@[j] == value@[j],
        decreases 32 - i,
    {
        root[i] = value[i];
        i = i + 1;
    }
    let proof = copy_bytes(vstd::slice::slice_subrange(value, 32, value.len()));
    proof {
        assert(root@ =~= value@.take(32));
        assert(proof@ =~= value@.skip(32));
    }
    Ok((root, proof))
}

/// Turn the proof-verification oracle's outcome into a store.
///
/// A rejected proof propagates as a verification error and never yields a
/// store; an accepted proof's entries become a read-only proof-backed
/// store holding exactly those entries.
pub fn store_from_verification(outcome: Result<Vec<(Vec<u8>, Vec<u8>)>, String>) -> (r: Result<
    BackingStore,
    Error,
>)
    ensures
        (match outcome {
            Ok(entries) => r matches Ok(bs) && bs.contents() == entry_list_map(entries@) && (
            bs matches BackingStore::ProofMap(_)),
            Err(msg) => r == Err::<BackingStore, Error>(Error::Verification(msg)),
        }),
{
    match outcome {
        Ok(entries) => Ok(BackingStore::ProofMap(ProofStore::from_entries(entries))),
        Err(msg) => Err(Error::Verification(msg)),
    }
}

/// Load the typed application snapshot out of a verified store.
///
/// The snapshot's bytes live under the reserved empty key; a verified
/// mapping without that root entry is answered with the missing-root error.
/// The loaded snapshot is re-attached to the same store, so collections
/// nested inside it resolve against the verified mapping.
pub fn load_verified_snapshot<T: State>(store: BackingStore) -> (r: Result<T, Error>)
    ensures
        !store.contents().contains_key(Seq::<u8>::empty()) ==> r == Err::<T, Error>(
            Error::Query(QueryError::MissingRoot),
        ),
{
    let empty_key: Vec<u8> = Vec::new();
    let root_bytes = match store.get(empty_key.as_slice()) {
        Ok(Some(root_bytes)) => root_bytes,
        Ok(None) => {
            return Err(Error::Query(QueryError::MissingRoot));
        },
        Err(e) => {
            proof {
                assert(false);
            }
            return Err(e);
        },
    };
    let mut state = match T::load(store.clone(), root_bytes.as_slice()) {
        Ok(state) => state,
        Err(e) => {
            return Err(e);
        },
    };
    match state.attach(store) {
        Ok(_) => Ok(state),
        Err(e) => Err(e),
    }
}

/// Interpret a transaction commit response.
///
/// The two status codes are the pre-execution admission check and the
/// execution itself; a non-zero code at either stage fails with that
/// stage's log text carried verbatim.
pub fn interpret_commit_response(
    check_code: u32,
    check_log: String,
    deliver_code: u32,
    deliver_log: String,
) -> (r: Result<(), Error>)
    ensures
        (if check_code != 0 {
            r == Err::<(), Error>(Error::Call { stage: CallStage::Admission, log: check_log })
        } else if deliver_code != 0 {
            r == Err::<(), Error>(Error::Call { stage: CallStage::Delivery, log: deliver_log })
        } else {
            r matches Ok(_)
        }),
{
    if check_code != 0 {
        Err(Error::Call { stage: CallStage::Admission, log: check_log })
    } else if deliver_code != 0 {
        Err(Error::Call { stage: CallStage::Delivery, log: deliver_log })
    } else {
        Ok(())
    }
}

} // verus!
