//! The closed set of concrete backing stores.
//!
//! [`BackingStore`] erases the concrete storage implementation behind one
//! value type: a mutable in-memory store, a read-only store reconstructed
//! from a verified proof, or the read-only empty store. Mutating a read-only
//! variant is a programmer error, not a recoverable outcome: `put` and
//! `delete` demand a writable variant in their `requires`, so verified code
//! can never reach the read-only arms; an unverified caller that does so
//! anyway is answered with an error, never with silent acceptance.

use vstd::prelude::*;

use crate::error::Error;
use crate::store::{MapStore, NullStore, StoreNext, StoreRead, StoreWrite};

verus! {

/// The mapping described by a list of entries, later entries overriding
/// earlier ones.
pub open spec fn entry_list_map(s: Seq<(Vec<u8>, Vec<u8>)>) -> Map<Seq<u8>, Seq<u8>>
    decreases s.len(),
{
    if s.len() == 0 {
        Map::empty()
    } else {
        entry_list_map(s.drop_last()).insert(s.last().0@, s.last().1@)
    }
}

/// A read-only store over an already-verified key/value mapping.
#[derive(Debug)]
pub struct ProofStore {
    store: MapStore,
}

impl ProofStore {
    /// Build the read-only store holding exactly the given entries.
    pub fn from_entries(entries: Vec<(Vec<u8>, Vec<u8>)>) -> (r: Self)
        ensures
            r.contents() == entry_list_map(entries@),
    {
        let mut store = MapStore::new();
        let n = entries.len();
        let mut i: usize = 0;
        while i < n
            invariant
                n == entries.len(),
                i <= n,
                store.writable(),
                store.contents() == entry_list_map(entries@.take(i as int)),
            decreases n - i,
        {
            let key = entries[i].0.clone();
            let value = entries[i].1.clone();
            let _ = store.put(key, value);
            proof {
                let pre = entries@.take(i as int);
                let post = entries@.take(i + 1);
                assert(post.drop_last() =~= pre);
                assert(post.last() == entries@[i as int]);
            }
            i = i + 1;
        }
        proof {
            assert(entries@.take(n as int) =~= entries@);
        }
        ProofStore { store }
    }
}

impl StoreRead for ProofStore {
    closed spec fn contents(&self) -> Map<Seq<u8>, Seq<u8>> {
        self.store.contents()
    }

    fn get(&self, key: &[u8]) -> (r: Result<Option<Vec<u8>>, Error>) {
        self.store.get(key)
    }
}

impl StoreNext for ProofStore {
    fn get_next(&self, key: &[u8]) -> (r: Result<Option<(Vec<u8>, Vec<u8>)>, Error>) {
        self.store.get_next(key)
    }
}

impl Clone for ProofStore {
    /// A clone holds the same mapping.
    fn clone(&self) -> (r: Self)
        ensures
            r.contents() == self.contents(),
    {
        ProofStore { store: self.store.clone() }
    }
}

/// The closed choice of concrete store implementations.
#[derive(Debug)]
pub enum BackingStore {
    /// A mutable in-memory store.
    MapStore(MapStore),
    /// A read-only store reconstructed from a verified proof.
    ProofMap(ProofStore),
    /// The read-only empty store.
    Null(NullStore),
}

impl Default for BackingStore {
    fn default() -> (r: Self)
        ensures
            r matches BackingStore::Null(_),
    {
        BackingStore::Null(NullStore)
    }
}

impl BackingStore {
    /// Whether this variant accepts mutation, at run time.
    pub fn is_writable(&self) -> (r: bool)
        ensures
            r == self.writable(),
    {
        match self {
            BackingStore::MapStore(_) => true,
            BackingStore::ProofMap(_) => false,
            BackingStore::Null(_) => false,
        }
    }

    /// Downcast to the concrete in-memory store; any other variant is a
    /// downcast error.
    pub fn into_map_store(self) -> (r: Result<MapStore, Error>)
        ensures
            (match self {
                BackingStore::MapStore(m) => r == Ok::<MapStore, Error>(m),
                _ => r matches Err(Error::Downcast(_)),
            }),
    {
        match self {
            BackingStore::MapStore(store) => Ok(store),
            _ => Err(
                Error::Downcast("failed to downcast backing store to map store".to_owned()),
            ),
        }
    }
}

impl Clone for BackingStore {
    /// A clone holds the same mapping and keeps the variant, so it is
    /// writable exactly when the original is.
    fn clone(&self) -> (r: Self)
        ensures
            r.contents() == self.contents(),
            r.writable() == self.writable(),
    {
        match self {
            BackingStore::MapStore(s) => BackingStore::MapStore(s.clone()),
            BackingStore::ProofMap(s) => BackingStore::ProofMap(s.clone()),
            BackingStore::Null(_) => BackingStore::Null(NullStore),
        }
    }
}

impl StoreRead for BackingStore {
    open spec fn contents(&self) -> Map<Seq<u8>, Seq<u8>> {
        match self {
            BackingStore::MapStore(s) => s.contents(),
            BackingStore::ProofMap(s) => s.contents(),
            BackingStore::Null(s) => s.contents(),
        }
    }

    fn get(&self, key: &[u8]) -> (r: Result<Option<Vec<u8>>, Error>) {
        match self {
            BackingStore::MapStore(s) => s.get(key),
            BackingStore::ProofMap(s) => s.get(key),
            BackingStore::Null(s) => s.get(key),
        }
    }

}

impl StoreNext for BackingStore {
    fn get_next(&self, key: &[u8]) -> (r: Result<Option<(Vec<u8>, Vec<u8>)>, Error>) {
        match self {
            BackingStore::MapStore(s) => s.get_next(key),
            BackingStore::ProofMap(s) => s.get_next(key),
            BackingStore::Null(s) => s.get_next(key),
        }
    }
}

impl StoreWrite for BackingStore {
    open spec fn writable(&self) -> bool {
        self matches BackingStore::MapStore(_)
    }

    fn put(&mut self, key: Vec<u8>, value: Vec<u8>) -> (r: Result<(), Error>) {
        match self {
            BackingStore::MapStore(s) => s.put(key, value),
            // Unreachable: `put` demands a writable variant.
            _ => Err(Error::Store("cannot write to a read-only store".to_owned())),
        }
    }

    fn delete(&mut self, key: &[u8]) -> (r: Result<(), Error>) {
        match self {
            BackingStore::MapStore(s) => s.delete(key),
            // Unreachable: `delete` demands a writable variant.
            _ => Err(Error::Store("cannot write to a read-only store".to_owned())),
        }
    }
}

} // verus!
