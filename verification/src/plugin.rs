//! The query plugin: routing queries, calls and raw key reads.
//!
//! [`QueryPlugin`] wraps an application state and serves [`Query`] messages
//! against it: nested queries and calls go to the inner state, and raw key
//! reads go straight to the plugin's own handle on the backing store.

use vstd::prelude::*;

use crate::backing::BackingStore;
use crate::error::Error;
use crate::state::{Call, Queryable, State};
use crate::store::StoreRead;

verus! {

/// A query against a plugin-wrapped state: a query or call routed to the
/// inner state, or a raw read of one store key.
pub enum Query<T: Queryable + Call> {
    /// A query answered by the inner state.
    Query(T::Query),
    /// A call executed against the inner state.
    Call(T::Call),
    /// A raw read of one key of the backing store.
    RawKey(Vec<u8>),
}

/// Wraps an application state and serves queries against it.
pub struct QueryPlugin<T> {
    store: BackingStore,
    /// The wrapped application state.
    pub inner: T,
}

impl<T: State> State for QueryPlugin<T> {
    fn attach(&mut self, store: BackingStore) -> (r: Result<(), Error>) {
        self.store = store.clone();
        self.inner.attach(store)
    }

    fn flush(self) -> (r: Result<Vec<u8>, Error>) {
        self.inner.flush()
    }

    fn load(store: BackingStore, bytes: &[u8]) -> (r: Result<Self, Error>) {
        let inner = match T::load(store.clone(), bytes) {
            Ok(inner) => inner,
            Err(e) => {
                return Err(e);
            },
        };
        Ok(QueryPlugin { store, inner })
    }
}

impl<T: Call> Call for QueryPlugin<T> {
    type Call = T::Call;

    fn call(&mut self, call: Self::Call) -> (r: Result<(), Error>) {
        self.inner.call(call)
    }
}

impl<T: Queryable + Call> Queryable for QueryPlugin<T> {
    type Query = Query<T>;

    fn query(&mut self, query: Self::Query) -> (r: Result<(), Error>) {
        match query {
            Query::Query(q) => self.inner.query(q),
            Query::Call(call) => self.inner.call(call),
            Query::RawKey(key) => {
                match self.store.get(key.as_slice()) {
                    Ok(_) => Ok(()),
                    Err(e) => Err(e),
                }
            },
        }
    }
}

} // verus!
