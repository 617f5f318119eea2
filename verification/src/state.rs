//! The capabilities of application state types.
//!
//! Application snapshot types are written by the library's users; the core
//! only requires that they can attach to a store, flush to bytes, and load
//! from a store and bytes, and that they route calls and queries. These
//! traits carry no contracts of their own: what an application does with a
//! call or a query is the application's business.

use vstd::prelude::*;

use crate::backing::BackingStore;
use crate::error::Error;

verus! {

/// A type whose value lives against a backing store.
pub trait State: Sized {
    /// Point the value's inner references at the given store.
    fn attach(&mut self, store: BackingStore) -> Result<(), Error>;

    /// Write the value out as bytes.
    fn flush(self) -> Result<Vec<u8>, Error>;

    /// Read a value back from its bytes, resolving nested collections
    /// against the given store.
    fn load(store: BackingStore, bytes: &[u8]) -> Result<Self, Error>;
}

/// A type that executes state-mutating calls.
pub trait Call {
    /// The call message this type consumes.
    type Call;

    /// Execute one call.
    fn call(&mut self, call: Self::Call) -> Result<(), Error>;
}

/// A type that answers queries.
pub trait Queryable {
    /// The query message this type consumes.
    type Query;

    /// Answer one query; the interesting outcome is whether it succeeds.
    fn query(&mut self, query: Self::Query) -> Result<(), Error>;
}

} // verus!
