//! Typed collections of composite records.
//!
//! An [`Entry`] type is a record that splits losslessly into a (possibly
//! composite) key and the remaining value; an [`EntryMap`] stores such
//! records in a [`KvMap`], indexing each by the key half alone. The
//! composite key's encoding is the concatenation of its fields' encodings in
//! declaration order, so iteration yields records in lexicographic order of
//! the key tuple.

use vstd::prelude::*;

use crate::codec::Codec;
use crate::error::Error;
use crate::kv;
use crate::kv::{well_typed, Bound, KvMap};
use crate::lex::{lex_le, lex_lt};
use crate::store::{MapStore, StoreNext, StoreRead, StoreWrite};

verus! {

/// A record type that can be split into a `(Key, Value)` pair and
/// reconstructed from it.
pub trait Entry: Sized {
    /// The key half of the record; composite keys are tuples.
    type Key: Codec;

    /// The remaining value half of the record.
    type Value: Codec;

    /// The key half, as a specification.
    spec fn key_spec(&self) -> Self::Key;

    /// The value half, as a specification.
    spec fn value_spec(&self) -> Self::Value;

    /// The record reassembled from a pair, as a specification.
    spec fn of_entry(kv: (Self::Key, Self::Value)) -> Self;

    /// Splitting and reassembling gives the record back.
    proof fn lemma_entry_round_trip(&self)
        ensures
            Self::of_entry((self.key_spec(), self.value_spec())) == *self,
    ;

    /// Reassembling and splitting gives the pair back.
    proof fn lemma_of_entry_round_trip(kv: (Self::Key, Self::Value))
        ensures
            Self::of_entry(kv).key_spec() == kv.0,
            Self::of_entry(kv).value_spec() == kv.1,
    ;

    /// Split the record into its key and value halves.
    fn into_entry(self) -> (r: (Self::Key, Self::Value))
        ensures
            r == (self.key_spec(), self.value_spec()),
    ;

    /// Reassemble the record from its key and value halves.
    fn from_entry(entry: (Self::Key, Self::Value)) -> (r: Self)
        ensures
            r == Self::of_entry(entry),
    ;
}

/// A typed collection of records, each stored under the encoding of its key
/// half.
pub struct EntryMap<T: Entry, S> {
    map: KvMap<S, T::Key, T::Value>,
}

impl<T: Entry> EntryMap<T, crate::backing::BackingStore> {
    /// An empty collection over a fresh in-memory store.
    pub fn new() -> (r: Self)
        ensures
            r.contents() == Map::<Seq<u8>, Seq<u8>>::empty(),
            r.writable(),
    {
        let store = crate::backing::BackingStore::MapStore(MapStore::new());
        match Self::with_store(store) {
            Ok(map) => map,
            Err(_) => {
                // unreachable: wrapping a store never fails
                proof {
                    assert(false);
                }
                Self::with_store(crate::backing::BackingStore::MapStore(MapStore::new())).unwrap()
            },
        }
    }
}

impl<T: Entry, S: StoreWrite + StoreNext> EntryMap<T, S> {
    /// The raw mapping of the underlying store.
    pub closed spec fn contents(&self) -> Map<Seq<u8>, Seq<u8>> {
        self.map.contents()
    }

    /// Whether the underlying store accepts mutation.
    pub closed spec fn writable(&self) -> bool {
        self.map.writable()
    }

    /// Take ownership of a store and give it this typed view.
    pub fn with_store(store: S) -> (r: Result<Self, Error>)
        ensures
            r matches Ok(m) && m.contents() == store.contents() && m.writable()
                == store.writable(),
    {
        match KvMap::wrap_store(store) {
            Ok(map) => Ok(EntryMap { map }),
            Err(e) => Err(e),
        }
    }

    /// Give the store back.
    pub fn into_store(self) -> (r: S)
        ensures
            r.contents() == self.contents(),
            r.writable() == self.writable(),
    {
        self.map.into_store()
    }

    /// Store the record under its key half, overwriting any record with the
    /// same key.
    pub fn insert(&mut self, entry: T) -> (r: Result<(), Error>)
        requires
            old(self).writable(),
        ensures
            final(self).writable(),
            r matches Ok(_),
            final(self).contents() == old(self).contents().insert(
                entry.key_spec().enc(),
                entry.value_spec().enc(),
            ),
    {
        let (key, value) = entry.into_entry();
        self.map.insert(key, value)
    }

    /// Remove the record with this record's key half; the value half is
    /// ignored, and removing an absent key is not an error.
    pub fn delete(&mut self, entry: T) -> (r: Result<(), Error>)
        requires
            old(self).writable(),
        ensures
            final(self).writable(),
            (if entry.key_spec().enc().len() <= 256 {
                r matches Ok(_) && final(self).contents() == old(self).contents().remove(
                    entry.key_spec().enc(),
                )
            } else {
                r == Err::<(), Error>(Error::Encode) && final(self).contents() == old(
                    self,
                ).contents()
            }),
    {
        let (key, _) = entry.into_entry();
        self.map.delete(&key)
    }

    /// Whether a record is stored under this record's key half, whatever
    /// value it carries.
    pub fn contains_entry_key(&self, entry: T) -> (r: Result<bool, Error>)
        ensures
            (if entry.key_spec().enc().len() <= 256 {
                r == Ok::<bool, Error>(self.contents().contains_key(entry.key_spec().enc()))
            } else {
                r == Err::<bool, Error>(Error::Encode)
            }),
    {
        let (key, _) = entry.into_entry();
        self.map.contains_key(&key)
    }

    /// Whether this exact record is stored: its key half is present and the
    /// stored value equals its value half.
    pub fn contains(&self, entry: T) -> (r: Result<bool, Error>)
        ensures
            (if entry.key_spec().enc().len() > 256 {
                r == Err::<bool, Error>(Error::Encode)
            } else if !self.contents().contains_key(entry.key_spec().enc()) {
                r == Ok::<bool, Error>(false)
            } else {
                match <T::Value as Codec>::dec(self.contents()[entry.key_spec().enc()]) {
                    Some(_) => r == Ok::<bool, Error>(
                        self.contents()[entry.key_spec().enc()] == entry.value_spec().enc(),
                    ),
                    None => r == Err::<bool, Error>(Error::Decode),
                }
            }),
    {
        let (key, value) = entry.into_entry();
        let stored = match self.map.get(&key) {
            Ok(o) => o,
            Err(e) => {
                return Err(e);
            },
        };
        match stored {
            None => Ok(false),
            Some(stored_value) => {
                let stored_bytes = stored_value.encode();
                let value_bytes = value.encode();
                proof {
                    <T::Value as Codec>::lemma_dec_enc(self.contents()[entry.key_spec().enc()]);
                }
                Ok(crate::lex::lex_cmp(stored_bytes.as_slice(), value_bytes.as_slice()) == 0)
            },
        }
    }

    /// Iterate over all records in ascending key order.
    pub fn iter<'a>(&'a self) -> (r: Result<Iter<'a, T, S>, Error>)
        ensures
            r matches Ok(it) && it.src() == self.contents() && (forall|kb: Seq<u8>| #[trigger]
                it.in_range(kb)),
    {
        Ok(Iter { inner: self.map.iter() })
    }

    /// Iterate over the records whose keys lie inside the given bounds, in
    /// ascending key order.
    pub fn range<'a>(&'a self, start: Bound<T::Key>, end: Bound<T::Key>) -> (r: Result<
        Iter<'a, T, S>,
        Error,
    >)
        ensures
            r matches Ok(it) && it.src() == self.contents() && (forall|kb: Seq<u8>| #[trigger]
                it.in_range(kb) <==> ((match start {
                    Bound::Unbounded => true,
                    Bound::Included(s) => lex_le(s.enc(), kb),
                    Bound::Excluded(s) => lex_lt(s.enc(), kb),
                }) && (match end {
                    Bound::Unbounded => true,
                    Bound::Included(e) => lex_le(kb, e.enc()),
                    Bound::Excluded(e) => lex_lt(kb, e.enc()),
                }))),
    {
        let start_ref: Bound<&T::Key> = match &start {
            Bound::Unbounded => Bound::Unbounded,
            Bound::Included(s) => Bound::Included(s),
            Bound::Excluded(s) => Bound::Excluded(s),
        };
        let end_ref: Bound<&T::Key> = match &end {
            Bound::Unbounded => Bound::Unbounded,
            Bound::Included(e) => Bound::Included(e),
            Bound::Excluded(e) => Bound::Excluded(e),
        };
        Ok(Iter { inner: self.map.range(start_ref, end_ref) })
    }
}

/// A lazy, one-pass walk of a collection's records in ascending key order.
pub struct Iter<'a, T: Entry, S: StoreNext> {
    inner: kv::Iter<'a, S, T::Key, T::Value>,
}

impl<'a, T: Entry, S: StoreNext> Iter<'a, T, S> {
    /// The mapping this iterator walks.
    pub closed spec fn src(&self) -> Map<Seq<u8>, Seq<u8>> {
        self.inner.src()
    }

    /// Whether the key bytes `kb` are still ahead of this iterator.
    pub closed spec fn in_range(&self, kb: Seq<u8>) -> bool {
        self.inner.in_range(kb)
    }

    /// The record with the smallest key still ahead, if any.
    pub fn next(&mut self) -> (r: Option<T>)
        requires
            well_typed::<T::Key, T::Value>(old(self).src()),
        ensures
            final(self).src() == old(self).src(),
            (match r {
                None => (forall|kb: Seq<u8>| #[trigger]
                    old(self).src().contains_key(kb) ==> !old(self).in_range(kb)) && forall|
                    kb: Seq<u8>,
                | !#[trigger] final(self).in_range(kb),
                Some(t) => {
                    &&& old(self).src().contains_key(t.key_spec().enc())
                    &&& old(self).in_range(t.key_spec().enc())
                    &&& <T::Value as Codec>::dec(old(self).src()[t.key_spec().enc()]) == Some(
                        t.value_spec(),
                    )
                    &&& forall|kb: Seq<u8>| #[trigger]
                        old(self).src().contains_key(kb) && old(self).in_range(kb) ==> lex_le(
                            t.key_spec().enc(),
                            kb,
                        )
                    &&& forall|kb: Seq<u8>| #[trigger]
                        final(self).in_range(kb) <==> (old(self).in_range(kb) && lex_lt(
                            t.key_spec().enc(),
                            kb,
                        ))
                },
            }),
    {
        match self.inner.next() {
            None => None,
            Some((key, value)) => {
                proof {
                    T::lemma_of_entry_round_trip((key, value));
                }
                Some(T::from_entry((key, value)))
            },
        }
    }
}

} // verus!
