//! A typed, ordered dictionary over a store.
//!
//! [`KvMap`] gives typed access atop a raw byte store: keys and values are
//! carried through their canonical encodings, lookups go through a fixed
//! 256-byte key buffer, and iteration walks the store's successor queries in
//! ascending byte order — which, for [`KeyCodec`] keys, is the keys' own
//! order.

use vstd::prelude::*;

use crate::codec::Codec;
use crate::error::Error;
use crate::lex::{
    lemma_lex_empty_least, lemma_lex_le_trans, lemma_lex_lt_le_trans, lemma_lex_trans,
    lemma_lex_trichotomy, lex_cmp, lex_le, lex_lt,
};
use crate::store::{StoreNext, StoreRead, StoreWrite};

#[allow(unused_imports)]
use crate::codec::KeyCodec;

verus! {

/// One end of a key range.
pub enum Bound<K> {
    /// No constraint.
    Unbounded,
    /// The range includes this key.
    Included(K),
    /// The range excludes this key.
    Excluded(K),
}

/// Whether the key bytes `kb` lie below the encoded upper bound `ub`.
pub open spec fn below_upper(ub: &Bound<Vec<u8>>, kb: Seq<u8>) -> bool {
    match ub {
        Bound::Unbounded => true,
        Bound::Included(u) => lex_le(kb, u@),
        Bound::Excluded(u) => lex_lt(kb, u@),
    }
}

/// Every key of `m` is a canonical key encoding, and every value under it a
/// canonical value encoding. Stored bytes that fail to decode as the
/// declared types are a fatal contract violation, so the typed layers demand
/// this of the stores they walk.
pub open spec fn well_typed<K: Codec, V: Codec>(m: Map<Seq<u8>, Seq<u8>>) -> bool {
    forall|kb: Seq<u8>| #[trigger]
        m.contains_key(kb) ==> K::dec(kb) is Some && V::dec(m[kb]) is Some
}

/// Encode a key into a fixed 256-byte buffer. The actual key bytes occupy
/// the prefix of the returned length; an encoding beyond 256 bytes is a hard
/// encoding error.
pub fn encode_key_array<K: Codec>(key: &K) -> (r: Result<([u8; 256], usize), Error>)
    ensures
        (if key.enc().len() <= 256 {
            r matches Ok((buf, n)) && n == key.enc().len() && buf@.take(n as int) == key.enc()
        } else {
            r == Err::<([u8; 256], usize), Error>(Error::Encode)
        }),
{
    let bytes = key.encode();
    if bytes.len() > 256 {
        return Err(Error::Encode);
    }
    let mut buf = [0u8; 256];
    let n = bytes.len();
    let mut i: usize = 0;
    while i < n
        invariant
            n == bytes@.len() <= 256,
            i <= n,
            buf@.len() == 256,
            forall|j: int| 0 <= j < i ==> buf@[j] == bytes@[j],
        decreases n - i,
    {
        buf[i] = bytes[i];
        i = i + 1;
    }
    proof {
        assert(buf@.take(n as int) =~= key.enc());
    }
    Ok((buf, n))
}


/// Inserting a record and then deleting its key leaves the mapping without
/// that key, whatever it held before: by `get`'s contract, a lookup of the
/// key then yields nothing.
pub proof fn lemma_get_after_insert_delete<K: Codec, V: Codec>(
    m: Map<Seq<u8>, Seq<u8>>,
    k: K,
    v: V,
)
    ensures
        !m.insert(k.enc(), v.enc()).remove(k.enc()).contains_key(k.enc()),
{
}

/// Inserting a record makes its key present with exactly the inserted
/// value's encoding, and that encoding decodes back to the value: by
/// `get`'s contract, a lookup of the key then yields exactly the value that
/// went in, round-tripped through its encoding.
pub proof fn lemma_get_after_insert<K: Codec, V: Codec>(m: Map<Seq<u8>, Seq<u8>>, k: K, v: V)
    ensures
        m.insert(k.enc(), v.enc()).contains_key(k.enc()),
        <V as Codec>::dec(m.insert(k.enc(), v.enc())[k.enc()]) == Some(v),
{
    v.lemma_enc_dec();
}

/// A typed ordered dictionary over the store `S`, with keys `K` and values
/// `V` carried through their canonical encodings.
pub struct KvMap<S, K, V> {
    store: S,
    key_type: core::marker::PhantomData<K>,
    value_type: core::marker::PhantomData<V>,
}

impl<S: StoreWrite + StoreNext, K: Codec, V: Codec> KvMap<S, K, V> {
    /// The raw mapping of the underlying store.
    pub closed spec fn contents(&self) -> Map<Seq<u8>, Seq<u8>> {
        self.store.contents()
    }

    /// Whether the underlying store accepts mutation.
    pub closed spec fn writable(&self) -> bool {
        self.store.writable()
    }

    /// Take ownership of a store and give it this typed view.
    pub fn wrap_store(store: S) -> (r: Result<Self, Error>)
        ensures
            r matches Ok(m) && m.contents() == store.contents() && m.writable()
                == store.writable(),
    {
        Ok(KvMap {
            store,
            key_type: core::marker::PhantomData,
            value_type: core::marker::PhantomData,
        })
    }

    /// Give the store back.
    pub fn into_store(self) -> (r: S)
        ensures
            r.contents() == self.contents(),
            r.writable() == self.writable(),
    {
        self.store
    }

    /// Store `value` under `key`, overwriting any previous value.
    pub fn insert(&mut self, key: K, value: V) -> (r: Result<(), Error>)
        requires
            old(self).writable(),
        ensures
            final(self).writable(),
            r matches Ok(_),
            final(self).contents() == old(self).contents().insert(key.enc(), value.enc()),
    {
        let key_bytes = key.encode();
        let value_bytes = value.encode();
        self.store.put(key_bytes, value_bytes)
    }

    /// Remove the entry under `key`; removing an absent key is not an
    /// error.
    pub fn delete(&mut self, key: &K) -> (r: Result<(), Error>)
        requires
            old(self).writable(),
        ensures
            final(self).writable(),
            (if key.enc().len() <= 256 {
                r matches Ok(_) && final(self).contents() == old(self).contents().remove(
                    key.enc(),
                )
            } else {
                r == Err::<(), Error>(Error::Encode) && final(self).contents() == old(
                    self,
                ).contents()
            }),
    {
        let (key_bytes, key_length) = match encode_key_array(key) {
            Ok(p) => p,
            Err(e) => {
                return Err(e);
            },
        };
        let key_slice = vstd::slice::slice_subrange(key_bytes.as_slice(), 0, key_length);
        proof {
            assert(key_slice@ == key.enc());
        }
        self.store.delete(key_slice)
    }

    /// Look up the value stored under `key`.
    pub fn get(&self, key: &K) -> (r: Result<Option<V>, Error>)
        ensures
            (if key.enc().len() > 256 {
                r == Err::<Option<V>, Error>(Error::Encode)
            } else if !self.contents().contains_key(key.enc()) {
                r == Ok::<Option<V>, Error>(None)
            } else {
                match V::dec(self.contents()[key.enc()]) {
                    Some(v) => r == Ok::<Option<V>, Error>(Some(v)),
                    None => r == Err::<Option<V>, Error>(Error::Decode),
                }
            }),
    {
        let (key_bytes, key_length) = match encode_key_array(key) {
            Ok(p) => p,
            Err(e) => {
                return Err(e);
            },
        };
        let key_slice = vstd::slice::slice_subrange(key_bytes.as_slice(), 0, key_length);
        proof {
            assert(key_slice@ == key.enc());
        }
        match self.store.get(key_slice) {
            Ok(Some(value_bytes)) => {
                match V::decode(value_bytes.as_slice()) {
                    Ok(v) => Ok(Some(v)),
                    Err(e) => Err(e),
                }
            },
            Ok(None) => Ok(None),
            Err(e) => Err(e),
        }
    }

    /// Whether an entry is stored under `key`, whatever its value.
    pub fn contains_key(&self, key: &K) -> (r: Result<bool, Error>)
        ensures
            (if key.enc().len() <= 256 {
                r == Ok::<bool, Error>(self.contents().contains_key(key.enc()))
            } else {
                r == Err::<bool, Error>(Error::Encode)
            }),
    {
        let (key_bytes, key_length) = match encode_key_array(key) {
            Ok(p) => p,
            Err(e) => {
                return Err(e);
            },
        };
        let key_slice = vstd::slice::slice_subrange(key_bytes.as_slice(), 0, key_length);
        proof {
            assert(key_slice@ == key.enc());
        }
        match self.store.get(key_slice) {
            Ok(Some(_)) => Ok(true),
            Ok(None) => Ok(false),
            Err(e) => Err(e),
        }
    }

    /// Iterate over all entries in ascending key order.
    pub fn iter<'a>(&'a self) -> (r: Iter<'a, S, K, V>)
        ensures
            r.src() == self.contents(),
            forall|kb: Seq<u8>| #[trigger] r.in_range(kb),
    {
        let r = Iter {
            store: &self.store,
            lower: Vec::new(),
            lower_inclusive: true,
            upper: Bound::Unbounded,
            done: false,
            key_type: core::marker::PhantomData,
            value_type: core::marker::PhantomData,
        };
        proof {
            assert forall|kb: Seq<u8>| #[trigger] r.in_range(kb) by {
                lemma_lex_empty_least(kb);
            }
        }
        r
    }

    /// Iterate in ascending key order, starting at the first key whose
    /// encoding is at least that of `start`.
    pub fn iter_from<'a>(&'a self, start: &K) -> (r: Iter<'a, S, K, V>)
        ensures
            r.src() == self.contents(),
            forall|kb: Seq<u8>| #[trigger] r.in_range(kb) <==> lex_le(start.enc(), kb),
    {
        Iter {
            store: &self.store,
            lower: start.encode(),
            lower_inclusive: true,
            upper: Bound::Unbounded,
            done: false,
            key_type: core::marker::PhantomData,
            value_type: core::marker::PhantomData,
        }
    }

    /// Iterate over the keys inside the given bounds, in ascending key
    /// order.
    pub fn range<'a>(&'a self, start: Bound<&K>, end: Bound<&K>) -> (r: Iter<'a, S, K, V>)
        ensures
            r.src() == self.contents(),
            forall|kb: Seq<u8>| #[trigger]
                r.in_range(kb) <==> ((match start {
                    Bound::Unbounded => true,
                    Bound::Included(s) => lex_le(s.enc(), kb),
                    Bound::Excluded(s) => lex_lt(s.enc(), kb),
                }) && (match end {
                    Bound::Unbounded => true,
                    Bound::Included(e) => lex_le(kb, e.enc()),
                    Bound::Excluded(e) => lex_lt(kb, e.enc()),
                })),
    {
        let (lower, lower_inclusive) = match start {
            Bound::Unbounded => (Vec::new(), true),
            Bound::Included(s) => (s.encode(), true),
            Bound::Excluded(s) => (s.encode(), false),
        };
        let upper = match end {
            Bound::Unbounded => Bound::Unbounded,
            Bound::Included(e) => Bound::Included(e.encode()),
            Bound::Excluded(e) => Bound::Excluded(e.encode()),
        };
        let r = Iter {
            store: &self.store,
            lower,
            lower_inclusive,
            upper,
            done: false,
            key_type: core::marker::PhantomData,
            value_type: core::marker::PhantomData,
        };
        proof {
            match start {
                Bound::Unbounded => {
                    assert forall|kb: Seq<u8>| lex_le(r.lower@, kb) by {
                        lemma_lex_empty_least(kb);
                    }
                },
                _ => {
                },
            }
        }
        r
    }
}

/// A lazy, one-pass walk of a store's entries in ascending key order,
/// decoded as `(K, V)` pairs.
pub struct Iter<'a, S: StoreNext, K: Codec, V: Codec> {
    store: &'a S,
    lower: Vec<u8>,
    lower_inclusive: bool,
    upper: Bound<Vec<u8>>,
    done: bool,
    key_type: core::marker::PhantomData<K>,
    value_type: core::marker::PhantomData<V>,
}

impl<'a, S: StoreNext, K: Codec, V: Codec> Iter<'a, S, K, V> {
    /// The mapping this iterator walks.
    pub closed spec fn src(&self) -> Map<Seq<u8>, Seq<u8>> {
        self.store.contents()
    }

    /// Whether the key bytes `kb` are still ahead of this iterator: past
    /// its lower cursor and below its upper bound.
    pub closed spec fn in_range(&self, kb: Seq<u8>) -> bool {
        &&& !self.done
        &&& if self.lower_inclusive {
            lex_le(self.lower@, kb)
        } else {
            lex_lt(self.lower@, kb)
        }
        &&& below_upper(&self.upper, kb)
    }

    /// The next entry in ascending key order, if any key of the walked
    /// mapping is still ahead.
    pub fn next(&mut self) -> (r: Option<(K, V)>)
        requires
            well_typed::<K, V>(old(self).src()),
        ensures
            final(self).src() == old(self).src(),
            (match r {
                None => (forall|kb: Seq<u8>| #[trigger]
                    old(self).src().contains_key(kb) ==> !old(self).in_range(kb)) && forall|
                    kb: Seq<u8>,
                | !#[trigger] final(self).in_range(kb),
                Some((k, v)) => {
                    &&& old(self).src().contains_key(k.enc())
                    &&& old(self).in_range(k.enc())
                    &&& V::dec(old(self).src()[k.enc()]) == Some(v)
                    &&& K::dec(k.enc()) == Some(k)
                    &&& forall|kb: Seq<u8>| #[trigger]
                        old(self).src().contains_key(kb) && old(self).in_range(kb) ==> lex_le(
                            k.enc(),
                            kb,
                        )
                    &&& forall|kb: Seq<u8>| #[trigger]
                        final(self).in_range(kb) <==> (old(self).in_range(kb) && lex_lt(
                            k.enc(),
                            kb,
                        ))
                },
            }),
    {
        if self.done {
            return None;
        }
        if self.lower_inclusive {
            let got = match self.store.get(self.lower.as_slice()) {
                Ok(o) => o,
                Err(_) => {
                    proof {
                        assert(false);
                    }
                    None
                },
            };
            if let Some(value_bytes) = got {
                if !self.fits_upper(self.lower.as_slice()) {
                    proof {
                        assert forall|kb: Seq<u8>|
                            old(self).src().contains_key(kb) implies !old(self).in_range(kb) by {
                            if lex_le(old(self).lower@, kb) {
                                lemma_below_upper_down(&old(self).upper, old(self).lower@, kb);
                            }
                        }
                    }
                    self.done = true;
                    return None;
                }
                let k = match K::decode(self.lower.as_slice()) {
                    Ok(k) => k,
                    Err(_) => {
                        proof {
                            assert(false);
                        }
                        return None;
                    },
                };
                let v = match V::decode(value_bytes.as_slice()) {
                    Ok(v) => v,
                    Err(_) => {
                        proof {
                            assert(false);
                        }
                        return None;
                    },
                };
                proof {
                    K::lemma_dec_enc(self.lower@);
                    assert(k.enc() == self.lower@);
                }
                self.lower_inclusive = false;
                return Some((k, v));
            }
            // The lower cursor itself is absent: from here on the walk is
            // strictly above it either way.
            self.lower_inclusive = false;
        }
        let nxt = match self.store.get_next(self.lower.as_slice()) {
            Ok(o) => o,
            Err(_) => {
                proof {
                    assert(false);
                }
                None
            },
        };
        match nxt {
            None => {
                proof {
                    assert forall|kb: Seq<u8>|
                        old(self).src().contains_key(kb) implies !old(self).in_range(kb) by {
                        if old(self).in_range(kb) {
                            if old(self).lower_inclusive {
                                assert(!old(self).src().contains_key(old(self).lower@));
                                assert(kb != old(self).lower@);
                            }
                            assert(lex_lt(old(self).lower@, kb));
                        }
                    }
                }
                self.done = true;
                None
            },
            Some((key_bytes, value_bytes)) => {
                let ghost kenc = key_bytes@;
                proof {
                    assert(old(self).src().contains_key(kenc));
                    assert(lex_lt(old(self).lower@, kenc));
                }
                if !self.fits_upper(key_bytes.as_slice()) {
                    proof {
                        assert forall|kb: Seq<u8>|
                            old(self).src().contains_key(kb) implies !old(self).in_range(kb) by {
                            if old(self).in_range(kb) {
                                if old(self).lower_inclusive {
                                    assert(!old(self).src().contains_key(old(self).lower@));
                                    assert(kb != old(self).lower@);
                                }
                                assert(lex_lt(old(self).lower@, kb));
                                assert(lex_le(kenc, kb));
                                lemma_below_upper_down(&old(self).upper, kenc, kb);
                            }
                        }
                    }
                    self.done = true;
                    return None;
                }
                let k = match K::decode(key_bytes.as_slice()) {
                    Ok(k) => k,
                    Err(_) => {
                        proof {
                            assert(false);
                        }
                        return None;
                    },
                };
                let v = match V::decode(value_bytes.as_slice()) {
                    Ok(v) => v,
                    Err(_) => {
                        proof {
                            assert(false);
                        }
                        return None;
                    },
                };
                proof {
                    K::lemma_dec_enc(kenc);
                    assert(k.enc() == kenc);
                    assert(old(self).in_range(kenc));
                    assert forall|kb: Seq<u8>|
                        old(self).src().contains_key(kb) && old(self).in_range(kb) implies lex_le(
                        k.enc(),
                        kb,
                    ) by {
                        if old(self).lower_inclusive {
                            assert(!old(self).src().contains_key(old(self).lower@));
                            assert(kb != old(self).lower@);
                        }
                        assert(lex_lt(old(self).lower@, kb));
                    }
                }
                self.lower = key_bytes;
                proof {
                    assert forall|kb: Seq<u8>| #[trigger]
                        self.in_range(kb) <==> (old(self).in_range(kb) && lex_lt(
                            k.enc(),
                            kb,
                        )) by {
                        if lex_lt(kenc, kb) {
                            lemma_lex_trans(old(self).lower@, kenc, kb);
                        }
                    }
                }
                return Some((k, v));
            },
        }
    }

    /// Whether the key bytes lie below this iterator's upper bound.
    fn fits_upper(&self, kb: &[u8]) -> (r: bool)
        ensures
            r == below_upper(&self.upper, kb@),
    {
        match &self.upper {
            Bound::Unbounded => true,
            Bound::Included(u) => {
                proof {
                    lemma_lex_trichotomy(kb@, u@);
                }
                lex_cmp(kb, u.as_slice()) != 1
            },
            Bound::Excluded(u) => lex_cmp(kb, u.as_slice()) == -1,
        }
    }

    /// When the inclusive lower cursor itself already lies past the upper
    /// bound, nothing is in range.
    proof fn lemma_none_when_lower_past_upper(&self)
        requires
            self.lower_inclusive,
            !below_upper(&self.upper, self.lower@),
        ensures
            forall|kb: Seq<u8>| !#[trigger] self.in_range(kb),
    {
        assert forall|kb: Seq<u8>| !#[trigger] self.in_range(kb) by {
            if lex_le(self.lower@, kb) {
                lemma_below_upper_down(&self.upper, self.lower@, kb);
            }
        }
    }
}

/// If `a` is not below an upper bound, nothing at or beyond `a` is.
proof fn lemma_below_upper_down(ub: &Bound<Vec<u8>>, a: Seq<u8>, b: Seq<u8>)
    requires
        !below_upper(ub, a),
        lex_le(a, b),
    ensures
        !below_upper(ub, b),
{
    match ub {
        Bound::Unbounded => {},
        Bound::Included(u) => {
            lemma_lex_trichotomy(a, u@);
            assert(lex_lt(u@, a));
            if lex_le(b, u@) {
                lemma_lex_le_trans(a, b, u@);
                lemma_lex_trichotomy(u@, a);
            }
        },
        Bound::Excluded(u) => {
            lemma_lex_trichotomy(a, u@);
            assert(lex_le(u@, a));
            if lex_lt(b, u@) {
                lemma_lex_lt_le_trans(b, u@, a);
                lemma_lex_trichotomy(a, b);
                if lex_lt(a, b) {
                    lemma_lex_trans(a, b, a);
                }
                lemma_lex_trichotomy(a, a);
            }
        },
    }
}

} // verus!
