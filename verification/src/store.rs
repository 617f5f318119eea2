//! The storage interface: ordered byte-keyed stores.
//!
//! A store is a mapping from byte keys to byte values, ordered by the
//! byte-lexicographic comparison of keys. Reading is the [`StoreRead`]
//! capability; mutation is the separate [`StoreWrite`] capability, so that
//! read-only stores simply never offer it. [`MapStore`] is the in-memory
//! implementation, a vector of entries kept strictly sorted by key.

use vstd::prelude::*;

use crate::error::Error;
use crate::lex::{lemma_lex_trichotomy, lex_cmp, lex_le, lex_lt};

verus! {

/// The entries of an association sequence, strictly sorted by key.
pub open spec fn sorted_by_key(s: Seq<(Vec<u8>, Vec<u8>)>) -> bool {
    forall|i: int, j: int|
        0 <= i < j < s.len() ==> lex_lt(#[trigger] s[i].0@, #[trigger] s[j].0@)
}

/// Some entry of `s` carries the key `k`.
pub open spec fn assoc_has_key(s: Seq<(Vec<u8>, Vec<u8>)>, k: Seq<u8>) -> bool {
    exists|i: int| 0 <= i < s.len() && s[i].0@ == k
}

/// The index of the entry carrying the key `k`.
pub open spec fn assoc_index_of(s: Seq<(Vec<u8>, Vec<u8>)>, k: Seq<u8>) -> int {
    choose|i: int| 0 <= i < s.len() && s[i].0@ == k
}

/// The mapping that an association sequence represents.
pub open spec fn assoc_contents(s: Seq<(Vec<u8>, Vec<u8>)>) -> Map<Seq<u8>, Seq<u8>> {
    Map::new(|k: Seq<u8>| assoc_has_key(s, k), |k: Seq<u8>| s[assoc_index_of(s, k)].1@)
}

/// In a sorted association sequence no two entries carry the same key.
pub proof fn lemma_sorted_distinct(s: Seq<(Vec<u8>, Vec<u8>)>)
    requires
        sorted_by_key(s),
    ensures
        forall|i: int, j: int|
            0 <= i < s.len() && 0 <= j < s.len() && i != j ==> #[trigger] s[i].0@ != #[trigger] s[j].0@,
{
    assert forall|i: int, j: int|
        0 <= i < s.len() && 0 <= j < s.len() && i != j implies #[trigger] s[i].0@
        != #[trigger] s[j].0@ by {
        if i < j {
            lemma_lex_trichotomy(s[i].0@, s[j].0@);
        } else {
            lemma_lex_trichotomy(s[j].0@, s[i].0@);
        }
    }
}

/// Extending a prefix of an association sequence by one entry adds exactly
/// that entry's key.
pub proof fn lemma_assoc_take_step(s: Seq<(Vec<u8>, Vec<u8>)>, i: int, k: Seq<u8>)
    requires
        0 <= i < s.len(),
    ensures
        assoc_has_key(s.take(i + 1), k) <==> (assoc_has_key(s.take(i), k) || s[i].0@ == k),
{
    if assoc_has_key(s.take(i + 1), k) {
        let j = assoc_index_of(s.take(i + 1), k);
        assert(s.take(i + 1)[j] == s[j]);
        if j < i {
            assert(s.take(i)[j] == s[j]);
            assert(assoc_has_key(s.take(i), k));
        }
    }
    if assoc_has_key(s.take(i), k) {
        let j = assoc_index_of(s.take(i), k);
        assert(s.take(i)[j] == s[j]);
        assert(s.take(i + 1)[j] == s[j]);
        assert(assoc_has_key(s.take(i + 1), k));
    }
    if s[i].0@ == k {
        assert(s.take(i + 1)[i] == s[i]);
        assert(assoc_has_key(s.take(i + 1), k));
    }
}

/// Ordered read access to a store.
pub trait StoreRead {
    /// The mapping the store holds.
    spec fn contents(&self) -> Map<Seq<u8>, Seq<u8>>;

    /// Look up the value stored under exactly `key`.
    fn get(&self, key: &[u8]) -> (r: Result<Option<Vec<u8>>, Error>)
        ensures
            r matches Ok(o) && (match o {
                Some(v) => self.contents().contains_key(key@) && v@ == self.contents()[key@],
                None => !self.contents().contains_key(key@),
            }),
    ;

}

/// Ordered successor queries over a store: the capability behind range
/// scans.
pub trait StoreNext: StoreRead {
    /// Look up the entry with the smallest key strictly greater than `key`,
    /// in byte-lexicographic order.
    fn get_next(&self, key: &[u8]) -> (r: Result<Option<(Vec<u8>, Vec<u8>)>, Error>)
        ensures
            r matches Ok(o) && (match o {
                Some(kv) => self.contents().contains_key(kv.0@) && kv.1@
                    == self.contents()[kv.0@] && lex_lt(key@, kv.0@) && forall|k2: Seq<u8>|
                    self.contents().contains_key(k2) && lex_lt(key@, k2) ==> lex_le(kv.0@, k2),
                None => forall|k2: Seq<u8>|
                    self.contents().contains_key(k2) ==> !lex_lt(key@, k2),
            }),
    ;
}

/// Mutation of a store. A read-only store does not implement this
/// capability, and a caller of `put` or `delete` must show the store
/// writable: mutating a read-only store is a programmer error, not a
/// recoverable outcome.
pub trait StoreWrite: StoreRead {
    /// Whether this store value accepts mutation.
    spec fn writable(&self) -> bool;

    /// Store `value` under `key`, overwriting any previous value.
    fn put(&mut self, key: Vec<u8>, value: Vec<u8>) -> (r: Result<(), Error>)
        requires
            old(self).writable(),
        ensures
            final(self).writable(),
            r matches Ok(_),
            final(self).contents() == old(self).contents().insert(key@, value@),
    ;

    /// Remove the entry under `key`; removing an absent key is not an error.
    fn delete(&mut self, key: &[u8]) -> (r: Result<(), Error>)
        requires
            old(self).writable(),
        ensures
            final(self).writable(),
            r matches Ok(_),
            final(self).contents() == old(self).contents().remove(key@),
    ;
}

/// An in-memory store: a vector of entries kept strictly sorted by key.
#[derive(Debug)]
pub struct MapStore {
    entries: Vec<(Vec<u8>, Vec<u8>)>,
}

impl MapStore {
    #[verifier::type_invariant]
    spec fn wf(self) -> bool {
        sorted_by_key(self.entries@)
    }

    /// An empty in-memory store.
    pub fn new() -> (s: Self)
        ensures
            s.contents() == Map::<Seq<u8>, Seq<u8>>::empty(),
            s.writable(),
    {
        let s = MapStore { entries: Vec::new() };
        proof {
            assert(s.contents() =~= Map::<Seq<u8>, Seq<u8>>::empty());
        }
        s
    }

    /// Hand the entries out, in ascending key order.
    pub fn into_entries(self) -> (r: Vec<(Vec<u8>, Vec<u8>)>)
        ensures
            sorted_by_key(r@),
            assoc_contents(r@) == self.contents(),
    {
        proof {
            use_type_invariant(&self);
        }
        self.entries
    }
}

impl StoreRead for MapStore {
    closed spec fn contents(&self) -> Map<Seq<u8>, Seq<u8>> {
        assoc_contents(self.entries@)
    }

    fn get(&self, key: &[u8]) -> (r: Result<Option<Vec<u8>>, Error>) {
        proof {
            use_type_invariant(&*self);
            lemma_sorted_distinct(self.entries@);
        }
        let ghost s = self.entries@;
        let n = self.entries.len();
        let mut i: usize = 0;
        while i < n
            invariant
                n == s.len(),
                i <= n,
                s == self.entries@,
                forall|j: int| 0 <= j < i ==> #[trigger] s[j].0@ != key@,
                forall|i2: int, j: int|
                    0 <= i2 < s.len() && 0 <= j < s.len() && i2 != j ==> #[trigger] s[i2].0@
                        != #[trigger] s[j].0@,
            decreases n - i,
        {
            let c = lex_cmp(self.entries[i].0.as_slice(), key);
            if c == 0 {
                let v = self.entries[i].1.clone();
                proof {
                    assert(assoc_has_key(s, key@));
                    let idx = assoc_index_of(s, key@);
                    assert(s[idx].0@ == key@);
                    assert(idx == i);
                    assert(v@ == self.contents()[key@]);
                }
                return Ok(Some(v));
            }
            i = i + 1;
        }
        proof {
            if assoc_has_key(s, key@) {
                let idx = assoc_index_of(s, key@);
                assert(s[idx].0@ == key@);
            }
        }
        Ok(None)
    }

}

impl StoreNext for MapStore {
    fn get_next(&self, key: &[u8]) -> (r: Result<Option<(Vec<u8>, Vec<u8>)>, Error>) {
        proof {
            use_type_invariant(&*self);
            lemma_sorted_distinct(self.entries@);
        }
        let ghost s = self.entries@;
        let n = self.entries.len();
        let mut i: usize = 0;
        while i < n
            invariant
                n == s.len(),
                i <= n,
                s == self.entries@,
                sorted_by_key(s),
                forall|j: int| 0 <= j < i ==> !lex_lt(key@, #[trigger] s[j].0@),
            decreases n - i,
        {
            let c = lex_cmp(key, self.entries[i].0.as_slice());
            if c == -1 {
                let k = self.entries[i].0.clone();
                let v = self.entries[i].1.clone();
                proof {
                    assert(assoc_has_key(s, k@));
                    let idx = assoc_index_of(s, k@);
                    lemma_sorted_distinct(s);
                    assert(idx == i);
                    assert forall|k2: Seq<u8>|
                        self.contents().contains_key(k2) && lex_lt(key@, k2) implies lex_le(
                        k@,
                        k2,
                    ) by {
                        let j = assoc_index_of(s, k2);
                        assert(s[j].0@ == k2);
                        if j < i {
                            assert(!lex_lt(key@, s[j].0@));
                        } else if j == i {
                            assert(k2 == k@);
                        } else {
                            assert(lex_lt(s[i as int].0@, s[j].0@));
                        }
                    }
                }
                return Ok(Some((k, v)));
            }
            i = i + 1;
        }
        proof {
            assert forall|k2: Seq<u8>| self.contents().contains_key(k2) implies !lex_lt(
                key@,
                k2,
            ) by {
                let j = assoc_index_of(s, k2);
                assert(s[j].0@ == k2);
            }
        }
        Ok(None)
    }
}


/// Inserting an entry at its sorted position inserts its key into the
/// mapping.
pub proof fn lemma_assoc_insert_at(s: Seq<(Vec<u8>, Vec<u8>)>, i: int, p: (Vec<u8>, Vec<u8>))
    requires
        sorted_by_key(s),
        0 <= i <= s.len(),
        forall|j: int| 0 <= j < i ==> lex_lt(#[trigger] s[j].0@, p.0@),
        forall|j: int| i <= j < s.len() ==> lex_lt(p.0@, #[trigger] s[j].0@),
    ensures
        sorted_by_key(s.insert(i, p)),
        assoc_contents(s.insert(i, p)) == assoc_contents(s).insert(p.0@, p.1@),
{
    let s2 = s.insert(i, p);
    s.insert_ensures(i, p);
    lemma_sorted_distinct(s);
    assert forall|x: int, y: int| 0 <= x < y < s2.len() implies lex_lt(s2[x].0@, s2[y].0@) by {
        if y < i {
            assert(s2[x] == s[x] && s2[y] == s[y]);
        } else if y == i {
            assert(s2[x] == s[x]);
        } else {
            assert(s2[y] == s[y - 1]);
            if x < i {
                assert(s2[x] == s[x]);
            } else if x == i {
            } else {
                assert(s2[x] == s[x - 1]);
            }
        }
    }
    lemma_sorted_distinct(s2);
    let m1 = assoc_contents(s2);
    let m2 = assoc_contents(s).insert(p.0@, p.1@);
    assert forall|j: int| 0 <= j < i implies #[trigger] s[j].0@ != p.0@ by {
        lemma_lex_trichotomy(s[j].0@, p.0@);
    }
    assert forall|j: int| i <= j < s.len() implies #[trigger] s[j].0@ != p.0@ by {
        lemma_lex_trichotomy(p.0@, s[j].0@);
    }
    assert forall|k: Seq<u8>| #[trigger] m1.contains_key(k) implies m2.contains_key(k) && m1[k]
        == m2[k] by {
        let j2 = assoc_index_of(s2, k);
        assert(0 <= j2 < s2.len() && s2[j2].0@ == k);
        if j2 == i {
            assert(k == p.0@);
            assert(m1[k] == s2[j2].1@);
            assert(m2[k] == p.1@);
        } else if j2 < i {
            assert(s2[j2] == s[j2]);
            assert(assoc_has_key(s, k));
            let j1 = assoc_index_of(s, k);
            assert(0 <= j1 < s.len() && s[j1].0@ == k);
            assert(j1 == j2);
            assert(k != p.0@);
            assert(m1[k] == s2[j2].1@ && m2[k] == s[j1].1@);
        } else {
            assert(s2[j2] == s[j2 - 1]);
            assert(assoc_has_key(s, k));
            let j1 = assoc_index_of(s, k);
            assert(0 <= j1 < s.len() && s[j1].0@ == k);
            assert(j1 == j2 - 1);
            assert(k != p.0@);
            assert(m1[k] == s2[j2].1@ && m2[k] == s[j1].1@);
        }
    }
    assert forall|k: Seq<u8>| #[trigger] m2.contains_key(k) implies m1.contains_key(k) by {
        if k == p.0@ {
            assert(s2[i].0@ == k);
            assert(assoc_has_key(s2, k));
        } else {
            let j1 = assoc_index_of(s, k);
            assert(0 <= j1 < s.len() && s[j1].0@ == k);
            if j1 < i {
                assert(s2[j1].0@ == k);
            } else {
                assert(s2[j1 + 1].0@ == k);
            }
            assert(assoc_has_key(s2, k));
        }
    }
    assert(m1 =~= m2);
}

/// Removing an entry removes its key from the mapping.
pub proof fn lemma_assoc_remove_at(s: Seq<(Vec<u8>, Vec<u8>)>, i: int)
    requires
        sorted_by_key(s),
        0 <= i < s.len(),
    ensures
        sorted_by_key(s.remove(i)),
        assoc_contents(s.remove(i)) == assoc_contents(s).remove(s[i].0@),
{
    let s2 = s.remove(i);
    s.remove_ensures(i);
    lemma_sorted_distinct(s);
    assert forall|x: int, y: int| 0 <= x < y < s2.len() implies lex_lt(s2[x].0@, s2[y].0@) by {
        if y < i {
            assert(s2[x] == s[x] && s2[y] == s[y]);
        } else if x < i {
            assert(s2[x] == s[x] && s2[y] == s[y + 1]);
        } else {
            assert(s2[x] == s[x + 1] && s2[y] == s[y + 1]);
        }
    }
    lemma_sorted_distinct(s2);
    let m1 = assoc_contents(s2);
    let m2 = assoc_contents(s).remove(s[i].0@);
    assert forall|k: Seq<u8>| #[trigger] m1.contains_key(k) implies m2.contains_key(k) && m1[k]
        == m2[k] by {
        let j2 = assoc_index_of(s2, k);
        assert(0 <= j2 < s2.len() && s2[j2].0@ == k);
        let j1: int = if j2 < i {
            j2
        } else {
            j2 + 1
        };
        assert(s[j1].0@ == k);
        assert(k != s[i].0@);
        assert(assoc_has_key(s, k));
        assert(assoc_index_of(s, k) == j1);
        assert(m1[k] == s2[j2].1@ && m2[k] == s[j1].1@);
    }
    assert forall|k: Seq<u8>| #[trigger] m2.contains_key(k) implies m1.contains_key(k) by {
        let j1 = assoc_index_of(s, k);
        assert(0 <= j1 < s.len() && s[j1].0@ == k);
        assert(j1 != i);
        if j1 < i {
            assert(s2[j1].0@ == k);
        } else {
            assert(s2[j1 - 1].0@ == k);
        }
        assert(assoc_has_key(s2, k));
    }
    assert(m1 =~= m2);
}

impl StoreWrite for MapStore {
    open spec fn writable(&self) -> bool {
        true
    }

    fn put(&mut self, key: Vec<u8>, value: Vec<u8>) -> (r: Result<(), Error>) {
        proof {
            use_type_invariant(&*self);
            lemma_sorted_distinct(self.entries@);
        }
        let ghost s = self.entries@;
        let n = self.entries.len();
        let mut i: usize = 0;
        while i < n && lex_cmp(self.entries[i].0.as_slice(), key.as_slice()) == -1
            invariant
                n == s.len(),
                i <= n,
                s == self.entries@,
                sorted_by_key(s),
                forall|j: int| 0 <= j < i ==> lex_lt(#[trigger] s[j].0@, key@),
            decreases n - i,
        {
            i = i + 1;
        }
        let equal_here = i < n && lex_cmp(self.entries[i].0.as_slice(), key.as_slice()) == 0;
        let mut es: Vec<(Vec<u8>, Vec<u8>)> = Vec::new();
        core::mem::swap(&mut es, &mut self.entries);
        if equal_here {
            // The key is present: replace its entry in place.
            let ghost old_key = s[i as int].0@;
            let _ = es.remove(i);
            proof {
                lemma_assoc_remove_at(s, i as int);
                assert(old_key == key@);
            }
            let ghost s_removed = es@;
            es.insert(i, (key, value));
            proof {
                assert forall|j: int| i <= j < s_removed.len() implies lex_lt(
                    key@,
                    #[trigger] s_removed[j].0@,
                ) by {
                    assert(s_removed[j] == s[j + 1]);
                }
                lemma_assoc_insert_at(s_removed, i as int, (key, value));
                assert(assoc_contents(s).remove(key@).insert(key@, value@) =~= assoc_contents(
                    s,
                ).insert(key@, value@));
            }
        } else {
            proof {
                if i < n {
                    lemma_lex_trichotomy(s[i as int].0@, key@);
                    assert(lex_lt(key@, s[i as int].0@));
                }
                assert forall|j: int| i <= j < s.len() implies lex_lt(
                    key@,
                    #[trigger] s[j].0@,
                ) by {
                    if j > i {
                        crate::lex::lemma_lex_trans(key@, s[i as int].0@, s[j].0@);
                    }
                }
            }
            es.insert(i, (key, value));
            proof {
                lemma_assoc_insert_at(s, i as int, (key, value));
            }
        }
        self.entries = es;
        Ok(())
    }

    fn delete(&mut self, key: &[u8]) -> (r: Result<(), Error>) {
        proof {
            use_type_invariant(&*self);
            lemma_sorted_distinct(self.entries@);
        }
        let ghost s = self.entries@;
        let n = self.entries.len();
        let mut i: usize = 0;
        while i < n && lex_cmp(self.entries[i].0.as_slice(), key) == -1
            invariant
                n == s.len(),
                i <= n,
                s == self.entries@,
                sorted_by_key(s),
                forall|j: int| 0 <= j < i ==> lex_lt(#[trigger] s[j].0@, key@),
            decreases n - i,
        {
            i = i + 1;
        }
        if i < n && lex_cmp(self.entries[i].0.as_slice(), key) == 0 {
            let mut es: Vec<(Vec<u8>, Vec<u8>)> = Vec::new();
            core::mem::swap(&mut es, &mut self.entries);
            let _ = es.remove(i);
            proof {
                lemma_assoc_remove_at(s, i as int);
            }
            self.entries = es;
            Ok(())
        } else {
            proof {
                if i < n {
                    lemma_lex_trichotomy(s[i as int].0@, key@);
                }
                assert forall|j: int| 0 <= j < s.len() implies #[trigger] s[j].0@ != key@ by {
                    if j < i {
                        lemma_lex_trichotomy(s[j].0@, key@);
                    } else if j == i {
                    } else {
                        crate::lex::lemma_lex_trans(key@, s[i as int].0@, s[j].0@);
                        lemma_lex_trichotomy(key@, s[j].0@);
                    }
                }
                if assoc_has_key(s, key@) {
                    let idx = assoc_index_of(s, key@);
                    assert(s[idx].0@ == key@);
                }
                assert(assoc_contents(s).remove(key@) =~= assoc_contents(s));
            }
            Ok(())
        }
    }
}

impl Clone for MapStore {
    /// A clone holds the same mapping.
    fn clone(&self) -> (r: Self)
        ensures
            r.contents() == self.contents(),
    {
        proof {
            use_type_invariant(&*self);
        }
        let n = self.entries.len();
        let mut entries: Vec<(Vec<u8>, Vec<u8>)> = Vec::new();
        let mut i: usize = 0;
        while i < n
            invariant
                n == self.entries@.len(),
                i <= n,
                entries@.len() == i,
                sorted_by_key(self.entries@),
                forall|j: int|
                    0 <= j < i ==> (#[trigger] entries@[j].0@ == self.entries@[j].0@
                        && entries@[j].1@ == self.entries@[j].1@),
            decreases n - i,
        {
            let key = self.entries[i].0.clone();
            let value = self.entries[i].1.clone();
            let ghost prev = entries@;
            entries.push((key, value));
            proof {
                assert(entries@ == prev.push((key, value)));
                assert(entries@[i as int] == (key, value));
                assert(key@ == self.entries@[i as int].0@);
                assert(value@ == self.entries@[i as int].1@);
                assert forall|j: int|
                    0 <= j < i implies (#[trigger] entries@[j].0@ == self.entries@[j].0@
                    && entries@[j].1@ == self.entries@[j].1@) by {
                    assert(entries@[j] == prev[j]);
                }
            }
            i = i + 1;
        }
        proof {
            assert forall|x: int, y: int| 0 <= x < y < entries@.len() implies lex_lt(
                entries@[x].0@,
                entries@[y].0@,
            ) by {
                assert(entries@[x].0@ == self.entries@[x].0@);
                assert(entries@[y].0@ == self.entries@[y].0@);
            }
        }
        let r = MapStore { entries };
        proof {
            assert forall|k: Seq<u8>| #[trigger] assoc_has_key(r.entries@, k) implies assoc_has_key(
                self.entries@,
                k,
            ) by {
                let j = assoc_index_of(r.entries@, k);
                assert(self.entries@[j].0@ == k);
            }
            assert forall|k: Seq<u8>| #[trigger] assoc_has_key(self.entries@, k) implies {
                &&& assoc_has_key(r.entries@, k)
                &&& assoc_contents(r.entries@)[k] == assoc_contents(self.entries@)[k]
            } by {
                let j = assoc_index_of(self.entries@, k);
                assert(r.entries@[j].0@ == k);
                assert(assoc_has_key(r.entries@, k));
                lemma_sorted_distinct(r.entries@);
                lemma_sorted_distinct(self.entries@);
                let j1 = assoc_index_of(r.entries@, k);
                assert(r.entries@[j1].0@ == k);
                assert(j1 == j);
            }
            assert(r.contents() =~= self.contents());
        }
        r
    }
}

/// An owned copy of a byte slice.
pub(crate) fn copy_bytes(b: &[u8]) -> (r: Vec<u8>)
    ensures
        r@ == b@,
{
    let mut r: Vec<u8> = Vec::new();
    let mut i: usize = 0;
    while i < b.len()
        invariant
            i <= b@.len(),
            r@ == b@.take(i as int),
        decreases b@.len() - i,
    {
        r.push(b[i]);
        proof {
            assert(r@ =~= b@.take(i + 1));
        }
        i = i + 1;
    }
    proof {
        assert(b@.take(b@.len() as int) =~= b@);
    }
    r
}

/// A read-only store holding nothing.
#[derive(Debug)]
pub struct NullStore;

impl StoreRead for NullStore {
    open spec fn contents(&self) -> Map<Seq<u8>, Seq<u8>> {
        Map::empty()
    }

    fn get(&self, key: &[u8]) -> (r: Result<Option<Vec<u8>>, Error>) {
        Ok(None)
    }
}

impl StoreNext for NullStore {
    fn get_next(&self, key: &[u8]) -> (r: Result<Option<(Vec<u8>, Vec<u8>)>, Error>) {
        Ok(None)
    }
}

} // verus!
