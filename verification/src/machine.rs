//! Deterministic state machines over a store, with atomic steps.
//!
//! A [`StateMachine`] turns an action into reads and writes against a store.
//! [`StateMachine::step_flush`] runs a step against a [`Staged`] overlay of
//! the store and applies the writes only when the step succeeds, so that a
//! failing step leaves the underlying store exactly as it was.

use vstd::prelude::*;

use crate::error::Error;
use crate::store::{
    assoc_has_key, assoc_index_of, copy_bytes, lemma_assoc_take_step, lemma_sorted_distinct,
    sorted_by_key, MapStore, StoreRead, StoreWrite,
};

verus! {

/// A base mapping with an overlay applied: the written entries override the
/// base, and the deleted keys are gone unless rewritten.
pub open spec fn apply_overlay(
    base: Map<Seq<u8>, Seq<u8>>,
    writes: Map<Seq<u8>, Seq<u8>>,
    deletes: Map<Seq<u8>, Seq<u8>>,
) -> Map<Seq<u8>, Seq<u8>> {
    Map::new(
        |k: Seq<u8>| writes.contains_key(k) || (base.contains_key(k) && !deletes.contains_key(k)),
        |k: Seq<u8>|
            if writes.contains_key(k) {
                writes[k]
            } else {
                base[k]
            },
    )
}

/// A buffered view of a base store: reads fall through to the base, writes
/// and deletions collect in an overlay until the caller applies them.
pub struct Staged<'a, S: StoreRead> {
    base: &'a S,
    writes: MapStore,
    deletes: MapStore,
}

impl<'a, S: StoreRead> Staged<'a, S> {
    /// A fresh overlay over `base`, holding no changes yet.
    pub fn new(base: &'a S) -> (r: Self)
        ensures
            r.contents() == base.contents(),
            r.writable(),
    {
        let r = Staged { base, writes: MapStore::new(), deletes: MapStore::new() };
        proof {
            assert(r.contents() =~= base.contents());
        }
        r
    }

    /// The collected changes: the entries written, and the keys deleted.
    pub fn into_parts(self) -> (r: (MapStore, MapStore))
        ensures
            r.0.contents() == self.writes_contents(),
            r.1.contents() == self.deletes_contents(),
    {
        (self.writes, self.deletes)
    }

    /// The entries written into the overlay.
    pub closed spec fn writes_contents(&self) -> Map<Seq<u8>, Seq<u8>> {
        self.writes.contents()
    }

    /// The keys deleted through the overlay.
    pub closed spec fn deletes_contents(&self) -> Map<Seq<u8>, Seq<u8>> {
        self.deletes.contents()
    }

    /// The mapping of the base store underneath the overlay.
    pub closed spec fn base_contents(&self) -> Map<Seq<u8>, Seq<u8>> {
        self.base.contents()
    }
}

/// Applying a staged overlay's collected changes to its own base
/// reproduces exactly the mapping the overlay presented.
pub proof fn lemma_apply_reproduces_staged<'a, S: StoreRead>(staged: &Staged<'a, S>)
    ensures
        apply_overlay(
            staged.base_contents(),
            staged.writes_contents(),
            staged.deletes_contents(),
        ) == staged.contents(),
{
}

impl<'a, S: StoreRead> StoreRead for Staged<'a, S> {
    closed spec fn contents(&self) -> Map<Seq<u8>, Seq<u8>> {
        apply_overlay(self.base.contents(), self.writes.contents(), self.deletes.contents())
    }

    fn get(&self, key: &[u8]) -> (r: Result<Option<Vec<u8>>, Error>) {
        match self.writes.get(key) {
            Ok(Some(v)) => Ok(Some(v)),
            Ok(None) => {
                match self.deletes.get(key) {
                    Ok(Some(_)) => Ok(None),
                    Ok(None) => self.base.get(key),
                    Err(e) => Err(e),
                }
            },
            Err(e) => Err(e),
        }
    }
}

impl<'a, S: StoreRead> StoreWrite for Staged<'a, S> {
    open spec fn writable(&self) -> bool {
        true
    }

    fn put(&mut self, key: Vec<u8>, value: Vec<u8>) -> (r: Result<(), Error>) {
        let key_copy = key.clone();
        let r = self.writes.put(key, value);
        let _ = self.deletes.delete(key_copy.as_slice());
        proof {
            assert(self.contents() =~= old(self).contents().insert(key_copy@, value@));
        }
        r
    }

    fn delete(&mut self, key: &[u8]) -> (r: Result<(), Error>) {
        let r = self.writes.delete(key);
        let _ = self.deletes.put(copy_bytes(key), Vec::new());
        proof {
            assert(self.contents() =~= old(self).contents().remove(key@));
        }
        r
    }
}

/// Apply collected changes to a store: first remove the deleted keys, then
/// store the written entries. The result is the base mapping with the
/// overlay applied.
pub fn apply_changes<S: StoreWrite>(store: &mut S, writes: MapStore, deletes: MapStore) -> (r:
    Result<(), Error>)
    requires
        old(store).writable(),
    ensures
        final(store).writable(),
        r matches Ok(_),
        final(store).contents() == apply_overlay(
            old(store).contents(),
            writes.contents(),
            deletes.contents(),
        ),
{
    let ghost base = store.contents();
    let ghost wmap = writes.contents();
    let ghost dmap = deletes.contents();
    let deleted = deletes.into_entries();
    let ghost ds = deleted@;
    let n = deleted.len();
    let mut i: usize = 0;
    while i < n
        invariant
            old(store).writable(),
            store.writable(),
            n == ds.len(),
            i <= n,
            deleted@ == ds,
            base == old(store).contents(),
            store.contents() == Map::new(
                |k: Seq<u8>| base.contains_key(k) && !assoc_has_key(ds.take(i as int), k),
                |k: Seq<u8>| base[k],
            ),
        decreases n - i,
    {
        let ghost pre = store.contents();
        let _ = store.delete(deleted[i].0.as_slice());
        proof {
            let ki = ds[i as int].0@;
            assert forall|k: Seq<u8>| true implies #[trigger] assoc_has_key(ds.take(i + 1), k)
                <==> (assoc_has_key(ds.take(i as int), k) || ki == k) by {
                lemma_assoc_take_step(ds, i as int, k);
            }
            assert(pre.remove(ki) =~= Map::new(
                |k: Seq<u8>| base.contains_key(k) && !assoc_has_key(ds.take(i + 1), k),
                |k: Seq<u8>| base[k],
            ));
        }
        i = i + 1;
    }
    proof {
        assert(ds.take(n as int) =~= ds);
        assert forall|k: Seq<u8>| #[trigger] assoc_has_key(ds, k) <==> dmap.contains_key(k) by {
        }
        assert(store.contents() =~= Map::new(
            |k: Seq<u8>| base.contains_key(k) && !dmap.contains_key(k),
            |k: Seq<u8>| base[k],
        ));
    }
    let ghost mid = store.contents();
    let written = writes.into_entries();
    let ghost ws = written@;
    proof {
        lemma_sorted_distinct(ws);
    }
    let m = written.len();
    let mut j: usize = 0;
    while j < m
        invariant
            old(store).writable(),
            store.writable(),
            m == ws.len(),
            j <= m,
            written@ == ws,
            sorted_by_key(ws),
            forall|x: int, y: int|
                0 <= x < ws.len() && 0 <= y < ws.len() && x != y ==> #[trigger] ws[x].0@
                    != #[trigger] ws[y].0@,
            store.contents() == Map::new(
                |k: Seq<u8>|
                    assoc_has_key(ws.take(j as int), k) || mid.contains_key(k),
                |k: Seq<u8>|
                    if assoc_has_key(ws.take(j as int), k) {
                        ws.take(j as int)[assoc_index_of(ws.take(j as int), k)].1@
                    } else {
                        mid[k]
                    },
            ),
        decreases m - j,
    {
        let ghost pre = store.contents();
        let key = written[j].0.clone();
        let value = written[j].1.clone();
        let _ = store.put(key, value);
        proof {
            let kj = ws[j as int].0@;
            let vj = ws[j as int].1@;
            assert forall|k: Seq<u8>| true implies #[trigger] assoc_has_key(ws.take(j + 1), k)
                <==> (assoc_has_key(ws.take(j as int), k) || kj == k) by {
                lemma_assoc_take_step(ws, j as int, k);
            }
            assert forall|k: Seq<u8>| #[trigger] assoc_has_key(ws.take(j + 1), k) implies {
                &&& 0 <= assoc_index_of(ws.take(j + 1), k) < j + 1
                &&& ws.take(j + 1)[assoc_index_of(ws.take(j + 1), k)].0@ == k
            } by {
                let x = assoc_index_of(ws.take(j + 1), k);
                assert(0 <= x < j + 1 && ws.take(j + 1)[x].0@ == k);
            }
            assert(pre.insert(kj, vj) =~= Map::new(
                |k: Seq<u8>|
                    assoc_has_key(ws.take(j + 1), k) || mid.contains_key(k),
                |k: Seq<u8>|
                    if assoc_has_key(ws.take(j + 1), k) {
                        ws.take(j + 1)[assoc_index_of(ws.take(j + 1), k)].1@
                    } else {
                        mid[k]
                    },
            )) by {
                assert forall|k: Seq<u8>| assoc_has_key(ws.take(j + 1), k) && k != kj implies {
                    &&& assoc_has_key(ws.take(j as int), k)
                    &&& ws.take(j + 1)[assoc_index_of(ws.take(j + 1), k)].1@ == ws.take(
                        j as int,
                    )[assoc_index_of(ws.take(j as int), k)].1@
                } by {
                    let x = assoc_index_of(ws.take(j + 1), k);
                    assert(ws.take(j + 1)[x] == ws[x]);
                    assert(x != j);
                    assert(ws.take(j as int)[x] == ws[x]);
                    assert(assoc_has_key(ws.take(j as int), k));
                    let y = assoc_index_of(ws.take(j as int), k);
                    assert(ws.take(j as int)[y] == ws[y]);
                    assert(y == x);
                }
                assert(assoc_has_key(ws.take(j + 1), kj));
                assert(ws.take(j + 1)[assoc_index_of(ws.take(j + 1), kj)].1@ == vj) by {
                    let x = assoc_index_of(ws.take(j + 1), kj);
                    assert(ws.take(j + 1)[x] == ws[x]);
                    assert(x == j);
                }
            }
        }
        j = j + 1;
    }
    proof {
        assert(ws.take(m as int) =~= ws);
        assert forall|k: Seq<u8>| #[trigger] assoc_has_key(ws, k) <==> wmap.contains_key(k) by {
        }
        assert forall|k: Seq<u8>| assoc_has_key(ws, k) implies ws[assoc_index_of(ws, k)].1@
            == wmap[k] by {
        }
        assert(store.contents() =~= apply_overlay(base, wmap, dmap));
    }
    Ok(())
}

/// A deterministic state machine over a store.
pub trait StateMachine: Sized {
    /// The action a step consumes.
    type Action;

    /// What a successful step produces.
    type Outcome;

    /// Apply one action against the store.
    fn step<S2: StoreWrite>(&mut self, action: Self::Action, store: &mut S2) -> (r: Result<
        Self::Outcome,
        Error,
    >)
        requires
            old(store).writable(),
    ;

    /// Apply one action atomically: run the step against a buffered overlay
    /// of the store, and apply the collected writes only when the step
    /// succeeds. A failing step leaves the store exactly as it was.
    fn step_flush<S2: StoreWrite>(&mut self, action: Self::Action, store: &mut S2) -> (r: Result<
        Self::Outcome,
        Error,
    >)
        requires
            old(store).writable(),
        ensures
            final(store).writable(),
            r matches Err(_) ==> final(store).contents() == old(store).contents(),
    {
        let mut staged = Staged::new(&*store);
        match self.step(action, &mut staged) {
            Err(err) => Err(err),
            Ok(res) => {
                let (writes, deletes) = staged.into_parts();
                let _ = apply_changes(store, writes, deletes);
                Ok(res)
            },
        }
    }
}

} // verus!
