//! The versioned store: an ordered mapping from version to key record,
//! together with a counter holding the highest version ever issued.
//!
//! Versions are assigned by the store at insertion time, strictly increasing,
//! and never reused: dropping a record retires its version permanently
//! (tombstone semantics), so the counter may exceed the highest version still
//! present.

use vstd::prelude::*;

verus! {

/// Failure of a store operation.
///
/// The store's internal state is plainly owned, so no operation can actually
/// observe a poisoned lock; the variant is kept so that callers written
/// against the fallible interface keep compiling, and every operation
/// promises in its contract that it never returns it.
#[derive(Debug)]
pub enum Error {
    Poisoned,
}

/// A read-only pairing of a version with a copy of the record stored at it.
pub struct VersionedKey<T>(pub u64, pub T);

impl<T> VersionedKey<T> {
    /// The version half of the pair.
    pub fn version(&self) -> (r: &u64)
        ensures
            *r == self.0,
    {
        &self.0
    }

    /// The record half of the pair.
    pub fn record(&self) -> (r: &T)
        ensures
            *r == self.1,
    {
        &self.1
    }
}

/// The mapping a sequence of `(version, record)` entries stands for.
pub open spec fn map_of<K>(es: Seq<(u64, K)>) -> Map<u64, K>
    decreases es.len(),
{
    if es.len() == 0 {
        Map::empty()
    } else {
        map_of(es.drop_last()).insert(es.last().0, es.last().1)
    }
}

/// Well-formedness of a store snapshot: entries are sorted by strictly
/// increasing version, and every version lies between 1 and the counter.
pub open spec fn entries_wf<K>(es: Seq<(u64, K)>, counter: u64) -> bool {
    &&& forall|i: int, j: int| 0 <= i < j < es.len() ==> (#[trigger] es[i]).0 < (#[trigger] es[j]).0
    &&& forall|i: int| 0 <= i < es.len() ==> 1 <= (#[trigger] es[i]).0 <= counter
}

proof fn lemma_map_of_contains<K>(es: Seq<(u64, K)>, v: u64)
    ensures
        map_of(es).contains_key(v) <==> exists|i: int| 0 <= i < es.len() && (#[trigger] es[i]).0 == v,
    decreases es.len(),
{
    if es.len() > 0 {
        lemma_map_of_contains(es.drop_last(), v);
        if map_of(es).contains_key(v) && es.last().0 != v {
            let i = choose|i: int| 0 <= i < es.drop_last().len() && (#[trigger] es.drop_last()[i]).0 == v;
            assert(es[i].0 == v);
        }
        if exists|i: int| 0 <= i < es.len() && (#[trigger] es[i]).0 == v {
            let i = choose|i: int| 0 <= i < es.len() && (#[trigger] es[i]).0 == v;
            if i < es.len() - 1 {
                assert(es.drop_last()[i].0 == v);
            }
        }
    }
}

proof fn lemma_map_of_index<K>(es: Seq<(u64, K)>, i: int)
    requires
        forall|p: int, q: int| 0 <= p < q < es.len() ==> (#[trigger] es[p]).0 != (#[trigger] es[q]).0,
        0 <= i < es.len(),
    ensures
        map_of(es).contains_key(es[i].0),
        map_of(es)[es[i].0] == es[i].1,
    decreases es.len(),
{
    if i == es.len() - 1 {
        assert(map_of(es) == map_of(es.drop_last()).insert(es.last().0, es.last().1));
    } else {
        lemma_map_of_index(es.drop_last(), i);
        assert(es.drop_last()[i] == es[i]);
        assert(es[i].0 != es.last().0);
    }
}

proof fn lemma_map_of_push<K>(es: Seq<(u64, K)>, e: (u64, K))
    ensures
        map_of(es.push(e)) == map_of(es).insert(e.0, e.1),
{
    assert(es.push(e).drop_last() =~= es);
    assert(es.push(e).last() == e);
}

proof fn lemma_map_of_absent_remove<K>(es: Seq<(u64, K)>, v: u64)
    requires
        forall|i: int| 0 <= i < es.len() ==> (#[trigger] es[i]).0 != v,
    ensures
        map_of(es).remove(v) == map_of(es),
{
    lemma_map_of_contains(es, v);
    assert(map_of(es).remove(v) =~= map_of(es));
}

proof fn lemma_map_of_remove<K>(es: Seq<(u64, K)>, i: int)
    requires
        forall|p: int, q: int| 0 <= p < q < es.len() ==> (#[trigger] es[p]).0 != (#[trigger] es[q]).0,
        0 <= i < es.len(),
    ensures
        map_of(es.remove(i)) == map_of(es).remove(es[i].0),
    decreases es.len(),
{
    let v = es[i].0;
    if i == es.len() - 1 {
        assert(es.remove(i) =~= es.drop_last());
        assert(forall|j: int| 0 <= j < es.drop_last().len() ==> (#[trigger] es.drop_last()[j]).0 != v);
        lemma_map_of_absent_remove(es.drop_last(), v);
        assert(map_of(es).remove(v) =~= map_of(es.drop_last()).insert(v, es.last().1).remove(v));
        assert(map_of(es.drop_last()).insert(v, es.last().1).remove(v) =~= map_of(es.drop_last()).remove(v));
    } else {
        let last = es.last();
        assert(es.remove(i).drop_last() =~= es.drop_last().remove(i));
        assert(es.remove(i).last() == last);
        lemma_map_of_remove(es.drop_last(), i);
        assert(es.drop_last()[i] == es[i]);
        assert(map_of(es.remove(i)) == map_of(es.drop_last()).remove(v).insert(last.0, last.1));
        assert(last.0 != v);
        assert(map_of(es.drop_last()).remove(v).insert(last.0, last.1)
            =~= map_of(es.drop_last()).insert(last.0, last.1).remove(v));
    }
}

/// The versioned store: an ordered collection of `(version, record)` entries
/// plus the highest version ever issued.
pub struct Local<KeyType> {
    store: Vec<(u64, KeyType)>,
    count: u64,
}

impl<KeyType> Local<KeyType> {
    /// The highest version ever issued by this store.
    pub closed spec fn counter(&self) -> u64 {
        self.count
    }

    /// The entries currently present, sorted by version.
    pub closed spec fn entries(&self) -> Seq<(u64, KeyType)> {
        self.store@
    }

    /// The mapping from version to record currently present.
    pub open spec fn snapshot(&self) -> Map<u64, KeyType> {
        map_of(self.entries())
    }

    /// Store invariant: entries sorted by strictly increasing version, every
    /// present version between 1 and the counter.
    pub open spec fn wf(&self) -> bool {
        entries_wf(self.entries(), self.counter())
    }

    /// A fresh, empty store; the counter starts at 0.
    pub fn new() -> (r: Self)
        ensures
            r.wf(),
            r.counter() == 0,
            r.entries() =~= Seq::<(u64, KeyType)>::empty(),
            r.snapshot() =~= Map::<u64, KeyType>::empty(),
    {
        Local { store: Vec::new(), count: 0 }
    }

    /// Rebuilds a store from a persisted snapshot: the counter and the
    /// ordered entry list.
    pub fn from_parts(count: u64, store: Vec<(u64, KeyType)>) -> (r: Self)
        requires
            entries_wf(store@, count),
        ensures
            r.wf(),
            r.counter() == count,
            r.entries() == store@,
    {
        Local { store, count }
    }

    /// A borrowed view of the full ordered entry list, for bulk iteration
    /// without per-entry copying.
    pub fn store_reader(&self) -> (r: Result<&Vec<(u64, KeyType)>, Error>)
        ensures
            r matches Ok(v) && v@ == self.entries(),
    {
        Ok(&self.store)
    }

    /// The highest version ever issued. Never errs.
    pub fn count(&self) -> (r: Result<u64, Error>)
        ensures
            r matches Ok(c) && c == self.counter(),
    {
        Ok(self.count)
    }

    /// Inserts `key` at the next version, `counter + 1`, and commits the new
    /// counter value. Never errs.
    pub fn update(&mut self, key: KeyType) -> (r: Result<(), Error>)
        requires
            old(self).wf(),
            old(self).counter() < u64::MAX,
        ensures
            r is Ok,
            final(self).wf(),
            final(self).counter() == old(self).counter() + 1,
            final(self).entries() == old(self).entries().push((final(self).counter(), key)),
            final(self).snapshot() == old(self).snapshot().insert(final(self).counter(), key),
    {
        let new_version = self.count + 1;
        self.store.push((new_version, key));
        self.count = new_version;
        proof {
            lemma_map_of_push(old(self).entries(), (new_version, key));
        }
        Ok(())
    }

    /// Removes the entry at `version` if present and returns the removed
    /// record; the counter is untouched, so the version stays retired.
    /// Never errs.
    pub fn drop(&mut self, version: &u64) -> (r: Result<Option<KeyType>, Error>)
        requires
            old(self).wf(),
        ensures
            final(self).wf(),
            final(self).counter() == old(self).counter(),
            final(self).snapshot() == old(self).snapshot().remove(*version),
            match r {
                Ok(Some(k)) => old(self).snapshot().contains_key(*version)
                    && k == old(self).snapshot()[*version],
                Ok(None) => !old(self).snapshot().contains_key(*version),
                Err(_) => false,
            },
    {
        let ghost es = self.entries();
        let n = self.store.len();
        for i in 0..n
            invariant
                n == es.len(),
                es == old(self).entries(),
                self.store@ == es,
                self.count == old(self).counter(),
                entries_wf(es, self.count),
                forall|j: int| 0 <= j < i ==> (#[trigger] es[j]).0 != *version,
        {
            if self.store[i].0 == *version {
                proof {
                    assert forall|p: int, q: int| 0 <= p < q < es.len()
                        implies (#[trigger] es[p]).0 != (#[trigger] es[q]).0 by {
                        assert(es[p].0 < es[q].0);
                    }
                    lemma_map_of_remove(es, i as int);
                    lemma_map_of_index(es, i as int);
                }
                let (_, k) = self.store.remove(i);
                proof {
                    assert(self.store@ =~= es.remove(i as int));
                    assert forall|p: int, q: int| 0 <= p < q < self.store@.len()
                        implies (#[trigger] self.store@[p]).0 < (#[trigger] self.store@[q]).0 by {
                        if q < i {
                            assert(self.store@[p] == es[p] && self.store@[q] == es[q]);
                        } else if p < i {
                            assert(self.store@[p] == es[p] && self.store@[q] == es[q + 1]);
                        } else {
                            assert(self.store@[p] == es[p + 1] && self.store@[q] == es[q + 1]);
                        }
                    }
                }
                return Ok(Some(k));
            }
        }
        proof {
            lemma_map_of_contains(es, *version);
            lemma_map_of_absent_remove(es, *version);
        }
        Ok(None)
    }
}

impl<KeyType> Local<KeyType> where KeyType: Clone {
    /// A copy of the record at `version`, or `None` if that version is not
    /// present. Never errs.
    pub fn get(&self, version: &u64) -> (r: Result<Option<KeyType>, Error>)
        requires
            self.wf(),
        ensures
            match r {
                Ok(Some(k)) => self.snapshot().contains_key(*version)
                    && cloned(self.snapshot()[*version], k),
                Ok(None) => !self.snapshot().contains_key(*version),
                Err(_) => false,
            },
    {
        let ghost es = self.entries();
        let n = self.store.len();
        for i in 0..n
            invariant
                n == es.len(),
                self.store@ == es,
                entries_wf(es, self.counter()),
                forall|j: int| 0 <= j < i ==> (#[trigger] es[j]).0 != *version,
        {
            if self.store[i].0 == *version {
                let k = self.store[i].1.clone();
                proof {
                    lemma_map_of_index(es, i as int);
                }
                return Ok(Some(k));
            }
        }
        proof {
            lemma_map_of_contains(es, *version);
        }
        Ok(None)
    }

    /// Like [`Self::get`], but pairs the copy with the version looked up.
    /// Never errs.
    pub fn get_version(&self, version: &u64) -> (r: Result<Option<VersionedKey<KeyType>>, Error>)
        requires
            self.wf(),
        ensures
            match r {
                Ok(Some(vk)) => vk.0 == *version && self.snapshot().contains_key(*version)
                    && cloned(self.snapshot()[*version], vk.1),
                Ok(None) => !self.snapshot().contains_key(*version),
                Err(_) => false,
            },
    {
        match self.get(version) {
            Ok(Some(k)) => Ok(Some(VersionedKey(*version, k))),
            Ok(None) => Ok(None),
            Err(e) => Err(e),
        }
    }

    /// A copy of the record at the maximum version currently present, or
    /// `None` if the store is empty. The maximum present version may be lower
    /// than the counter if the latest record was dropped. Never errs.
    pub fn latest(&self) -> (r: Result<Option<KeyType>, Error>)
        requires
            self.wf(),
        ensures
            match r {
                Ok(Some(k)) => self.entries().len() > 0
                    && self.snapshot().contains_key(self.entries().last().0)
                    && cloned(self.snapshot()[self.entries().last().0], k)
                    && (forall|w: u64| self.snapshot().contains_key(w) ==> w <= self.entries().last().0),
                Ok(None) => self.entries().len() == 0,
                Err(_) => false,
            },
    {
        match self.latest_version() {
            Ok(Some(vk)) => Ok(Some(vk.1)),
            Ok(None) => Ok(None),
            Err(e) => Err(e),
        }
    }

    /// The maximum version currently present together with a copy of its
    /// record, or `None` if the store is empty. Never errs.
    pub fn latest_version(&self) -> (r: Result<Option<VersionedKey<KeyType>>, Error>)
        requires
            self.wf(),
        ensures
            match r {
                Ok(Some(vk)) => self.entries().len() > 0 && vk.0 == self.entries().last().0
                    && self.snapshot().contains_key(vk.0)
                    && cloned(self.snapshot()[vk.0], vk.1)
                    && (forall|w: u64| self.snapshot().contains_key(w) ==> w <= vk.0),
                Ok(None) => self.entries().len() == 0,
                Err(_) => false,
            },
    {
        let n = self.store.len();
        if n == 0 {
            return Ok(None);
        }
        let (v, k) = (self.store[n - 1].0, self.store[n - 1].1.clone());
        proof {
            let es = self.entries();
            lemma_map_of_index(es, es.len() - 1);
            assert forall|w: u64| self.snapshot().contains_key(w) implies w <= es.last().0 by {
                lemma_map_of_contains(es, w);
                let i = choose|i: int| 0 <= i < es.len() && (#[trigger] es[i]).0 == w;
                assert(i == es.len() - 1 || es[i].0 < es[es.len() - 1].0);
            }
        }
        Ok(Some(VersionedKey(v, k)))
    }
}

/// A well-formed entry list cannot hold more entries than its counter:
/// versions are distinct, at least 1, and at most the counter.
pub proof fn lemma_entries_len_bounded<K>(es: Seq<(u64, K)>, c: u64)
    requires
        entries_wf(es, c),
    ensures
        es.len() <= c,
    decreases es.len(),
{
    if es.len() > 0 {
        let last = es.last();
        assert(es[es.len() - 1].0 <= c);
        assert forall|i: int| 0 <= i < es.drop_last().len()
            implies 1 <= (#[trigger] es.drop_last()[i]).0 <= last.0 - 1 by {
            assert(es.drop_last()[i] == es[i]);
            assert(es[i].0 < last.0);
        }
        assert forall|i: int, j: int| 0 <= i < j < es.drop_last().len()
            implies (#[trigger] es.drop_last()[i]).0 < (#[trigger] es.drop_last()[j]).0 by {
            assert(es.drop_last()[i] == es[i] && es.drop_last()[j] == es[j]);
        }
        assert(entries_wf(es.drop_last(), (last.0 - 1) as u64));
        lemma_entries_len_bounded(es.drop_last(), (last.0 - 1) as u64);
    }
}

/// Law: on a store whose present versions are exactly 1 through `counter`
/// (as on a fresh store after any run of `update` calls and no drops),
/// one more insertion at `counter + 1` keeps the versions exactly
/// 1 through `counter + 1`: assigned versions have no gaps and no
/// duplicates.
pub proof fn lemma_versions_stay_contiguous<K>(pre: Map<u64, K>, counter: u64, key: K)
    requires
        counter < u64::MAX,
        pre.dom() =~= Set::new(|v: u64| 1 <= v <= counter),
    ensures
        pre.insert((counter + 1) as u64, key).dom() =~= Set::new(|v: u64| 1 <= v <= counter + 1),
{
}

/// Law: a fresh store has no versions, matching a counter of 0.
pub proof fn lemma_fresh_versions_contiguous<K>()
    ensures
        Map::<u64, K>::empty().dom() =~= Set::new(|v: u64| 1 <= v <= 0),
{
}

/// Law: after dropping `version`, a lookup of `version` finds nothing.
/// (That the counter is unchanged by `drop` is part of `drop`'s contract.)
pub proof fn lemma_drop_then_get_not_found<K>(pre: Map<u64, K>, version: u64)
    ensures
        !pre.remove(version).contains_key(version),
{
}

} // verus!
