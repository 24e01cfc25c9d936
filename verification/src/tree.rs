//! The store: an ordered map from byte strings to byte strings, held in
//! memory. Keys are ordered byte by byte.

use crate::batch::Batch;
use crate::ivec::{option_view, option_wf, IVec};
use crate::order::same;
use crate::sorted::{
    greatest_below, greatest_key, least_above, least_key, none_above, none_below, SortedMap,
};
use vstd::prelude::*;

verus! {

/// The bytes of an optional slice.
pub open spec fn slice_view(s: Option<&[u8]>) -> Option<Seq<u8>> {
    match s {
        Some(b) => Some(b@),
        None => None,
    }
}

/// What `m` holds under `k`, if anything.
pub open spec fn lookup(m: Map<Seq<u8>, Seq<u8>>, k: Seq<u8>) -> Option<Seq<u8>> {
    if m.contains_key(k) {
        Some(m[k])
    } else {
        None
    }
}

/// `m` with `k` set to `v`, or without `k` where `v` is `None`.
pub open spec fn store(m: Map<Seq<u8>, Seq<u8>>, k: Seq<u8>, v: Option<Seq<u8>>) -> Map<
    Seq<u8>,
    Seq<u8>,
> {
    match v {
        Some(bytes) => m.insert(k, bytes),
        None => m.remove(k),
    }
}

/// `m` after the writes `w`: a key that was written holds what was written
/// last, or is gone where that was a removal; any other key is as it was.
pub open spec fn apply_writes(
    m: Map<Seq<u8>, Seq<u8>>,
    w: Map<Seq<u8>, Option<Seq<u8>>>,
) -> Map<Seq<u8>, Seq<u8>> {
    Map::new(
        |k: Seq<u8>|
            if w.contains_key(k) {
                w[k] is Some
            } else {
                m.contains_key(k)
            },
        |k: Seq<u8>|
            if w.contains_key(k) {
                w[k]->0
            } else {
                m[k]
            },
    )
}

/// The writes of `w` to the first `i` of `keys`.
spec fn writes_before(
    w: Map<Seq<u8>, Option<Seq<u8>>>,
    keys: Seq<Seq<u8>>,
    i: int,
) -> Map<Seq<u8>, Option<Seq<u8>>> {
    Map::new(|k: Seq<u8>| exists|j: int| 0 <= j < i && keys[j] == k, |k: Seq<u8>| w[k])
}

/// A compare-and-swap that found another state than the one it expected.
#[derive(Debug)]
pub struct CompareAndSwapError {
    /// What the key held when the swap was tried.
    pub current: Option<IVec>,
    /// What the swap would have stored.
    pub proposed: Option<IVec>,
}

impl Clone for CompareAndSwapError {
    fn clone(&self) -> (r: Self)
        ensures
            option_view(r.current) == option_view(self.current),
            option_view(r.proposed) == option_view(self.proposed),
    {
        CompareAndSwapError {
            current: match &self.current {
                Some(v) => Some(v.clone()),
                None => None,
            },
            proposed: match &self.proposed {
                Some(v) => Some(v.clone()),
                None => None,
            },
        }
    }
}

/// An ordered map from byte strings to byte strings.
#[derive(Debug)]
pub struct Tree {
    entries: SortedMap<IVec>,
}

impl View for Tree {
    type V = Map<Seq<u8>, Seq<u8>>;

    closed spec fn view(&self) -> Map<Seq<u8>, Seq<u8>> {
        Map::new(|k: Seq<u8>| self.entries@.contains_key(k), |k: Seq<u8>| self.entries@[k]@)
    }
}

impl Tree {
    /// The representation invariant of the store: the keys ascend, and
    /// every key and every value is a well-formed buffer.
    pub closed spec fn wf(&self) -> bool {
        &&& self.entries.wf()
        &&& forall|k: Seq<u8>|
            self.entries@.contains_key(k) ==> (#[trigger] self.entries@[k]).wf()
    }

    /// The empty store.
    pub fn new() -> (r: Self)
        ensures
            r.wf(),
            r@ == Map::<Seq<u8>, Seq<u8>>::empty(),
    {
        let r = Tree { entries: SortedMap::new() };
        assert(r@ =~= Map::<Seq<u8>, Seq<u8>>::empty());
        r
    }

    /// The number of keys.
    pub fn len(&self) -> (n: usize)
        requires
            self.wf(),
        ensures
            self@.dom().finite(),
            n == self@.len(),
    {
        proof {
            self.entries.lemma_view();
            assert(self@.dom() =~= self.entries@.dom());
        }
        self.entries.len()
    }

    /// Whether the store holds no key.
    pub fn is_empty(&self) -> (r: bool)
        requires
            self.wf(),
        ensures
            r <==> self@ == Map::<Seq<u8>, Seq<u8>>::empty(),
    {
        let r = self.entries.first_position().is_none();
        proof {
            if r {
                assert(self@ =~= Map::<Seq<u8>, Seq<u8>>::empty());
            } else {
                assert(self.entries@.dom() =~= self@.dom());
                assert(self.entries@.dom() != Map::<Seq<u8>, IVec>::empty().dom());
            }
        }
        r
    }

    /// The value under `key`, if there is one.
    pub fn get(&self, key: &[u8]) -> (r: Option<IVec>)
        requires
            self.wf(),
        ensures
            option_view(r) == lookup(self@, key@),
            option_wf(r),
    {
        match self.entries.get(key) {
            Some(v) => Some(v.clone()),
            None => None,
        }
    }

    /// Whether there is a value under `key`.
    pub fn contains_key(&self, key: &[u8]) -> (r: bool)
        requires
            self.wf(),
        ensures
            r == self@.contains_key(key@),
    {
        self.entries.position(key).is_some()
    }

    /// Stores `value` under `key` and gives back what was there before.
    pub fn insert(&mut self, key: &[u8], value: IVec) -> (r: Option<IVec>)
        requires
            old(self).wf(),
        ensures
            final(self).wf(),
            final(self)@ == old(self)@.insert(key@, value@),
            option_view(r) == lookup(old(self)@, key@),
            option_wf(r),
    {
        let r = self.entries.insert(IVec::new(key), value.canonical());
        assert(self@ =~= old(self)@.insert(key@, value@));
        r
    }

    /// Removes `key` and gives back what was under it.
    pub fn remove(&mut self, key: &[u8]) -> (r: Option<IVec>)
        requires
            old(self).wf(),
        ensures
            final(self).wf(),
            final(self)@ == old(self)@.remove(key@),
            option_view(r) == lookup(old(self)@, key@),
            option_wf(r),
    {
        let r = self.entries.remove(key);
        assert(self@ =~= old(self)@.remove(key@));
        r
    }

    /// The entry at position `i`, as buffers of its own.
    fn entry_at(&self, i: usize) -> (r: (IVec, IVec))
        requires
            self.wf(),
            i < self.entries.keys().len(),
        ensures
            r.0@ == self.entries.keys()[i as int],
            self@.contains_key(r.0@),
            self@[r.0@] == r.1@,
            r.0.wf(),
            r.1.wf(),
    {
        (self.entries.key_at(i).clone(), self.entries.value_at(i).clone())
    }

    /// The store and its entries hold the same keys.
    proof fn lemma_same_keys(&self)
        ensures
            forall|k: Seq<u8>| self@.contains_key(k) <==> self.entries@.contains_key(k),
            self@ == Map::<Seq<u8>, Seq<u8>>::empty() <==> self.entries@ == Map::<
                Seq<u8>,
                IVec,
            >::empty(),
    {
        if self.entries@ == Map::<Seq<u8>, IVec>::empty() {
            assert(self@ =~= Map::<Seq<u8>, Seq<u8>>::empty());
        }
        if self@ == Map::<Seq<u8>, Seq<u8>>::empty() {
            assert forall|k: Seq<u8>| !self.entries@.contains_key(k) by {
                assert(!self@.contains_key(k));
            }
            assert(self.entries@ =~= Map::<Seq<u8>, IVec>::empty());
        }
    }

    /// The entry with the least key, if the store holds any.
    pub fn first(&self) -> (r: Option<(IVec, IVec)>)
        requires
            self.wf(),
        ensures
            r is None <==> self@ == Map::<Seq<u8>, Seq<u8>>::empty(),
            r matches Some(p) ==> least_key(self@, p.0@) && self@[p.0@] == p.1@ && p.0.wf()
                && p.1.wf(),
    {
        proof {
            self.lemma_same_keys();
        }
        match self.entries.first_position() {
            Some(i) => Some(self.entry_at(i)),
            None => None,
        }
    }

    /// The entry with the greatest key, if the store holds any.
    pub fn last(&self) -> (r: Option<(IVec, IVec)>)
        requires
            self.wf(),
        ensures
            r is None <==> self@ == Map::<Seq<u8>, Seq<u8>>::empty(),
            r matches Some(p) ==> greatest_key(self@, p.0@) && self@[p.0@] == p.1@ && p.0.wf()
                && p.1.wf(),
    {
        proof {
            self.lemma_same_keys();
        }
        match self.entries.last_position() {
            Some(i) => Some(self.entry_at(i)),
            None => None,
        }
    }

    /// The entry with the greatest key that comes before `key`, if there is
    /// one.
    pub fn get_lt(&self, key: &[u8]) -> (r: Option<(IVec, IVec)>)
        requires
            self.wf(),
        ensures
            r is None <==> none_below(self@, key@),
            r matches Some(p) ==> greatest_below(self@, p.0@, key@) && self@[p.0@] == p.1@
                && p.0.wf() && p.1.wf(),
    {
        proof {
            self.lemma_same_keys();
        }
        match self.entries.position_below(key) {
            Some(i) => Some(self.entry_at(i)),
            None => None,
        }
    }

    /// The entry with the least key that comes after `key`, if there is
    /// one.
    pub fn get_gt(&self, key: &[u8]) -> (r: Option<(IVec, IVec)>)
        requires
            self.wf(),
        ensures
            r is None <==> none_above(self@, key@),
            r matches Some(p) ==> least_above(self@, p.0@, key@) && self@[p.0@] == p.1@ && p.0.wf()
                && p.1.wf(),
    {
        proof {
            self.lemma_same_keys();
        }
        match self.entries.position_above(key) {
            Some(i) => Some(self.entry_at(i)),
            None => None,
        }
    }

    /// Removes the entry with the least key and gives it back.
    pub fn pop_min(&mut self) -> (r: Option<(IVec, IVec)>)
        requires
            old(self).wf(),
        ensures
            final(self).wf(),
            r is None <==> old(self)@ == Map::<Seq<u8>, Seq<u8>>::empty(),
            r is None ==> final(self)@ == old(self)@,
            r matches Some(p) ==> least_key(old(self)@, p.0@) && old(self)@[p.0@] == p.1@
                && p.0.wf() && p.1.wf() && final(self)@ == old(self)@.remove(p.0@),
    {
        proof {
            self.lemma_same_keys();
        }
        match self.entries.first_position() {
            Some(i) => {
                let p = self.entries.remove_at(i);
                assert(self@ =~= old(self)@.remove(p.0@));
                Some(p)
            },
            None => None,
        }
    }

    /// Removes the entry with the greatest key and gives it back.
    pub fn pop_max(&mut self) -> (r: Option<(IVec, IVec)>)
        requires
            old(self).wf(),
        ensures
            final(self).wf(),
            r is None <==> old(self)@ == Map::<Seq<u8>, Seq<u8>>::empty(),
            r is None ==> final(self)@ == old(self)@,
            r matches Some(p) ==> greatest_key(old(self)@, p.0@) && old(self)@[p.0@] == p.1@
                && p.0.wf() && p.1.wf() && final(self)@ == old(self)@.remove(p.0@),
    {
        proof {
            self.lemma_same_keys();
        }
        match self.entries.last_position() {
            Some(i) => {
                let p = self.entries.remove_at(i);
                assert(self@ =~= old(self)@.remove(p.0@));
                Some(p)
            },
            None => None,
        }
    }

    /// Sets `key` to `proposed` if it now holds `expected`, `None` standing for no
    /// value in both. Where it holds something else nothing changes, and
    /// the error tells what it holds and what was proposed.
    pub fn compare_and_swap(&mut self, key: &[u8], expected: Option<&[u8]>, proposed: Option<IVec>) -> (r:
        Result<(), CompareAndSwapError>)
        requires
            old(self).wf(),
        ensures
            final(self).wf(),
            r is Ok <==> lookup(old(self)@, key@) == slice_view(expected),
            r is Ok ==> final(self)@ == store(old(self)@, key@, option_view(proposed)),
            r matches Err(e) ==> final(self)@ == old(self)@ && option_view(e.current) == lookup(
                old(self)@,
                key@,
            ) && e.proposed == proposed && option_wf(e.current),
    {
        let current = self.get(key);
        let matches = match (&current, expected) {
            (Some(c), Some(o)) => same(c.as_ref(), o),
            (None, None) => true,
            _ => false,
        };
        if matches {
            match proposed {
                Some(v) => {
                    let _ = self.insert(key, v);
                },
                None => {
                    let _ = self.remove(key);
                },
            }
            Ok(())
        } else {
            Err(CompareAndSwapError { current, proposed })
        }
    }

    /// Applies every write of `batch`: stores what it stores and removes
    /// what it removes.
    pub fn apply_batch(&mut self, batch: Batch)
        requires
            old(self).wf(),
            batch.wf(),
        ensures
            final(self).wf(),
            final(self)@ == apply_writes(old(self)@, batch@),
    {
        let n = batch.len();
        let mut i: usize = 0;
        proof {
            batch.lemma_keys();
            assert(self@ =~= apply_writes(self@, writes_before(batch@, batch.keys(), 0)));
        }
        while i < n
            invariant
                self.wf(),
                batch.wf(),
                n == batch.keys().len(),
                i <= n,
                self@ == apply_writes(old(self)@, writes_before(batch@, batch.keys(), i as int)),
            decreases n - i,
        {
            let ghost before = self@;
            let ghost key = batch.keys()[i as int];
            let k = batch.key_at(i);
            match batch.write_at(i) {
                Some(v) => {
                    let _ = self.insert(k.as_ref(), v.clone());
                },
                None => {
                    let _ = self.remove(k.as_ref());
                },
            }
            proof {
                assert(self@ == store(before, key, batch@[key]));
                let next = writes_before(batch@, batch.keys(), i as int + 1);
                let prev = writes_before(batch@, batch.keys(), i as int);
                assert(next.contains_key(key));
                assert forall|o: Seq<u8>| o != key implies (next.contains_key(o)
                    <==> prev.contains_key(o)) by {
                    if next.contains_key(o) {
                        let j = choose|j: int| 0 <= j < i + 1 && batch.keys()[j] == o;
                        assert(0 <= j < i && batch.keys()[j] == o);
                    }
                }
                assert(self@ =~= apply_writes(old(self)@, next));
            }
            i += 1;
        }
        proof {
            batch.lemma_keys();
            assert(writes_before(batch@, batch.keys(), n as int) =~= batch@) by {
                assert forall|o: Seq<u8>| batch@.contains_key(o) implies writes_before(
                    batch@,
                    batch.keys(),
                    n as int,
                ).contains_key(o) by {
                    let j = batch.keys().index_of(o);
                    assert(0 <= j < n && batch.keys()[j] == o);
                }
            }
        }
    }
}

impl Default for Tree {
    fn default() -> (r: Self)
        ensures
            r.wf(),
            r@ == Map::<Seq<u8>, Seq<u8>>::empty(),
    {
        Tree::new()
    }
}

} // verus!
