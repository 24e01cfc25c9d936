//! A batch of pending writes: for each key the last thing asked of it, a
//! value to store or a removal. A batch can be read before it is applied.

use crate::ivec::{option_wf, IVec};
use crate::sorted::{lemma_ascending_is_unique, SortedMap};
use vstd::prelude::*;

verus! {

/// What a batch holds for a key, as bytes: `Some` of the bytes to store, or
/// `None` where the key is to be removed.
pub open spec fn write_view(w: Option<IVec>) -> Option<Seq<u8>> {
    match w {
        Some(v) => Some(v@),
        None => None,
    }
}

/// What a write that is only borrowed holds, as bytes.
pub open spec fn borrowed_write_view(w: Option<&IVec>) -> Option<Seq<u8>> {
    match w {
        Some(v) => Some(v@),
        None => None,
    }
}

/// Pending writes, one for each key that was written, in the order of the
/// keys.
#[derive(Debug)]
pub struct Batch {
    writes: SortedMap<Option<IVec>>,
}

impl View for Batch {
    type V = Map<Seq<u8>, Option<Seq<u8>>>;

    closed spec fn view(&self) -> Map<Seq<u8>, Option<Seq<u8>>> {
        Map::new(
            |k: Seq<u8>| self.writes@.contains_key(k),
            |k: Seq<u8>| write_view(self.writes@[k]),
        )
    }
}

impl Batch {
    /// The representation invariant of the batch: the keys ascend, and
    /// every key and every value to store is a well-formed buffer.
    pub closed spec fn wf(&self) -> bool {
        &&& self.writes.wf()
        &&& forall|k: Seq<u8>|
            self.writes@.contains_key(k) ==> option_wf(#[trigger] self.writes@[k])
    }

    /// The keys that were written, in order.
    pub closed spec fn keys(&self) -> Seq<Seq<u8>> {
        self.writes.keys()
    }

    /// The keys of the batch are those that its map holds.
    pub(crate) proof fn lemma_keys(&self)
        requires
            self.wf(),
        ensures
            self@.dom().finite(),
            self@.len() == self.keys().len(),
            forall|i: int| 0 <= i < self.keys().len() ==> self@.contains_key(#[trigger] self.keys()[i]),
            forall|k: Seq<u8>| #[trigger] self@.contains_key(k) ==> self.keys().contains(k),
    {
        self.writes.lemma_view();
        assert(self@.dom() =~= self.writes@.dom());
        assert forall|k: Seq<u8>| #[trigger] self@.contains_key(k) implies self.keys().contains(
            k,
        ) by {
            let i = self.keys().index_of(k);
            assert(self.keys()[i] == k);
        }
    }

    /// The writes in the order of their keys: each key with what is written
    /// to it, bytes to store or `None` for a removal.
    pub closed spec fn entries(&self) -> Seq<(Seq<u8>, Option<Seq<u8>>)> {
        Seq::new(
            self.writes.keys().len(),
            |i: int| (self.writes.keys()[i], self.writes.value_views()[i]),
        )
    }

    /// The entries are the keys with what the map holds for them.
    proof fn lemma_entries(&self, other: &Self)
        ensures
            self.entries() == other.entries() <==> self.writes.keys() == other.writes.keys()
                && self.writes.value_views() == other.writes.value_views(),
    {
        self.writes.lemma_value_views();
        other.writes.lemma_value_views();
        if self.entries() == other.entries() {
            assert(self.writes.keys().len() == self.entries().len());
            assert(other.writes.keys().len() == other.entries().len());
            assert forall|i: int| 0 <= i < self.writes.keys().len() implies self.writes.keys()[i]
                == other.writes.keys()[i] && self.writes.value_views()[i]
                == other.writes.value_views()[i] by {
                assert(self.entries()[i] == other.entries()[i]);
            }
            assert(self.writes.keys() =~= other.writes.keys());
            assert(self.writes.value_views() =~= other.writes.value_views());
        }
        if self.writes.keys() == other.writes.keys() && self.writes.value_views()
            == other.writes.value_views() {
            assert(self.entries() =~= other.entries());
        }
    }

    /// Two well-formed batches hold the same entries exactly when they are
    /// the same map of writes.
    pub proof fn lemma_entries_settle_the_map(&self, other: &Self)
        requires
            self.wf(),
            other.wf(),
        ensures
            self.entries() == other.entries() <==> self@ == other@,
    {
        self.lemma_entries(other);
        self.writes.lemma_view();
        other.writes.lemma_view();
        self.writes.lemma_value_views();
        other.writes.lemma_value_views();
        let keys = self.writes.keys();
        let others = other.writes.keys();
        if self.entries() == other.entries() {
            assert forall|k: Seq<u8>| self@.contains_key(k) implies self@[k] == other@[k] by {
                let i = keys.index_of(k);
                assert(self.writes@[k] == self.writes.values()[i]);
                assert(other.writes@[k] == other.writes.values()[i]);
                assert(self.writes.value_views()[i] == other.writes.value_views()[i]);
            }
            assert(self@ =~= other@);
        }
        if self@ == other@ {
            assert forall|k: Seq<u8>| keys.contains(k) <==> others.contains(k) by {
                assert(self@.contains_key(k) == other@.contains_key(k));
                if keys.contains(k) {
                    let i = keys.index_of(k);
                    assert(self.writes@.contains_key(keys[i]));
                }
                if others.contains(k) {
                    let i = others.index_of(k);
                    assert(other.writes@.contains_key(others[i]));
                }
                if self.writes@.contains_key(k) {
                    assert(keys[keys.index_of(k)] == k);
                }
                if other.writes@.contains_key(k) {
                    assert(others[others.index_of(k)] == k);
                }
            }
            self.writes.lemma_keys_ascend();
            other.writes.lemma_keys_ascend();
            lemma_ascending_is_unique(keys, others);
            assert forall|i: int| 0 <= i < keys.len() implies self.writes.value_views()[i]
                == other.writes.value_views()[i] by {
                let k = keys[i];
                assert(self.writes@.contains_key(k) && self.writes@[k] == self.writes.values()[i]);
                assert(other.writes@.contains_key(others[i]) && other.writes@[others[i]]
                    == other.writes.values()[i]);
                assert(self@[k] == other@[k]);
            }
            assert(self.writes.value_views() =~= other.writes.value_views());
        }
    }

    /// Whether both batches hold the same entries.
    pub fn same_entries(&self, other: &Self) -> (r: bool)
        ensures
            r == (self.entries() == other.entries()),
    {
        proof {
            self.lemma_entries(other);
        }
        self.writes.same_entries(&other.writes)
    }

    /// The batch without any write.
    pub fn new() -> (r: Self)
        ensures
            r.wf(),
            r@ == Map::<Seq<u8>, Option<Seq<u8>>>::empty(),
    {
        let r = Batch { writes: SortedMap::new() };
        assert(r@ =~= Map::<Seq<u8>, Option<Seq<u8>>>::empty());
        r
    }

    /// Asks for `value` to be stored under `key`. An earlier write to the
    /// key is forgotten.
    pub fn insert(&mut self, key: IVec, value: IVec)
        requires
            old(self).wf(),
            key.wf(),
        ensures
            final(self).wf(),
            final(self)@ == old(self)@.insert(key@, Some(value@)),
    {
        let _ = self.writes.insert(key, Some(value.canonical()));
        assert(self@ =~= old(self)@.insert(key@, Some(value@)));
    }

    /// Asks for `key` to be removed. An earlier write to the key is
    /// forgotten.
    pub fn remove(&mut self, key: IVec)
        requires
            old(self).wf(),
            key.wf(),
        ensures
            final(self).wf(),
            final(self)@ == old(self)@.insert(key@, None),
    {
        let _ = self.writes.insert(key, None);
        assert(self@ =~= old(self)@.insert(key@, None));
    }

    /// What the batch holds for `key`: `None` where the key was not written,
    /// `Some(None)` where it is to be removed, `Some(Some(v))` where `v` is
    /// to be stored.
    pub fn get(&self, key: &[u8]) -> (r: Option<Option<&IVec>>)
        requires
            self.wf(),
        ensures
            r is Some <==> self@.contains_key(key@),
            r matches Some(w) ==> borrowed_write_view(w) == self@[key@],
            r matches Some(Some(v)) ==> v.wf(),
    {
        match self.writes.get(key) {
            Some(w) => Some(w.as_ref()),
            None => None,
        }
    }

    /// The number of keys that were written.
    pub fn len(&self) -> (n: usize)
        requires
            self.wf(),
        ensures
            n == self.keys().len(),
            n == self@.len(),
    {
        proof {
            self.lemma_keys();
        }
        self.writes.len()
    }

    /// The key of the write at position `i`.
    pub fn key_at(&self, i: usize) -> (k: &IVec)
        requires
            self.wf(),
            i < self.keys().len(),
        ensures
            k@ == self.keys()[i as int],
            k.wf(),
    {
        self.writes.key_at(i)
    }

    /// The write at position `i`: the value to store, or `None` for a
    /// removal.
    pub fn write_at(&self, i: usize) -> (w: Option<&IVec>)
        requires
            self.wf(),
            i < self.keys().len(),
        ensures
            self@.contains_key(self.keys()[i as int]),
            borrowed_write_view(w) == self@[self.keys()[i as int]],
            w matches Some(v) ==> v.wf(),
    {
        self.writes.value_at(i).as_ref()
    }
}

impl Clone for Batch {
    /// Another batch of the same writes, made of further handles to the
    /// same buffers.
    fn clone(&self) -> (r: Self)
        ensures
            r@ == self@,
            r.entries() == self.entries(),
            self.wf() ==> r.wf(),
    {
        let r = Batch { writes: self.writes.share() };
        proof {
            r.lemma_entries(self);
            assert(r@ =~= self@);
        }
        r
    }
}

impl Default for Batch {
    fn default() -> (r: Self)
        ensures
            r.wf(),
            r@ == Map::<Seq<u8>, Option<Seq<u8>>>::empty(),
    {
        Batch::new()
    }
}

} // verus!
