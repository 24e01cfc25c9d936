//! A batch of writes whose keys and values are typed: each goes through its
//! codec on the way in, and values come back tagged with theirs.

use crate::batch::Batch;
use crate::encoding::Encoder;
use crate::ivec::{option_view, option_wf, IVec};
use std::marker::PhantomData;
use vstd::prelude::*;

verus! {

/// A batch of writes to a store with keys under the codec `K` and values
/// under the codec `V`. The writes are applied together.
#[derive(Debug)]
pub struct TypedBatch<K, V> {
    pub(crate) batch: Batch,
    _k: PhantomData<K>,
    _v: PhantomData<V>,
}

impl<K, V> View for TypedBatch<K, V> {
    type V = Map<Seq<u8>, Option<Seq<u8>>>;

    closed spec fn view(&self) -> Map<Seq<u8>, Option<Seq<u8>>> {
        self.batch@
    }
}

impl<K, V> TypedBatch<K, V> {
    /// The representation invariant of the batch.
    pub closed spec fn wf(&self) -> bool {
        self.batch.wf()
    }

    /// The writes in the order of their keys: each key with what is written
    /// to it, bytes to store or `None` for a removal.
    pub closed spec fn entries(&self) -> Seq<(Seq<u8>, Option<Seq<u8>>)> {
        self.batch.entries()
    }

    /// Two well-formed batches hold the same entries exactly when they are
    /// the same map of writes.
    pub proof fn lemma_entries_settle_the_map(&self, other: &Self)
        requires
            self.wf(),
            other.wf(),
        ensures
            self.entries() == other.entries() <==> self@ == other@,
    {
        self.batch.lemma_entries_settle_the_map(&other.batch);
    }

    /// Whether both batches hold the same entries.
    pub fn same_entries(&self, other: &Self) -> (r: bool)
        ensures
            r == (self.entries() == other.entries()),
    {
        self.batch.same_entries(&other.batch)
    }

    /// The untyped batch that holds the writes.
    pub(crate) fn into_inner(self) -> (r: Batch)
        requires
            self.wf(),
        ensures
            r.wf(),
            r@ == self@,
    {
        self.batch
    }
}

impl<K, V> Clone for TypedBatch<K, V> {
    /// Another batch of the same writes, made of further handles to the
    /// same buffers.
    fn clone(&self) -> (r: Self)
        ensures
            r@ == self@,
            r.entries() == self.entries(),
            self.wf() ==> r.wf(),
    {
        TypedBatch { batch: self.batch.clone(), _k: PhantomData, _v: PhantomData }
    }
}

impl<K, V> Default for TypedBatch<K, V> {
    /// The batch without any write.
    fn default() -> (r: Self)
        ensures
            r.wf(),
            r@ == Map::<Seq<u8>, Option<Seq<u8>>>::empty(),
    {
        TypedBatch { batch: Batch::default(), _k: PhantomData, _v: PhantomData }
    }
}

impl<K, V> TypedBatch<K, V> where for <'a>K: Encoder<'a>, for <'a>V: Encoder<'a> {
    /// Sets a key to a new value.
    pub fn insert<'a, 'b>(&mut self, key: <K as Encoder<'a>>::In, value: <V as Encoder<'b>>::In)
        requires
            old(self).wf(),
        ensures
            final(self).wf(),
            final(self)@ == old(self)@.insert(
                <K as Encoder<'a>>::encoding(key),
                Some(<V as Encoder<'b>>::encoding(value)),
            ),
    {
        self.batch.insert(
            IVec::<K>::encode(key).into_encoding(),
            IVec::<V>::encode(value).into_encoding(),
        );
    }

    /// Removes a key.
    pub fn remove<'a>(&mut self, key: <K as Encoder<'a>>::In)
        requires
            old(self).wf(),
        ensures
            final(self).wf(),
            final(self)@ == old(self)@.insert(<K as Encoder<'a>>::encoding(key), None),
    {
        self.batch.remove(IVec::<K>::encode(key).into_encoding());
    }

    /// What the batch holds for a key: `None` where the key was not written,
    /// `Some(None)` where it is to be removed, `Some(Some(v))` where `v` is
    /// to be stored.
    pub fn get<'a>(&self, key: <K as Encoder<'a>>::In) -> (r: Option<Option<IVec<V>>>)
        requires
            self.wf(),
        ensures
            r is Some <==> self@.contains_key(<K as Encoder<'a>>::encoding(key)),
            r matches Some(w) ==> option_view(w) == self@[<K as Encoder<'a>>::encoding(key)]
                && option_wf(w),
    {
        let k = IVec::<K>::encode(key).into_encoding::<()>();
        match self.batch.get(k.as_ref()) {
            Some(Some(v)) => Some(Some(v.clone().into_encoding())),
            Some(None) => Some(None),
            None => None,
        }
    }
}

} // verus!
