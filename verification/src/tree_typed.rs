//! A store whose keys and values are typed. Keys go through their codec on
//! the way in; what comes out is a buffer tagged with the codec that
//! decodes it.

use crate::batch_typed::TypedBatch;
use crate::encoding::{AsBytes, Encoder};
use crate::ivec::{option_view, option_wf, IVec};
use crate::optimistic::settle;
use crate::sorted::{
    greatest_below, greatest_key, least_above, least_key, none_above, none_below,
};
use crate::tree::{apply_writes, lookup, store, Tree};
use std::marker::PhantomData;
use vstd::prelude::*;

verus! {

/// A compare-and-swap that found another state than the one it expected.
/// Both buffers are values, so both carry the tag of the value's codec `V`;
/// `K` is the codec of the key that the swap was tried on.
#[derive(Debug)]
pub struct TypedCompareAndSwapError<K, V> {
    /// What the key held when the swap was tried.
    pub current: Option<IVec<V>>,
    /// What the swap would have stored.
    pub proposed: Option<IVec<V>>,
    /// The codec of the key. It holds nothing.
    pub key: PhantomData<K>,
}

impl<K, V> TypedCompareAndSwapError<K, V> {
    /// The conflict of a swap that found `current` and would have stored
    /// `proposed`.
    pub fn new(current: Option<IVec<V>>, proposed: Option<IVec<V>>) -> (r: Self)
        ensures
            r.current == current,
            r.proposed == proposed,
    {
        TypedCompareAndSwapError { current, proposed, key: PhantomData }
    }

    /// What to tell a reader of the error.
    pub fn to_string(&self) -> (r: String)
        ensures
            r@ == "Compare and swap conflict"@,
    {
        "Compare and swap conflict".to_owned()
    }
}

impl<K, V> Clone for TypedCompareAndSwapError<K, V> {
    fn clone(&self) -> (r: Self)
        ensures
            option_view(r.current) == option_view(self.current),
            option_view(r.proposed) == option_view(self.proposed),
            option_wf(self.current) ==> option_wf(r.current),
            option_wf(self.proposed) ==> option_wf(r.proposed),
    {
        TypedCompareAndSwapError::new(share(&self.current), share(&self.proposed))
    }
}

/// The same optional buffer under another tag.
fn retag<A, B>(v: Option<IVec<A>>) -> (r: Option<IVec<B>>)
    ensures
        option_view(r) == option_view(v),
        option_wf(v) ==> option_wf(r),
{
    match v {
        Some(b) => Some(b.into_encoding()),
        None => None,
    }
}

/// Another handle to the same optional buffer, under another tag.
fn share<A, B>(v: &Option<IVec<A>>) -> (r: Option<IVec<B>>)
    ensures
        option_view(r) == option_view(*v),
        option_wf(*v) ==> option_wf(r),
{
    match v {
        Some(b) => Some(b.clone().into_encoding()),
        None => None,
    }
}

/// A key and its value, each under its tag.
fn retag_entry<K, V>(e: Option<(IVec, IVec)>) -> (r: Option<(IVec<K>, IVec<V>)>)
    ensures
        (match (e, r) {
            (Some(a), Some(b)) => b.0@ == a.0@ && b.1@ == a.1@ && (a.0.wf() ==> b.0.wf()) && (
            a.1.wf() ==> b.1.wf()),
            (None, None) => true,
            _ => false,
        }),
{
    match e {
        Some((k, v)) => Some((k.into_encoding(), v.into_encoding())),
        None => None,
    }
}

/// The bytes of an optional buffer.
fn bytes_of<A>(v: &Option<IVec<A>>) -> (r: Option<&[u8]>)
    ensures
        r is None <==> *v is None,
        r matches Some(s) ==> s@ == v->0@,
{
    match v {
        Some(b) => Some(b.as_ref()),
        None => None,
    }
}

/// Where an optimistic update of one key stands.
///
/// An update reads the value under the key, computes the next value from
/// it, and stores that by a compare-and-swap against the value it read. A
/// swap that finds another value sends the update back to computing, now
/// from the value found. The store is needed for the read and for the swap
/// only, so one that is shared can be let go of in between.
#[derive(Debug)]
pub enum UpdateState<V> {
    /// `current` was seen under the key; the next value is to be computed
    /// from it.
    Computing { current: Option<IVec<V>> },
    /// `next` was computed from `current`; the swap is to be tried.
    Swapping { current: Option<IVec<V>>, next: Option<IVec<V>> },
    /// The swap went through: the key held `previous` and now holds
    /// `stored`.
    Committed { previous: Option<IVec<V>>, stored: Option<IVec<V>> },
}

/// `f` can give `next` for the buffer `seen`, or for another buffer of the
/// same bytes.
pub open spec fn computed<V, F: Fn(Option<IVec<V>>) -> Option<IVec<V>>>(
    f: &F,
    seen: Option<IVec<V>>,
    next: Option<IVec<V>>,
) -> bool {
    computed_from(*f, option_view(seen), next)
}

/// `f` can be applied to any buffer that holds `bytes`, or to no buffer where
/// `bytes` is `None`.
pub open spec fn accepts<V, F: Fn(Option<IVec<V>>) -> Option<IVec<V>>>(
    f: F,
    bytes: Option<Seq<u8>>,
) -> bool {
    forall|seen: Option<IVec<V>>| option_view(seen) == bytes ==> #[trigger] f.requires((seen,))
}

/// `f` can give `next` for a buffer that holds `bytes`, or for no buffer
/// where `bytes` is `None`.
pub open spec fn computed_from<V, F: Fn(Option<IVec<V>>) -> Option<IVec<V>>>(
    f: F,
    bytes: Option<Seq<u8>>,
    next: Option<IVec<V>>,
) -> bool {
    exists|seen: Option<IVec<V>>| option_view(seen) == bytes && #[trigger] f.ensures((seen,), next)
}

impl<V> UpdateState<V> {
    /// Whether the update is done.
    pub fn is_committed(&self) -> (r: bool)
        ensures
            r == (*self is Committed),
    {
        match self {
            UpdateState::Committed { .. } => true,
            _ => false,
        }
    }

    /// Applies `f` to another handle of the value that was seen and goes on
    /// to swapping. A state that is not computing stays as it is, and `f`
    /// is not called. Nothing is asked of `f` but that it takes the value
    /// that was seen.
    pub fn compute<F>(self, f: &F) -> (r: Self) where F: Fn(Option<IVec<V>>) -> Option<IVec<V>>
        requires
            self is Computing ==> accepts(*f, option_view(self->Computing_current)),
        ensures
            self is Computing ==> r is Swapping && r->Swapping_current == self->Computing_current
                && computed(f, self->Computing_current, r->next),
            !(self is Computing) ==> r == self,
    {
        match self {
            UpdateState::Computing { current } => {
                let next = f(share(&current));
                UpdateState::Swapping { current, next }
            },
            other => other,
        }
    }
}

/// A store with keys under the codec `K` and values under the codec `V`.
#[derive(Debug)]
pub struct TypedTree<K, V> {
    tree: Tree,
    _k: PhantomData<K>,
    _v: PhantomData<V>,
}

impl<K, V> View for TypedTree<K, V> {
    type V = Map<Seq<u8>, Seq<u8>>;

    closed spec fn view(&self) -> Map<Seq<u8>, Seq<u8>> {
        self.tree@
    }
}

impl<K, V> std::ops::Deref for TypedTree<K, V> {
    type Target = Tree;

    /// The untyped store underneath.
    fn deref(&self) -> (r: &Tree)
        ensures
            r@ == self@,
            self.wf() ==> r.wf(),
    {
        &self.tree
    }
}

impl Tree {
    /// A typed view of this store, with keys under the codec `K` and values
    /// under the codec `V`.
    pub fn with_encodings<K, V>(self) -> (r: TypedTree<K, V>)
        ensures
            r@ == self@,
            self.wf() ==> r.wf(),
    {
        TypedTree { tree: self, _k: PhantomData, _v: PhantomData }
    }
}

impl<K, V> TypedTree<K, V> {
    /// The representation invariant of the store.
    pub closed spec fn wf(&self) -> bool {
        self.tree.wf()
    }
}

impl<K, V> TypedTree<K, V> where for <'a>K: Encoder<'a>, for <'a>V: Encoder<'a> {
    /// A typed view of `tree`.
    pub fn new(tree: Tree) -> (r: Self)
        ensures
            r@ == tree@,
            tree.wf() ==> r.wf(),
    {
        TypedTree { tree, _k: PhantomData, _v: PhantomData }
    }

    /// Stores a value under a key and gives back what was there before.
    pub fn insert<'a, 'b>(
        &mut self,
        key: <K as Encoder<'a>>::In,
        value: <V as Encoder<'b>>::In,
    ) -> (r: Option<IVec<V>>)
        requires
            old(self).wf(),
        ensures
            final(self).wf(),
            final(self)@ == old(self)@.insert(
                <K as Encoder<'a>>::encoding(key),
                <V as Encoder<'b>>::encoding(value),
            ),
            option_view(r) == lookup(old(self)@, <K as Encoder<'a>>::encoding(key)),
            option_wf(r),
    {
        let k = <K as Encoder<'a>>::encode(key);
        let v = IVec::<V>::encode(value).into_encoding();
        retag(self.tree.insert(k.as_bytes(), v))
    }

    /// A new batch for this store.
    pub fn make_batch(&self) -> (r: TypedBatch<K, V>)
        ensures
            r.wf(),
            r@ == Map::<Seq<u8>, Option<Seq<u8>>>::empty(),
    {
        TypedBatch::<K, V>::default()
    }

    /// Applies every write of a batch: stores what it stores and removes
    /// what it removes.
    pub fn apply_batch(&mut self, batch: TypedBatch<K, V>)
        requires
            old(self).wf(),
            batch.wf(),
        ensures
            final(self).wf(),
            final(self)@ == apply_writes(old(self)@, batch@),
    {
        self.tree.apply_batch(batch.into_inner())
    }

    /// The value under a key, if there is one.
    pub fn get<'a>(&self, key: <K as Encoder<'a>>::In) -> (r: Option<IVec<V>>)
        requires
            self.wf(),
        ensures
            option_view(r) == lookup(self@, <K as Encoder<'a>>::encoding(key)),
            option_wf(r),
    {
        let k = <K as Encoder<'a>>::encode(key);
        retag(self.tree.get(k.as_bytes()))
    }

    /// Removes a key and gives back what was under it.
    pub fn remove<'a>(&mut self, key: <K as Encoder<'a>>::In) -> (r: Option<IVec<V>>)
        requires
            old(self).wf(),
        ensures
            final(self).wf(),
            final(self)@ == old(self)@.remove(<K as Encoder<'a>>::encoding(key)),
            option_view(r) == lookup(old(self)@, <K as Encoder<'a>>::encoding(key)),
            option_wf(r),
    {
        let k = <K as Encoder<'a>>::encode(key);
        retag(self.tree.remove(k.as_bytes()))
    }

    /// Sets a key to `proposed` if it now holds `expected`, `None` standing
    /// for no value in both. Where it holds something else nothing changes,
    /// and the error tells what it holds and what was proposed.
    pub fn compare_and_swap<'a, 'b, 'c>(
        &mut self,
        key: <K as Encoder<'a>>::In,
        expected: Option<<V as Encoder<'b>>::In>,
        proposed: Option<<V as Encoder<'c>>::In>,
    ) -> (r: Result<(), TypedCompareAndSwapError<K, V>>)
        requires
            old(self).wf(),
        ensures
            final(self).wf(),
            r is Ok <==> lookup(old(self)@, <K as Encoder<'a>>::encoding(key)) == encoding_of::<
                V,
            >(expected),
            r is Ok ==> final(self)@ == store(
                old(self)@,
                <K as Encoder<'a>>::encoding(key),
                encoding_of::<V>(proposed),
            ),
            r matches Err(e) ==> final(self)@ == old(self)@ && option_view(e.current) == lookup(
                old(self)@,
                <K as Encoder<'a>>::encoding(key),
            ) && option_view(e.proposed) == encoding_of::<V>(proposed) && option_wf(e.current)
                && option_wf(e.proposed),
    {
        let k = <K as Encoder<'a>>::encode(key);
        let expected: Option<IVec<V>> = match expected {
            Some(v) => Some(IVec::<V>::encode(v)),
            None => None,
        };
        let proposed: Option<IVec> = match proposed {
            Some(v) => Some(IVec::<V>::encode(v).into_encoding()),
            None => None,
        };
        match self.tree.compare_and_swap(k.as_bytes(), bytes_of(&expected), proposed) {
            Ok(()) => Ok(()),
            Err(e) => Err(TypedCompareAndSwapError::new(retag(e.current), retag(e.proposed))),
        }
    }

    /// Starts an update of `key`: reads what the key holds.
    pub fn begin_update(&self, key: &IVec<K>) -> (r: UpdateState<V>)
        requires
            self.wf(),
        ensures
            r matches UpdateState::Computing { current } && option_view(current) == lookup(
                self@,
                key@,
            ) && option_wf(current),
    {
        UpdateState::Computing { current: retag(self.tree.get(key.as_ref())) }
    }

    /// Tries the swap of an update of `key`. Where the key still holds what
    /// the update read, it is set to the next value and the update is
    /// committed. Where it holds something else, nothing changes and the
    /// update goes back to computing, from what the key holds now. A state
    /// that is not swapping stays as it is, and so does the store.
    pub fn try_swap(&mut self, key: &IVec<K>, state: UpdateState<V>) -> (r: UpdateState<V>)
        requires
            old(self).wf(),
        ensures
            final(self).wf(),
            state is Swapping ==> lookup(final(self)@, key@) == settle(
                lookup(old(self)@, key@),
                option_view(state->Swapping_current),
                option_view(state->next),
            ),
            !(state is Swapping) ==> final(self)@ == old(self)@ && r == state,
            state is Swapping && lookup(old(self)@, key@) == option_view(
                state->Swapping_current,
            ) ==> r is Committed && r->previous == state->Swapping_current && r->stored
                == state->next && final(self)@ == store(
                old(self)@,
                key@,
                option_view(state->next),
            ),
            state is Swapping && lookup(old(self)@, key@) != option_view(
                state->Swapping_current,
            ) ==> r is Computing && option_view(r->Computing_current) == lookup(old(self)@, key@)
                && option_wf(r->Computing_current) && final(self)@ == old(self)@,
    {
        match state {
            UpdateState::Swapping { current, next } => {
                match self.tree.compare_and_swap(key.as_ref(), bytes_of(&current), share(&next)) {
                    Ok(()) => UpdateState::Committed { previous: current, stored: next },
                    Err(e) => UpdateState::Computing { current: retag(e.current) },
                }
            },
            other => other,
        }
    }

    /// Reads the value under a key, applies `f` to it and stores what `f`
    /// gives, `None` standing for no value on both sides. Gives back what
    /// was stored.
    ///
    /// This runs an update from [`TypedTree::begin_update`] to its commit.
    /// The store is borrowed for writing all the while, so nothing comes
    /// between the read and the swap, and the first swap goes through.
    pub fn update_and_fetch<'a, F>(&mut self, key: <K as Encoder<'a>>::In, f: F) -> (r: Option<
        IVec<V>,
    >) where F: Fn(Option<IVec<V>>) -> Option<IVec<V>>
        requires
            old(self).wf(),
            accepts(f, lookup(old(self)@, <K as Encoder<'a>>::encoding(key))),
        ensures
            final(self).wf(),
            computed_from(f, lookup(old(self)@, <K as Encoder<'a>>::encoding(key)), r),
            final(self)@ == store(old(self)@, <K as Encoder<'a>>::encoding(key), option_view(r)),
    {
        let k = IVec::<K>::encode(key);
        let mut state = self.begin_update(&k);
        loop
            invariant
                self.wf(),
                self@ == old(self)@,
                k@ == <K as Encoder<'a>>::encoding(key),
                state matches UpdateState::Computing { current } && option_view(current) == lookup(
                    self@,
                    k@,
                ) && option_wf(current),
                accepts(f, lookup(self@, k@)),
            decreases 0nat,
        {
            match self.try_swap(&k, state.compute(&f)) {
                UpdateState::Committed { previous: _, stored } => {
                    return stored;
                },
                other => {
                    state = other;
                },
            }
        }
    }

    /// Reads the value under a key, applies `f` to it and stores what `f`
    /// gives, `None` standing for no value on both sides. Gives back what
    /// was read.
    ///
    /// The update runs as in [`TypedTree::update_and_fetch`].
    pub fn fetch_and_update<'a, F>(&mut self, key: <K as Encoder<'a>>::In, f: F) -> (r: Option<
        IVec<V>,
    >) where F: Fn(Option<IVec<V>>) -> Option<IVec<V>>
        requires
            old(self).wf(),
            accepts(f, lookup(old(self)@, <K as Encoder<'a>>::encoding(key))),
        ensures
            final(self).wf(),
            option_view(r) == lookup(old(self)@, <K as Encoder<'a>>::encoding(key)),
            option_wf(r),
            exists|next: Option<IVec<V>>| #[trigger]
                computed_from(f, option_view(r), next) && final(self)@ == store(
                    old(self)@,
                    <K as Encoder<'a>>::encoding(key),
                    option_view(next),
                ),
    {
        let k = IVec::<K>::encode(key);
        let mut state = self.begin_update(&k);
        loop
            invariant
                self.wf(),
                self@ == old(self)@,
                k@ == <K as Encoder<'a>>::encoding(key),
                state matches UpdateState::Computing { current } && option_view(current) == lookup(
                    self@,
                    k@,
                ) && option_wf(current),
                accepts(f, lookup(self@, k@)),
            decreases 0nat,
        {
            match self.try_swap(&k, state.compute(&f)) {
                UpdateState::Committed { previous, stored: _ } => {
                    return previous;
                },
                other => {
                    state = other;
                },
            }
        }
    }

    /// Whether there is a value under a key.
    pub fn contains_key<'a>(&self, key: <K as Encoder<'a>>::In) -> (r: bool)
        requires
            self.wf(),
        ensures
            r == self@.contains_key(<K as Encoder<'a>>::encoding(key)),
    {
        let k = <K as Encoder<'a>>::encode(key);
        self.tree.contains_key(k.as_bytes())
    }

    /// The entry with the greatest key that comes before a key, if there is
    /// one.
    pub fn get_lt<'a>(&self, key: <K as Encoder<'a>>::In) -> (r: Option<(IVec<K>, IVec<V>)>)
        requires
            self.wf(),
        ensures
            r is None <==> none_below(self@, <K as Encoder<'a>>::encoding(key)),
            r matches Some(p) ==> greatest_below(self@, p.0@, <K as Encoder<'a>>::encoding(key))
                && self@[p.0@] == p.1@ && p.0.wf() && p.1.wf(),
    {
        let k = <K as Encoder<'a>>::encode(key);
        retag_entry(self.tree.get_lt(k.as_bytes()))
    }

    /// The entry with the least key that comes after a key, if there is
    /// one.
    pub fn get_gt<'a>(&self, key: <K as Encoder<'a>>::In) -> (r: Option<(IVec<K>, IVec<V>)>)
        requires
            self.wf(),
        ensures
            r is None <==> none_above(self@, <K as Encoder<'a>>::encoding(key)),
            r matches Some(p) ==> least_above(self@, p.0@, <K as Encoder<'a>>::encoding(key))
                && self@[p.0@] == p.1@ && p.0.wf() && p.1.wf(),
    {
        let k = <K as Encoder<'a>>::encode(key);
        retag_entry(self.tree.get_gt(k.as_bytes()))
    }

    /// The entry with the least key, if the store holds any.
    pub fn first(&self) -> (r: Option<(IVec<K>, IVec<V>)>)
        requires
            self.wf(),
        ensures
            r is None <==> self@ == Map::<Seq<u8>, Seq<u8>>::empty(),
            r matches Some(p) ==> least_key(self@, p.0@) && self@[p.0@] == p.1@ && p.0.wf() && p.1.wf(),
    {
        retag_entry(self.tree.first())
    }

    /// The entry with the greatest key, if the store holds any.
    pub fn last(&self) -> (r: Option<(IVec<K>, IVec<V>)>)
        requires
            self.wf(),
        ensures
            r is None <==> self@ == Map::<Seq<u8>, Seq<u8>>::empty(),
            r matches Some(p) ==> greatest_key(self@, p.0@) && self@[p.0@] == p.1@ && p.0.wf() && p.1.wf(),
    {
        retag_entry(self.tree.last())
    }

    /// Removes the entry with the greatest key and gives it back.
    pub fn pop_max(&mut self) -> (r: Option<(IVec<K>, IVec<V>)>)
        requires
            old(self).wf(),
        ensures
            final(self).wf(),
            r is None <==> old(self)@ == Map::<Seq<u8>, Seq<u8>>::empty(),
            r is None ==> final(self)@ == old(self)@,
            r matches Some(p) ==> greatest_key(old(self)@, p.0@) && old(self)@[p.0@] == p.1@
                && p.0.wf() && p.1.wf() && final(self)@ == old(self)@.remove(p.0@),
    {
        retag_entry(self.tree.pop_max())
    }

    /// Removes the entry with the least key and gives it back.
    pub fn pop_min(&mut self) -> (r: Option<(IVec<K>, IVec<V>)>)
        requires
            old(self).wf(),
        ensures
            final(self).wf(),
            r is None <==> old(self)@ == Map::<Seq<u8>, Seq<u8>>::empty(),
            r is None ==> final(self)@ == old(self)@,
            r matches Some(p) ==> least_key(old(self)@, p.0@) && old(self)@[p.0@] == p.1@
                && p.0.wf() && p.1.wf() && final(self)@ == old(self)@.remove(p.0@),
    {
        retag_entry(self.tree.pop_min())
    }
}

/// The bytes that stand for an optional value under the codec `C`.
pub open spec fn encoding_of<'a, C: Encoder<'a>>(v: Option<<C as Encoder<'a>>::In>) -> Option<
    Seq<u8>,
> {
    match v {
        Some(x) => Some(<C as Encoder<'a>>::encoding(x)),
        None => None,
    }
}

} // verus!
