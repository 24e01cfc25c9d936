//! A map from byte strings to values, kept as a vector of entries in the
//! order of the keys. The store and its batches are both built on it.

use crate::ivec::{option_view, option_wf, IVec};
use crate::order::{
    lemma_lex_asymmetric, lemma_lex_total, lemma_lex_transitive, less, lex_le, lex_lt, same,
};
use vstd::prelude::*;

verus! {

/// The keys ascend strictly.
pub open spec fn ascending(keys: Seq<Seq<u8>>) -> bool {
    forall|i: int, j: int| 0 <= i < j < keys.len() ==> lex_lt(#[trigger] keys[i], #[trigger] keys[j])
}

/// The map that holds under each key the value at the key's position.
pub open spec fn map_of<T>(keys: Seq<Seq<u8>>, values: Seq<T>) -> Map<Seq<u8>, T> {
    Map::new(|k: Seq<u8>| keys.contains(k), |k: Seq<u8>| values[keys.index_of(k)])
}

/// In ascending keys every key stands at one position only.
proof fn lemma_position<T>(keys: Seq<Seq<u8>>, values: Seq<T>, i: int)
    requires
        ascending(keys),
        0 <= i < keys.len(),
    ensures
        keys.contains(keys[i]),
        keys.index_of(keys[i]) == i,
        map_of(keys, values).contains_key(keys[i]),
        map_of(keys, values)[keys[i]] == values[i],
{
    let j = keys.index_of(keys[i]);
    if j < i {
        lemma_lex_asymmetric(keys[j], keys[i]);
    } else if i < j {
        lemma_lex_asymmetric(keys[i], keys[j]);
    }
}

/// A key that parts ascending keys at `i`, all before it smaller and all
/// from it on greater, is none of them.
proof fn lemma_absent(keys: Seq<Seq<u8>>, key: Seq<u8>, i: int)
    requires
        0 <= i <= keys.len(),
        forall|j: int| 0 <= j < i ==> lex_lt(#[trigger] keys[j], key),
        forall|j: int| i <= j < keys.len() ==> lex_lt(key, #[trigger] keys[j]),
    ensures
        !keys.contains(key),
{
    if keys.contains(key) {
        let j = keys.index_of(key);
        if j < i {
            lemma_lex_asymmetric(keys[j], key);
        } else {
            lemma_lex_asymmetric(key, keys[j]);
        }
    }
}

/// Putting a new key where it belongs keeps the keys ascending and adds
/// one entry to the map.
proof fn lemma_insert<T>(keys: Seq<Seq<u8>>, values: Seq<T>, i: int, key: Seq<u8>, value: T)
    requires
        ascending(keys),
        keys.len() == values.len(),
        0 <= i <= keys.len(),
        forall|j: int| 0 <= j < i ==> lex_lt(#[trigger] keys[j], key),
        forall|j: int| i <= j < keys.len() ==> lex_lt(key, #[trigger] keys[j]),
    ensures
        ascending(keys.insert(i, key)),
        map_of(keys.insert(i, key), values.insert(i, value)) == map_of(keys, values).insert(
            key,
            value,
        ),
{
    let keys2 = keys.insert(i, key);
    let values2 = values.insert(i, value);
    assert forall|a: int, b: int| 0 <= a < b < keys2.len() implies lex_lt(
        #[trigger] keys2[a],
        #[trigger] keys2[b],
    ) by {
        if a < i && b == i {
            assert(keys2[a] == keys[a]);
        } else if a < i && b > i {
            assert(keys2[a] == keys[a] && keys2[b] == keys[b - 1]);
        } else if a == i {
            assert(keys2[b] == keys[b - 1]);
        } else if a > i {
            assert(keys2[a] == keys[a - 1] && keys2[b] == keys[b - 1]);
        } else {
            assert(keys2[a] == keys[a] && keys2[b] == keys[b]);
        }
    }
    let left = map_of(keys2, values2);
    let right = map_of(keys, values).insert(key, value);
    assert forall|k: Seq<u8>| left.contains_key(k) <==> right.contains_key(k) by {
        if keys2.contains(k) {
            let j = keys2.index_of(k);
            if j < i {
                assert(keys[j] == k);
            } else if j > i {
                assert(keys[j - 1] == k);
            }
        }
        if keys.contains(k) {
            let j = keys.index_of(k);
            if j < i {
                assert(keys2[j] == k);
            } else {
                assert(keys2[j + 1] == k);
            }
        }
        if k == key {
            assert(keys2[i] == k);
        }
    }
    assert forall|k: Seq<u8>| left.contains_key(k) implies left[k] == right[k] by {
        let j = keys2.index_of(k);
        lemma_position(keys2, values2, j);
        if j < i {
            lemma_position(keys, values, j);
            lemma_lex_asymmetric(keys[j], key);
        } else if j > i {
            lemma_position(keys, values, j - 1);
            lemma_lex_asymmetric(key, keys[j - 1]);
        }
    }
    assert(left =~= right);
}

/// Putting a new value in place of an old one changes that entry of the
/// map.
proof fn lemma_update<T>(keys: Seq<Seq<u8>>, values: Seq<T>, i: int, value: T)
    requires
        ascending(keys),
        keys.len() == values.len(),
        0 <= i < keys.len(),
    ensures
        map_of(keys, values.update(i, value)) == map_of(keys, values).insert(keys[i], value),
{
    let left = map_of(keys, values.update(i, value));
    let right = map_of(keys, values).insert(keys[i], value);
    lemma_position(keys, values, i);
    assert forall|k: Seq<u8>| left.contains_key(k) implies left[k] == right[k] by {
        let j = keys.index_of(k);
        lemma_position(keys, values, j);
    }
    assert(left =~= right);
}

/// Taking an entry out keeps the keys ascending and takes its key out of
/// the map.
proof fn lemma_remove<T>(keys: Seq<Seq<u8>>, values: Seq<T>, i: int)
    requires
        ascending(keys),
        keys.len() == values.len(),
        0 <= i < keys.len(),
    ensures
        ascending(keys.remove(i)),
        map_of(keys.remove(i), values.remove(i)) == map_of(keys, values).remove(keys[i]),
{
    let keys2 = keys.remove(i);
    let values2 = values.remove(i);
    assert forall|a: int, b: int| 0 <= a < b < keys2.len() implies lex_lt(
        #[trigger] keys2[a],
        #[trigger] keys2[b],
    ) by {
        let a1 = if a < i { a } else { a + 1 };
        let b1 = if b < i { b } else { b + 1 };
        assert(keys2[a] == keys[a1] && keys2[b] == keys[b1]);
    }
    let left = map_of(keys2, values2);
    let right = map_of(keys, values).remove(keys[i]);
    assert forall|k: Seq<u8>| left.contains_key(k) <==> right.contains_key(k) by {
        if keys2.contains(k) {
            let j = keys2.index_of(k);
            let j1 = if j < i { j } else { j + 1 };
            assert(keys[j1] == k);
            lemma_position(keys, values, j1);
            lemma_position(keys, values, i);
        }
        if keys.contains(k) && k != keys[i] {
            let j = keys.index_of(k);
            if j < i {
                assert(keys2[j] == k);
            } else {
                assert(keys2[j - 1] == k);
            }
        }
    }
    assert forall|k: Seq<u8>| left.contains_key(k) implies left[k] == right[k] by {
        let j = keys2.index_of(k);
        lemma_position(keys2, values2, j);
        let j1 = if j < i { j } else { j + 1 };
        assert(keys[j1] == k);
        lemma_position(keys, values, j1);
    }
    assert(left =~= right);
}

/// `k` is the least key of `m`.
pub open spec fn least_key<T>(m: Map<Seq<u8>, T>, k: Seq<u8>) -> bool {
    &&& m.contains_key(k)
    &&& forall|o: Seq<u8>| #[trigger] m.contains_key(o) ==> lex_le(k, o)
}

/// `k` is the greatest key of `m`.
pub open spec fn greatest_key<T>(m: Map<Seq<u8>, T>, k: Seq<u8>) -> bool {
    &&& m.contains_key(k)
    &&& forall|o: Seq<u8>| #[trigger] m.contains_key(o) ==> lex_le(o, k)
}

/// `k` is the greatest key of `m` that comes before `bound`.
pub open spec fn greatest_below<T>(m: Map<Seq<u8>, T>, k: Seq<u8>, bound: Seq<u8>) -> bool {
    &&& m.contains_key(k)
    &&& lex_lt(k, bound)
    &&& forall|o: Seq<u8>| #[trigger] m.contains_key(o) && lex_lt(o, bound) ==> lex_le(o, k)
}

/// `k` is the least key of `m` that comes after `bound`.
pub open spec fn least_above<T>(m: Map<Seq<u8>, T>, k: Seq<u8>, bound: Seq<u8>) -> bool {
    &&& m.contains_key(k)
    &&& lex_lt(bound, k)
    &&& forall|o: Seq<u8>| #[trigger] m.contains_key(o) && lex_lt(bound, o) ==> lex_le(k, o)
}

/// No key of `m` comes before `bound`.
pub open spec fn none_below<T>(m: Map<Seq<u8>, T>, bound: Seq<u8>) -> bool {
    forall|o: Seq<u8>| #[trigger] m.contains_key(o) ==> !lex_lt(o, bound)
}

/// No key of `m` comes after `bound`.
pub open spec fn none_above<T>(m: Map<Seq<u8>, T>, bound: Seq<u8>) -> bool {
    forall|o: Seq<u8>| #[trigger] m.contains_key(o) ==> !lex_lt(bound, o)
}

/// A map from byte strings to values of `T`, its entries in the order of
/// the keys.
#[derive(Debug)]
pub struct SortedMap<T> {
    slots: Vec<(IVec, T)>,
}

impl<T> View for SortedMap<T> {
    type V = Map<Seq<u8>, T>;

    closed spec fn view(&self) -> Map<Seq<u8>, T> {
        map_of(self.keys(), self.values())
    }
}

impl<T> SortedMap<T> {
    /// The keys, in order.
    pub closed spec fn keys(&self) -> Seq<Seq<u8>> {
        Seq::new(self.slots@.len(), |i: int| self.slots@[i].0@)
    }

    /// The values, each at the position of its key.
    pub closed spec fn values(&self) -> Seq<T> {
        Seq::new(self.slots@.len(), |i: int| self.slots@[i].1)
    }

    /// The keys ascend strictly, one value stands with each key, and every
    /// key buffer is well formed.
    pub closed spec fn wf(&self) -> bool {
        &&& ascending(self.keys())
        &&& forall|i: int| 0 <= i < self.slots@.len() ==> (#[trigger] self.slots@[i]).0.wf()
    }

    /// The map holds what the entries hold: as many keys as there are
    /// entries, and under the key at each position the value there.
    pub(crate) proof fn lemma_view(&self)
        requires
            self.wf(),
        ensures
            self.keys().len() == self.values().len(),
            self@.dom().finite(),
            self@.len() == self.keys().len(),
            forall|i: int|
                0 <= i < self.keys().len() ==> self@.contains_key(#[trigger] self.keys()[i])
                    && self@[self.keys()[i]] == self.values()[i],
            forall|k: Seq<u8>| #[trigger]
                self@.contains_key(k) ==> 0 <= self.keys().index_of(k) < self.keys().len()
                    && self.keys()[self.keys().index_of(k)] == k,
    {
        let keys = self.keys();
        let values = self.values();
        assert forall|i: int| 0 <= i < keys.len() implies self@.contains_key(#[trigger] keys[i])
            && self@[keys[i]] == values[i] by {
            lemma_position(keys, values, i);
        }
        assert forall|i: int, j: int| 0 <= i < keys.len() && 0 <= j < keys.len() && i != j implies keys[i]
            != keys[j] by {
            if i < j {
                lemma_lex_asymmetric(keys[i], keys[j]);
            } else {
                lemma_lex_asymmetric(keys[j], keys[i]);
            }
        }
        assert(keys.no_duplicates());
        keys.unique_seq_to_set();
        assert(self@.dom() =~= keys.to_set());
    }

    /// In a well-formed map the keys ascend.
    pub(crate) proof fn lemma_keys_ascend(&self)
        requires
            self.wf(),
        ensures
            ascending(self.keys()),
    {
    }

    /// The empty map.
    pub fn new() -> (r: Self)
        ensures
            r.wf(),
            r@ == Map::<Seq<u8>, T>::empty(),
    {
        let r = SortedMap { slots: Vec::new() };
        assert(r@ =~= Map::<Seq<u8>, T>::empty());
        r
    }

    /// The number of entries.
    pub fn len(&self) -> (n: usize)
        requires
            self.wf(),
        ensures
            n == self@.len(),
            n == self.keys().len(),
    {
        proof {
            self.lemma_view();
        }
        self.slots.len()
    }

    /// The key at position `i`.
    pub fn key_at(&self, i: usize) -> (k: &IVec)
        requires
            self.wf(),
            i < self.keys().len(),
        ensures
            k@ == self.keys()[i as int],
            k.wf(),
    {
        &self.slots[i].0
    }

    /// The value at position `i`.
    pub fn value_at(&self, i: usize) -> (v: &T)
        requires
            self.wf(),
            i < self.keys().len(),
        ensures
            *v == self.values()[i as int],
            self@.contains_key(self.keys()[i as int]),
            *v == self@[self.keys()[i as int]],
    {
        proof {
            self.lemma_view();
        }
        &self.slots[i].1
    }

    /// The position of the first key that does not come before `key`, which
    /// is where `key` stands or would have to stand.
    pub fn lower_bound(&self, key: &[u8]) -> (i: usize)
        requires
            self.wf(),
        ensures
            i <= self.keys().len(),
            forall|j: int| 0 <= j < i ==> lex_lt(#[trigger] self.keys()[j], key@),
            forall|j: int| i <= j < self.keys().len() ==> !lex_lt(#[trigger] self.keys()[j], key@),
    {
        let mut lo: usize = 0;
        let mut hi: usize = self.slots.len();
        while lo < hi
            invariant
                self.wf(),
                lo <= hi <= self.keys().len(),
                self.keys().len() == self.slots@.len(),
                forall|j: int| 0 <= j < lo ==> lex_lt(#[trigger] self.keys()[j], key@),
                forall|j: int| hi <= j < self.keys().len() ==> !lex_lt(#[trigger] self.keys()[j], key@),
            decreases hi - lo,
        {
            let mid = lo + (hi - lo) / 2;
            let ghost pivot = self.keys()[mid as int];
            if less(self.slots[mid].0.as_ref(), key) {
                assert forall|j: int| 0 <= j < mid + 1 implies lex_lt(
                    #[trigger] self.keys()[j],
                    key@,
                ) by {
                    if j < mid {
                        lemma_lex_transitive(self.keys()[j], pivot, key@);
                    }
                }
                lo = mid + 1;
            } else {
                assert forall|j: int| mid <= j < self.keys().len() implies !lex_lt(
                    #[trigger] self.keys()[j],
                    key@,
                ) by {
                    if j > mid && lex_lt(self.keys()[j], key@) {
                        lemma_lex_transitive(pivot, self.keys()[j], key@);
                    }
                }
                hi = mid;
            }
        }
        lo
    }

    /// The position at which `key` stands, if it is a key of the map.
    pub fn position(&self, key: &[u8]) -> (r: Option<usize>)
        requires
            self.wf(),
        ensures
            r is Some <==> self@.contains_key(key@),
            r matches Some(i) ==> i < self.keys().len() && self.keys()[i as int] == key@,
    {
        let i = self.lower_bound(key);
        if i < self.slots.len() && same(self.slots[i].0.as_ref(), key) {
            proof {
                self.lemma_view();
                assert(self.keys()[i as int] == key@);
            }
            Some(i)
        } else {
            proof {
                self.lemma_gap(key@, i as int);
            }
            None
        }
    }

    /// A key that is not at its lower bound is not in the map, and all keys
    /// from the bound on come after it.
    proof fn lemma_gap(&self, key: Seq<u8>, i: int)
        requires
            self.wf(),
            0 <= i <= self.keys().len(),
            forall|j: int| 0 <= j < i ==> lex_lt(#[trigger] self.keys()[j], key),
            forall|j: int| i <= j < self.keys().len() ==> !lex_lt(#[trigger] self.keys()[j], key),
            i < self.keys().len() ==> self.keys()[i] != key,
        ensures
            forall|j: int| i <= j < self.keys().len() ==> lex_lt(key, #[trigger] self.keys()[j]),
            !self@.contains_key(key),
    {
        let keys = self.keys();
        assert forall|j: int| i <= j < keys.len() implies lex_lt(key, #[trigger] keys[j]) by {
            lemma_lex_total(key, keys[j]);
            if keys[j] == key {
                assert(j > i);
                assert(lex_lt(keys[i], keys[j]));
            }
        }
        lemma_absent(keys, key, i);
    }

    /// The position of the least key, if the map has a key.
    pub fn first_position(&self) -> (r: Option<usize>)
        requires
            self.wf(),
        ensures
            r is None <==> self@ == Map::<Seq<u8>, T>::empty(),
            r matches Some(i) ==> i < self.keys().len() && least_key(self@, self.keys()[i as int]),
    {
        proof {
            self.lemma_view();
        }
        if self.slots.len() == 0 {
            assert(self@ =~= Map::<Seq<u8>, T>::empty());
            None
        } else {
            assert(self@.contains_key(self.keys()[0]));
            assert forall|o: Seq<u8>| #[trigger] self@.contains_key(o) implies lex_le(
                self.keys()[0],
                o,
            ) by {
                let j = self.keys().index_of(o);
                assert(j == 0 || lex_lt(self.keys()[0], self.keys()[j]));
            }
            Some(0)
        }
    }

    /// The position of the greatest key, if the map has a key.
    pub fn last_position(&self) -> (r: Option<usize>)
        requires
            self.wf(),
        ensures
            r is None <==> self@ == Map::<Seq<u8>, T>::empty(),
            r matches Some(i) ==> i < self.keys().len() && greatest_key(
                self@,
                self.keys()[i as int],
            ),
    {
        proof {
            self.lemma_view();
        }
        let n = self.slots.len();
        if n == 0 {
            assert(self@ =~= Map::<Seq<u8>, T>::empty());
            None
        } else {
            assert(self@.contains_key(self.keys()[n - 1]));
            assert forall|o: Seq<u8>| #[trigger] self@.contains_key(o) implies lex_le(
                o,
                self.keys()[n - 1],
            ) by {
                let j = self.keys().index_of(o);
                assert(j == n - 1 || lex_lt(self.keys()[j], self.keys()[n - 1]));
            }
            Some(n - 1)
        }
    }

    /// The position of the greatest key that comes before `key`, if there
    /// is such a key.
    pub fn position_below(&self, key: &[u8]) -> (r: Option<usize>)
        requires
            self.wf(),
        ensures
            r is None <==> none_below(self@, key@),
            r matches Some(i) ==> i < self.keys().len() && greatest_below(
                self@,
                self.keys()[i as int],
                key@,
            ),
    {
        let i = self.lower_bound(key);
        proof {
            self.lemma_view();
        }
        if i == 0 {
            assert forall|o: Seq<u8>| #[trigger] self@.contains_key(o) implies !lex_lt(o, key@) by {
                let j = self.keys().index_of(o);
                assert(!lex_lt(self.keys()[j], key@));
            }
            None
        } else {
            let ghost top = self.keys()[i - 1];
            assert(self@.contains_key(top) && lex_lt(top, key@));
            assert forall|o: Seq<u8>| #[trigger] self@.contains_key(o) && lex_lt(o, key@) implies lex_le(
                o,
                top,
            ) by {
                let j = self.keys().index_of(o);
                if j >= i {
                    assert(!lex_lt(self.keys()[j], key@));
                }
                assert(j == i - 1 || lex_lt(self.keys()[j], self.keys()[i - 1]));
            }
            Some(i - 1)
        }
    }

    /// The position of the least key that comes after `key`, if there is
    /// such a key.
    pub fn position_above(&self, key: &[u8]) -> (r: Option<usize>)
        requires
            self.wf(),
        ensures
            r is None <==> none_above(self@, key@),
            r matches Some(i) ==> i < self.keys().len() && least_above(
                self@,
                self.keys()[i as int],
                key@,
            ),
    {
        let at = self.lower_bound(key);
        let n = self.slots.len();
        let i = if at < n && same(self.slots[at].0.as_ref(), key) {
            at + 1
        } else {
            at
        };
        proof {
            self.lemma_view();
            assert forall|j: int| 0 <= j < i implies !lex_lt(key@, #[trigger] self.keys()[j]) by {
                if j < at {
                    lemma_lex_asymmetric(self.keys()[j], key@);
                }
            }
            assert forall|j: int| i <= j < n implies lex_lt(key@, #[trigger] self.keys()[j]) by {
                if i == at {
                    self.lemma_gap(key@, at as int);
                } else {
                    assert(lex_lt(self.keys()[at as int], self.keys()[j]));
                }
            }
        }
        if i == n {
            assert forall|o: Seq<u8>| #[trigger] self@.contains_key(o) implies !lex_lt(key@, o) by {
                let j = self.keys().index_of(o);
                assert(!lex_lt(key@, self.keys()[j]));
            }
            None
        } else {
            let ghost low = self.keys()[i as int];
            assert(self@.contains_key(low) && lex_lt(key@, low));
            assert forall|o: Seq<u8>| #[trigger] self@.contains_key(o) && lex_lt(key@, o) implies lex_le(
                low,
                o,
            ) by {
                let j = self.keys().index_of(o);
                if j < i {
                    assert(!lex_lt(key@, self.keys()[j]));
                }
                assert(j == i || lex_lt(self.keys()[i as int], self.keys()[j]));
            }
            Some(i)
        }
    }

    /// The value under `key`, if there is one.
    pub fn get(&self, key: &[u8]) -> (r: Option<&T>)
        requires
            self.wf(),
        ensures
            r is Some <==> self@.contains_key(key@),
            r matches Some(v) ==> *v == self@[key@],
    {
        match self.position(key) {
            Some(i) => Some(self.value_at(i)),
            None => None,
        }
    }

    /// Puts `value` under `key` and gives back what was there before.
    pub fn insert(&mut self, key: IVec, value: T) -> (r: Option<T>)
        requires
            old(self).wf(),
            key.wf(),
        ensures
            final(self).wf(),
            final(self)@ == old(self)@.insert(key@, value),
            r == if old(self)@.contains_key(key@) {
                Some(old(self)@[key@])
            } else {
                None
            },
    {
        let i = self.lower_bound(key.as_ref());
        let ghost keys = self.keys();
        let ghost values = self.values();
        if i < self.slots.len() && same(self.slots[i].0.as_ref(), key.as_ref()) {
            proof {
                self.lemma_view();
                lemma_update(keys, values, i as int, value);
            }
            let mut slot = (key, value);
            self.slots.set_and_swap(i, &mut slot);
            assert(self.keys() =~= keys);
            assert(self.values() =~= values.update(i as int, value));
            Some(slot.1)
        } else {
            proof {
                self.lemma_gap(key@, i as int);
                lemma_insert(keys, values, i as int, key@, value);
            }
            self.slots.insert(i, (key, value));
            assert(self.keys() =~= keys.insert(i as int, key@));
            assert(self.values() =~= values.insert(i as int, value));
            None
        }
    }

    /// Takes out the entry at position `i`.
    pub fn remove_at(&mut self, i: usize) -> (r: (IVec, T))
        requires
            old(self).wf(),
            i < old(self).keys().len(),
        ensures
            final(self).wf(),
            r.0@ == old(self).keys()[i as int],
            r.0.wf(),
            r.1 == old(self).values()[i as int],
            old(self)@.contains_key(r.0@),
            r.1 == old(self)@[r.0@],
            final(self)@ == old(self)@.remove(r.0@),
            final(self).keys() == old(self).keys().remove(i as int),
            final(self).values() == old(self).values().remove(i as int),
    {
        let ghost keys = self.keys();
        let ghost values = self.values();
        proof {
            self.lemma_view();
            lemma_remove(keys, values, i as int);
        }
        let slot = self.slots.remove(i);
        assert(self.keys() =~= keys.remove(i as int));
        assert(self.values() =~= values.remove(i as int));
        slot
    }

    /// Takes out the entry under `key` and gives back its value, if there
    /// was one.
    pub fn remove(&mut self, key: &[u8]) -> (r: Option<T>)
        requires
            old(self).wf(),
        ensures
            final(self).wf(),
            final(self)@ == old(self)@.remove(key@),
            r == if old(self)@.contains_key(key@) {
                Some(old(self)@[key@])
            } else {
                None
            },
    {
        match self.position(key) {
            Some(i) => {
                let slot = self.remove_at(i);
                Some(slot.1)
            },
            None => {
                assert(self@.remove(key@) =~= self@);
                None
            },
        }
    }
}

/// Ascending keys are settled by what they hold: two ascending sequences of
/// the same byte strings are one sequence.
pub proof fn lemma_ascending_is_unique(a: Seq<Seq<u8>>, b: Seq<Seq<u8>>)
    requires
        ascending(a),
        ascending(b),
        forall|k: Seq<u8>| a.contains(k) <==> b.contains(k),
    ensures
        a == b,
    decreases a.len(),
{
    if a.len() == 0 {
        if b.len() > 0 {
            assert(b.contains(b[0]));
        }
        assert(a =~= b);
    } else {
        assert(a.contains(a[0]));
        let j = b.index_of(a[0]);
        assert(b.contains(b[0]));
        let i = a.index_of(b[0]);
        if i > 0 && j > 0 {
            assert(lex_lt(a[0], a[i]));
            assert(lex_lt(b[0], b[j]));
            lemma_lex_asymmetric(a[0], b[0]);
        }
        assert(a[0] == b[0]);
        let rest_a = a.subrange(1, a.len() as int);
        let rest_b = b.subrange(1, b.len() as int);
        assert forall|k: Seq<u8>| rest_a.contains(k) <==> rest_b.contains(k) by {
            if rest_a.contains(k) {
                let x = rest_a.index_of(k);
                assert(a[x + 1] == k);
                assert(lex_lt(a[0], a[x + 1]));
                lemma_lex_asymmetric(a[0], k);
                assert(a.contains(k));
                let y = b.index_of(k);
                assert(y > 0);
                assert(rest_b[y - 1] == k);
            }
            if rest_b.contains(k) {
                let y = rest_b.index_of(k);
                assert(b[y + 1] == k);
                assert(lex_lt(b[0], b[y + 1]));
                lemma_lex_asymmetric(b[0], k);
                assert(b.contains(k));
                let x = a.index_of(k);
                assert(x > 0);
                assert(rest_a[x - 1] == k);
            }
        }
        assert forall|x: int, y: int| 0 <= x < y < rest_a.len() implies lex_lt(
            #[trigger] rest_a[x],
            #[trigger] rest_a[y],
        ) by {
            assert(lex_lt(a[x + 1], a[y + 1]));
        }
        assert forall|x: int, y: int| 0 <= x < y < rest_b.len() implies lex_lt(
            #[trigger] rest_b[x],
            #[trigger] rest_b[y],
        ) by {
            assert(lex_lt(b[x + 1], b[y + 1]));
        }
        lemma_ascending_is_unique(rest_a, rest_b);
        assert(a =~= seq![a[0]] + rest_a);
        assert(b =~= seq![b[0]] + rest_b);
    }
}

impl SortedMap<Option<IVec>> {
    /// What the values hold, each at the position of its key: bytes, or
    /// `None` where there is no buffer.
    pub closed spec fn value_views(&self) -> Seq<Option<Seq<u8>>> {
        Seq::new(self.slots@.len(), |i: int| option_view(self.slots@[i].1))
    }

    /// The value views are the views of the values.
    pub proof fn lemma_value_views(&self)
        ensures
            self.value_views().len() == self.values().len(),
            self.keys().len() == self.values().len(),
            forall|i: int|
                0 <= i < self.values().len() ==> #[trigger] self.value_views()[i] == option_view(
                    self.values()[i],
                ),
    {
    }

    /// Another map of the same entries, made of further handles to the same
    /// keys and values. No bytes of a remote buffer are copied.
    pub fn share(&self) -> (r: Self)
        ensures
            r.keys() == self.keys(),
            r.value_views() == self.value_views(),
            r@.dom() == self@.dom(),
            forall|k: Seq<u8>|
                self@.contains_key(k) ==> option_view(#[trigger] r@[k]) == option_view(self@[k])
                    && (option_wf(self@[k]) ==> option_wf(r@[k])),
            self.wf() ==> r.wf(),
    {
        let mut slots: Vec<(IVec, Option<IVec>)> = Vec::new();
        let mut i: usize = 0;
        while i < self.slots.len()
            invariant
                i <= self.slots@.len(),
                slots@.len() == i,
                forall|j: int|
                    0 <= j < i ==> {
                        &&& (#[trigger] slots@[j]).0@ == self.slots@[j].0@
                        &&& self.slots@[j].0.wf() ==> slots@[j].0.wf()
                        &&& option_view(slots@[j].1) == option_view(self.slots@[j].1)
                        &&& option_wf(self.slots@[j].1) ==> option_wf(slots@[j].1)
                    },
            decreases self.slots@.len() - i,
        {
            let key = self.slots[i].0.clone();
            let value = match &self.slots[i].1 {
                Some(v) => Some(v.clone()),
                None => None,
            };
            slots.push((key, value));
            i += 1;
        }
        let r = SortedMap { slots };
        proof {
            assert(r.keys() =~= self.keys());
            assert(r.value_views() =~= self.value_views());
            assert(r@.dom() =~= self@.dom());
            assert forall|k: Seq<u8>| self@.contains_key(k) implies option_view(#[trigger] r@[k])
                == option_view(self@[k]) && (option_wf(self@[k]) ==> option_wf(r@[k])) by {
                let j = self.keys().index_of(k);
                assert(self.keys()[j] == k);
                assert(r@[k] == r.slots@[j].1);
                assert(self@[k] == self.slots@[j].1);
            }
        }
        r
    }

    /// Whether both maps hold the same entries: the same keys in the same
    /// order, and the same bytes or the same absence under each.
    pub fn same_entries(&self, other: &Self) -> (r: bool)
        ensures
            r == (self.keys() == other.keys() && self.value_views() == other.value_views()),
    {
        if self.slots.len() != other.slots.len() {
            assert(self.keys().len() != other.keys().len());
            return false;
        }
        let mut i: usize = 0;
        while i < self.slots.len()
            invariant
                i <= self.slots@.len(),
                self.slots@.len() == other.slots@.len(),
                forall|j: int| 0 <= j < i ==> #[trigger] self.keys()[j] == other.keys()[j],
                forall|j: int|
                    0 <= j < i ==> #[trigger] self.value_views()[j] == other.value_views()[j],
            decreases self.slots@.len() - i,
        {
            let keys_agree = same(self.slots[i].0.as_ref(), other.slots[i].0.as_ref());
            let values_agree = match (&self.slots[i].1, &other.slots[i].1) {
                (Some(a), Some(b)) => same(a.as_ref(), b.as_ref()),
                (None, None) => true,
                _ => false,
            };
            assert(keys_agree == (self.keys()[i as int] == other.keys()[i as int]));
            assert(values_agree == (self.value_views()[i as int] == other.value_views()[i as int]));
            if !keys_agree || !values_agree {
                return false;
            }
            i += 1;
        }
        assert(self.keys() =~= other.keys());
        assert(self.value_views() =~= other.value_views());
        true
    }
}

} // verus!
