//! Equality and order of buffers, and equality of batches. All go by the
//! bytes alone: how a buffer stores them plays no part.

use crate::batch::Batch;
use crate::batch_typed::TypedBatch;
use crate::encoding::AsBytes;
use crate::ivec::IVec;
use crate::order::{common_prefix, lex_lt, same};
use std::cmp::Ordering;
use vstd::prelude::*;
use vstd::std_specs::cmp::{PartialEqSpecImpl, PartialOrdSpecImpl};

verus! {

/// How `a` stands to `b` in the order of byte strings.
pub open spec fn lex_order(a: Seq<u8>, b: Seq<u8>) -> Ordering {
    if lex_lt(a, b) {
        Ordering::Less
    } else if a == b {
        Ordering::Equal
    } else {
        Ordering::Greater
    }
}

/// Compares two byte strings.
pub fn compare(a: &[u8], b: &[u8]) -> (r: Ordering)
    ensures
        r == lex_order(a@, b@),
        r is Greater <==> lex_lt(b@, a@),
{
    let i = common_prefix(a, b);
    if i == a.len() {
        if i == b.len() {
            Ordering::Equal
        } else {
            Ordering::Less
        }
    } else if i == b.len() {
        Ordering::Greater
    } else if a[i] < b[i] {
        Ordering::Less
    } else {
        Ordering::Greater
    }
}

impl<B: AsBytes> PartialEq<B> for IVec<()> {
    /// Whether the buffer holds the bytes of `other`.
    fn eq(&self, other: &B) -> (r: bool) {
        same(self.as_ref(), other.as_bytes())
    }
}

impl<B: AsBytes> PartialEqSpecImpl<B> for IVec<()> {
    open spec fn obeys_eq_spec() -> bool {
        true
    }

    open spec fn eq_spec(&self, other: &B) -> bool {
        self@ == other.bytes()
    }
}

impl PartialEq<[u8]> for IVec<()> {
    /// Whether the buffer holds the bytes of `other`.
    fn eq(&self, other: &[u8]) -> (r: bool) {
        same(self.as_ref(), other)
    }
}

impl PartialEqSpecImpl<[u8]> for IVec<()> {
    open spec fn obeys_eq_spec() -> bool {
        true
    }

    open spec fn eq_spec(&self, other: &[u8]) -> bool {
        self@ == other@
    }
}

impl Eq for IVec<()> {

}

impl IVec<()> {
    /// How this buffer stands to `other`: buffers are ordered as their
    /// bytes are.
    pub fn cmp(&self, other: &Self) -> (r: Ordering)
        ensures
            r == lex_order(self@, other@),
            r is Greater <==> lex_lt(other@, self@),
    {
        compare(self.as_ref(), other.as_ref())
    }
}

impl PartialOrd for IVec<()> {
    /// Buffers are ordered as their bytes are.
    fn partial_cmp(&self, other: &Self) -> (r: Option<Ordering>) {
        Some(self.cmp(other))
    }
}

impl PartialOrdSpecImpl for IVec<()> {
    open spec fn obeys_partial_cmp_spec() -> bool {
        true
    }

    open spec fn partial_cmp_spec(&self, other: &Self) -> Option<Ordering> {
        Some(lex_order(self@, other@))
    }
}

impl PartialEq for Batch {
    /// Whether both batches hold the same writes. Of well-formed batches
    /// that is whether they are the same map.
    fn eq(&self, other: &Self) -> (r: bool) {
        self.same_entries(other)
    }
}

impl PartialEqSpecImpl for Batch {
    open spec fn obeys_eq_spec() -> bool {
        true
    }

    open spec fn eq_spec(&self, other: &Self) -> bool {
        self.entries() == other.entries()
    }
}

impl Eq for Batch {

}

impl<K, V> PartialEq for TypedBatch<K, V> {
    /// Whether both batches hold the same writes. Of well-formed batches
    /// that is whether they are the same map.
    fn eq(&self, other: &Self) -> (r: bool) {
        self.same_entries(other)
    }
}

impl<K, V> PartialEqSpecImpl for TypedBatch<K, V> {
    open spec fn obeys_eq_spec() -> bool {
        true
    }

    open spec fn eq_spec(&self, other: &Self) -> bool {
        self.entries() == other.entries()
    }
}

impl<K, V> Eq for TypedBatch<K, V> {

}

} // verus!
