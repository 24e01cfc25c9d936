//! The order of byte strings: byte by byte, a proper prefix before what it
//! is a prefix of. The store keeps its keys in this order.

use vstd::prelude::*;

verus! {

/// `a` and `b` hold the same bytes before position `i`.
pub open spec fn agree_before(a: Seq<u8>, b: Seq<u8>, i: int) -> bool {
    &&& 0 <= i <= a.len()
    &&& i <= b.len()
    &&& forall|j: int| 0 <= j < i ==> a[j] == b[j]
}

/// `a` comes before `b`, and position `i` shows it: the two agree before
/// `i`, and there `a` has ended or holds the smaller byte.
pub open spec fn precedes_at(a: Seq<u8>, b: Seq<u8>, i: int) -> bool {
    &&& agree_before(a, b, i)
    &&& i < b.len()
    &&& (i == a.len() || a[i] < b[i])
}

/// `a` comes strictly before `b`.
pub open spec fn lex_lt(a: Seq<u8>, b: Seq<u8>) -> bool {
    exists|i: int| precedes_at(a, b, i)
}

/// `a` comes before `b` or is `b`.
pub open spec fn lex_le(a: Seq<u8>, b: Seq<u8>) -> bool {
    a == b || lex_lt(a, b)
}

/// Two strings that agree up to the end of both are one string.
pub proof fn lemma_agree_to_end(a: Seq<u8>, b: Seq<u8>)
    requires
        a.len() == b.len(),
        agree_before(a, b, a.len() as int),
    ensures
        a == b,
{
    assert(a =~= b);
}

/// Where two strings first part decides their order. `i` is a position
/// before which they agree and at which they do not.
pub proof fn lemma_parting_decides(a: Seq<u8>, b: Seq<u8>, i: int)
    requires
        agree_before(a, b, i),
        i == a.len() || i == b.len() || a[i] != b[i],
    ensures
        lex_lt(a, b) <==> i < b.len() && (i == a.len() || a[i] < b[i]),
        lex_lt(b, a) <==> i < a.len() && (i == b.len() || b[i] < a[i]),
        a == b <==> i == a.len() && i == b.len(),
{
    if i < b.len() && (i == a.len() || a[i] < b[i]) {
        assert(precedes_at(a, b, i));
    }
    if i < a.len() && (i == b.len() || b[i] < a[i]) {
        assert(agree_before(b, a, i));
        assert(precedes_at(b, a, i));
    }
    if i == a.len() && i == b.len() {
        lemma_agree_to_end(a, b);
    }
    if lex_lt(a, b) {
        let k = choose|k: int| precedes_at(a, b, k);
        if k < i {
            assert(a[k] == b[k]);
        } else if k > i {
            assert(a[i] == b[i]);
        }
    }
    if lex_lt(b, a) {
        let k = choose|k: int| precedes_at(b, a, k);
        if k < i {
            assert(a[k] == b[k]);
        } else if k > i {
            assert(b[i] == a[i]);
        }
    }
}

/// No string comes before itself.
pub proof fn lemma_lex_irreflexive(a: Seq<u8>)
    ensures
        !lex_lt(a, a),
{
}

/// Of two strings at most one comes before the other.
pub proof fn lemma_lex_asymmetric(a: Seq<u8>, b: Seq<u8>)
    requires
        lex_lt(a, b),
    ensures
        !lex_lt(b, a),
        a != b,
{
    let i = choose|i: int| precedes_at(a, b, i);
    if lex_lt(b, a) {
        let j = choose|j: int| precedes_at(b, a, j);
        if i < j {
            assert(b[i] == a[i]);
        } else if j < i {
            assert(a[j] == b[j]);
        }
    }
}

/// The order is transitive.
pub proof fn lemma_lex_transitive(a: Seq<u8>, b: Seq<u8>, c: Seq<u8>)
    requires
        lex_lt(a, b),
        lex_lt(b, c),
    ensures
        lex_lt(a, c),
{
    let i = choose|i: int| precedes_at(a, b, i);
    let j = choose|j: int| precedes_at(b, c, j);
    if i <= j {
        assert forall|k: int| 0 <= k < i implies a[k] == c[k] by {
            assert(a[k] == b[k]);
            assert(b[k] == c[k]);
        }
        if i < j {
            assert(b[i] == c[i]);
        }
        assert(precedes_at(a, c, i));
    } else {
        assert forall|k: int| 0 <= k < j implies a[k] == c[k] by {
            assert(a[k] == b[k]);
            assert(b[k] == c[k]);
        }
        assert(a[j] == b[j]);
        assert(precedes_at(a, c, j));
    }
}

/// Any two strings are ordered: one comes before the other, or they are one
/// string.
pub proof fn lemma_lex_total(a: Seq<u8>, b: Seq<u8>)
    ensures
        lex_lt(a, b) || a == b || lex_lt(b, a),
{
    lemma_lex_total_from(a, b, 0);
}

proof fn lemma_lex_total_from(a: Seq<u8>, b: Seq<u8>, i: int)
    requires
        agree_before(a, b, i),
    ensures
        lex_lt(a, b) || a == b || lex_lt(b, a),
    decreases a.len() - i,
{
    if i == a.len() || i == b.len() || a[i] != b[i] {
        lemma_parting_decides(a, b, i);
    } else {
        lemma_lex_total_from(a, b, i + 1);
    }
}

/// The length of the longest common prefix of `a` and `b`: the position at
/// which they part.
pub fn common_prefix(a: &[u8], b: &[u8]) -> (i: usize)
    ensures
        agree_before(a@, b@, i as int),
        i == a@.len() || i == b@.len() || a@[i as int] != b@[i as int],
        lex_lt(a@, b@) <==> i < b@.len() && (i == a@.len() || a@[i as int] < b@[i as int]),
        lex_lt(b@, a@) <==> i < a@.len() && (i == b@.len() || b@[i as int] < a@[i as int]),
        a@ == b@ <==> i == a@.len() && i == b@.len(),
{
    let mut i: usize = 0;
    while i < a.len() && i < b.len() && a[i] == b[i]
        invariant
            agree_before(a@, b@, i as int),
        decreases a@.len() - i,
    {
        i += 1;
    }
    proof {
        lemma_parting_decides(a@, b@, i as int);
    }
    i
}

/// Whether `a` comes strictly before `b`.
pub fn less(a: &[u8], b: &[u8]) -> (r: bool)
    ensures
        r == lex_lt(a@, b@),
{
    let i = common_prefix(a, b);
    i < b.len() && (i == a.len() || a[i] < b[i])
}

/// Whether `a` and `b` hold the same bytes.
pub fn same(a: &[u8], b: &[u8]) -> (r: bool)
    ensures
        r == (a@ == b@),
{
    let i = common_prefix(a, b);
    i == a.len() && i == b.len()
}

} // verus!
