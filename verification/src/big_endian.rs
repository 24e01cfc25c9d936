//! Unsigned integers as byte strings of a fixed width, most significant byte
//! first. Among strings of one width the order of the strings is the order
//! of the numbers, which is what makes such strings fit as keys.

use crate::order::{agree_before, lemma_lex_total, lex_lt, precedes_at};
use vstd::prelude::*;

verus! {

/// The number of bytes of a `u128`.
pub const U128_WIDTH: usize = 16;

/// 256 to the power `n`: how many numbers `n` bytes can tell apart.
pub open spec fn pow256(n: nat) -> nat
    decreases n,
{
    if n == 0 {
        1
    } else {
        256 * pow256((n - 1) as nat)
    }
}

/// The number that `bytes` stand for, the first byte weighing most.
pub open spec fn be_value(bytes: Seq<u8>) -> nat
    decreases bytes.len(),
{
    if bytes.len() == 0 {
        0
    } else {
        be_value(bytes.drop_last()) * 256 + bytes.last() as nat
    }
}

/// The `width` low bytes of `x`, the one that weighs most first.
pub open spec fn be_bytes(x: nat, width: nat) -> Seq<u8>
    decreases width,
{
    if width == 0 {
        Seq::empty()
    } else {
        be_bytes(x / 256, (width - 1) as nat).push((x % 256) as u8)
    }
}

/// `be_bytes` gives as many bytes as asked for.
pub proof fn lemma_be_bytes_len(x: nat, width: nat)
    ensures
        be_bytes(x, width).len() == width,
    decreases width,
{
    if width > 0 {
        lemma_be_bytes_len(x / 256, (width - 1) as nat);
    }
}

/// A string of `n` bytes stands for a number below 256 to the `n`.
pub proof fn lemma_be_value_bound(bytes: Seq<u8>)
    ensures
        be_value(bytes) < pow256(bytes.len()),
    decreases bytes.len(),
{
    if bytes.len() > 0 {
        lemma_be_value_bound(bytes.drop_last());
    }
}

/// A number that fits in `width` bytes is the value of its bytes.
pub proof fn lemma_value_of_bytes(x: nat, width: nat)
    requires
        x < pow256(width),
    ensures
        be_value(be_bytes(x, width)) == x,
    decreases width,
{
    if width > 0 {
        let rest = be_bytes(x / 256, (width - 1) as nat);
        lemma_value_of_bytes(x / 256, (width - 1) as nat);
        assert(rest.push((x % 256) as u8).drop_last() =~= rest);
    }
}

/// A byte string is the bytes of its value, at its own width.
pub proof fn lemma_bytes_of_value(bytes: Seq<u8>)
    ensures
        be_bytes(be_value(bytes), bytes.len()) == bytes,
    decreases bytes.len(),
{
    if bytes.len() > 0 {
        lemma_bytes_of_value(bytes.drop_last());
        let v = be_value(bytes);
        assert(v / 256 == be_value(bytes.drop_last()));
        assert(v % 256 == bytes.last() as nat);
        assert(bytes.drop_last().push(bytes.last()) =~= bytes);
    } else {
        assert(bytes =~= Seq::<u8>::empty());
    }
}

proof fn lemma_smaller_at_gives_smaller_value(a: Seq<u8>, b: Seq<u8>, i: int)
    requires
        a.len() == b.len(),
        agree_before(a, b, i),
        i < a.len(),
        a[i] < b[i],
    ensures
        be_value(a) < be_value(b),
    decreases a.len(),
{
    if i == a.len() - 1 {
        assert(a.drop_last() =~= b.drop_last());
    } else {
        lemma_smaller_at_gives_smaller_value(a.drop_last(), b.drop_last(), i);
    }
}

/// Among byte strings of one length the order of the strings is the order of
/// the numbers they stand for.
pub proof fn lemma_order_is_numeric(a: Seq<u8>, b: Seq<u8>)
    requires
        a.len() == b.len(),
    ensures
        lex_lt(a, b) <==> be_value(a) < be_value(b),
{
    if lex_lt(a, b) {
        let i = choose|i: int| precedes_at(a, b, i);
        lemma_smaller_at_gives_smaller_value(a, b, i);
    }
    if be_value(a) < be_value(b) {
        lemma_lex_total(a, b);
        if lex_lt(b, a) {
            let i = choose|i: int| precedes_at(b, a, i);
            lemma_smaller_at_gives_smaller_value(b, a, i);
        }
    }
}

/// Sixteen bytes tell apart exactly the values of a `u128`.
pub proof fn lemma_pow256_u128()
    ensures
        pow256(16) == u128::MAX + 1,
{
    reveal_with_fuel(pow256, 17);
}

/// The sixteen bytes of `x`, the one that weighs most first.
pub fn to_be_bytes(x: u128) -> (out: [u8; U128_WIDTH])
    ensures
        out@ == be_bytes(x as nat, 16),
{
    let mut out = [0u8; U128_WIDTH];
    let mut rest = x;
    let mut n: usize = U128_WIDTH;
    while n > 0
        invariant
            n <= 16,
            be_bytes(x as nat, 16) == be_bytes(rest as nat, n as nat) + out@.subrange(n as int, 16),
        decreases n,
    {
        let ghost before = out@;
        n -= 1;
        out[n] = (rest % 256) as u8;
        rest = rest / 256;
        proof {
            lemma_be_bytes_len(rest as nat, n as nat);
            assert(be_bytes(rest as nat, n as nat).push(out@[n as int]) + before.subrange(
                n as int + 1,
                16,
            ) =~= be_bytes(rest as nat, n as nat) + out@.subrange(n as int, 16));
        }
    }
    assert(be_bytes(rest as nat, 0) + out@.subrange(0, 16) =~= out@);
    out
}

/// The number that sixteen bytes stand for, the first byte weighing most.
pub fn from_be_bytes(bytes: &[u8]) -> (x: u128)
    requires
        bytes@.len() == 16,
    ensures
        x == be_value(bytes@),
{
    let mut x: u128 = 0;
    let mut i: usize = 0;
    while i < U128_WIDTH
        invariant
            bytes@.len() == 16,
            i <= 16,
            x == be_value(bytes@.subrange(0, i as int)),
        decreases 16 - i,
    {
        proof {
            let next = bytes@.subrange(0, i as int + 1);
            assert(next.drop_last() =~= bytes@.subrange(0, i as int));
            lemma_be_value_bound(next);
            lemma_pow256_u128();
            assert(pow256(next.len()) <= pow256(16)) by {
                lemma_pow256_monotonic(next.len(), 16);
            }
        }
        x = x * 256 + bytes[i] as u128;
        i += 1;
    }
    assert(bytes@.subrange(0, 16) =~= bytes@);
    x
}

proof fn lemma_pow256_monotonic(m: nat, n: nat)
    requires
        m <= n,
    ensures
        pow256(m) <= pow256(n),
    decreases n,
{
    if m < n {
        lemma_pow256_monotonic(m, (n - 1) as nat);
    }
}

} // verus!
