//! The optimistic update of one key, seen from the key.
//!
//! Many updates may be under way at once, each having read the key at some
//! time and each bringing its swap at some later time. Whatever their
//! order, the key only ever sees a sequence of attempted swaps. This module
//! says what such a sequence does to the key: each swap that goes through
//! applies the transform once to what the key held just then, and a swap
//! that does not go through leaves the key alone. So no update is lost and
//! none counts twice.

use crate::big_endian::{be_bytes, be_value, lemma_pow256_u128, lemma_value_of_bytes};
use crate::ivec::{option_view, IVec};
use crate::tree_typed::computed_from;
use vstd::prelude::*;

verus! {

/// What a key holds, or is to hold: bytes, or `None` for no value.
pub type Held = Option<Seq<u8>>;

/// What the key holds after a swap from `current` to `next` was tried while
/// it held `held`: `next` where it held `current`, else what it held.
pub open spec fn settle(held: Held, current: Held, next: Held) -> Held {
    if held == current {
        next
    } else {
        held
    }
}

/// What the key holds after the attempted swaps `attempts`, tried in order
/// on a key that held `held`. Each attempt is the value that its update had
/// read and the value that it would store.
pub open spec fn held_after(held: Held, attempts: Seq<(Held, Held)>) -> Held
    decreases attempts.len(),
{
    if attempts.len() == 0 {
        held
    } else {
        settle(held_after(held, attempts.drop_last()), attempts.last().0, attempts.last().1)
    }
}

/// How many of the attempted swaps went through.
pub open spec fn commits(held: Held, attempts: Seq<(Held, Held)>) -> nat
    decreases attempts.len(),
{
    if attempts.len() == 0 {
        0
    } else if held_after(held, attempts.drop_last()) == attempts.last().0 {
        commits(held, attempts.drop_last()) + 1
    } else {
        commits(held, attempts.drop_last())
    }
}

/// `path` leads from `from` to `to` by `n` steps, one after the other.
pub open spec fn is_path(
    step: spec_fn(Held, Held) -> bool,
    path: Seq<Held>,
    n: nat,
    from: Held,
    to: Held,
) -> bool {
    &&& path.len() == n + 1
    &&& path[0] == from
    &&& path[n as int] == to
    &&& forall|i: int| 0 <= i < n ==> step(#[trigger] path[i], path[i + 1])
}

/// `to` comes from `from` by `n` steps, one after the other.
pub open spec fn reached(step: spec_fn(Held, Held) -> bool, n: nat, from: Held, to: Held) -> bool {
    exists|path: Seq<Held>| is_path(step, path, n, from, to)
}

/// The steps that the transform `f` can take: from the bytes of a buffer
/// that it may be given to the bytes of a buffer that it may then give.
pub open spec fn transform_step<V, F: Fn(Option<IVec<V>>) -> Option<IVec<V>>>(f: F) -> spec_fn(
    Held,
    Held,
) -> bool {
    |current: Held, next: Held|
        exists|out: Option<IVec<V>>| #[trigger]
            computed_from(f, current, out) && option_view(out) == next
}

/// What [`crate::tree_typed::UpdateState::compute`] hands on to the swap is
/// a step of the transform.
pub proof fn lemma_computed_is_a_step<V, F: Fn(Option<IVec<V>>) -> Option<IVec<V>>>(
    f: F,
    current: Held,
    next: Option<IVec<V>>,
)
    requires
        computed_from(f, current, next),
    ensures
        transform_step(f)(current, option_view(next)),
{
}

proof fn lemma_one_more_step(
    step: spec_fn(Held, Held) -> bool,
    n: nat,
    from: Held,
    mid: Held,
    to: Held,
)
    requires
        reached(step, n, from, mid),
        step(mid, to),
    ensures
        reached(step, n + 1, from, to),
{
    let path = choose|path: Seq<Held>| is_path(step, path, n, from, mid);
    let longer = path.push(to);
    assert forall|i: int| 0 <= i < n + 1 implies step(#[trigger] longer[i], longer[i + 1]) by {
        if i < n {
            assert(longer[i] == path[i] && longer[i + 1] == path[i + 1]);
        }
    }
    assert(is_path(step, longer, n + 1, from, to));
}

/// No update is lost and none counts twice. Where every attempted swap
/// brings a step of the transform from the value that its update had read,
/// the key ends up where as many steps as swaps went through lead from
/// where it began, one after the other, in whatever order the attempts came
/// and however many of them found another value than they had read.
pub proof fn lemma_no_lost_update(
    step: spec_fn(Held, Held) -> bool,
    held: Held,
    attempts: Seq<(Held, Held)>,
)
    requires
        forall|i: int| 0 <= i < attempts.len() ==> step(attempts[i].0, attempts[i].1),
    ensures
        reached(step, commits(held, attempts), held, held_after(held, attempts)),
    decreases attempts.len(),
{
    if attempts.len() > 0 {
        let earlier = attempts.drop_last();
        lemma_no_lost_update(step, held, earlier);
        let before = held_after(held, earlier);
        let last = attempts[attempts.len() - 1];
        assert(step(last.0, last.1));
        if before == last.0 {
            lemma_one_more_step(step, commits(held, earlier), held, before, last.1);
        }
    } else {
        assert(is_path(step, seq![held], 0, held, held));
    }
}

/// `g` applied `n` times, one after the other, to `v`.
pub open spec fn applied(g: spec_fn(Held) -> Held, n: nat, v: Held) -> Held
    decreases n,
{
    if n == 0 {
        v
    } else {
        g(applied(g, (n - 1) as nat, v))
    }
}

/// With a transform that gives one value for each value, the key ends up
/// with the transform applied to what it held at first as many times as
/// swaps went through.
pub proof fn lemma_updates_apply_in_turn(
    g: spec_fn(Held) -> Held,
    held: Held,
    attempts: Seq<(Held, Held)>,
)
    requires
        forall|i: int| 0 <= i < attempts.len() ==> attempts[i].1 == g(attempts[i].0),
    ensures
        held_after(held, attempts) == applied(g, commits(held, attempts), held),
    decreases attempts.len(),
{
    if attempts.len() > 0 {
        lemma_updates_apply_in_turn(g, held, attempts.drop_last());
        let last = attempts[attempts.len() - 1];
        assert(last.1 == g(last.0));
    }
}

/// What a counter holds after one more count: one where it held nothing,
/// else the number after the one it held, as sixteen bytes.
pub open spec fn counted(held: Held) -> Held {
    match held {
        Some(bytes) => Some(be_bytes(be_value(bytes) + 1, 16)),
        None => Some(be_bytes(1, 16)),
    }
}

/// A counter that held nothing holds `n` after `n` counts.
pub proof fn lemma_counter_counts(n: nat)
    requires
        0 < n <= u128::MAX,
    ensures
        applied(|held: Held| counted(held), n, None) == Some(be_bytes(n, 16)),
    decreases n,
{
    let g = |held: Held| counted(held);
    if n > 1 {
        lemma_counter_counts((n - 1) as nat);
        lemma_pow256_u128();
        lemma_value_of_bytes((n - 1) as nat, 16);
        assert(applied(g, n, None) == g(applied(g, (n - 1) as nat, None)));
    } else {
        assert(applied(g, 0, None) == None::<Seq<u8>>);
        assert(applied(g, 1, None) == g(applied(g, 0, None)));
    }
}

/// A counter loses no count. Where every attempted swap brings one more
/// count than its update had read, a counter that held nothing holds the
/// number of the swaps that went through, in whatever order the attempts
/// came and however many there were of them.
pub proof fn lemma_counter_loses_no_count(attempts: Seq<(Held, Held)>)
    requires
        forall|i: int| 0 <= i < attempts.len() ==> attempts[i].1 == counted(attempts[i].0),
        0 < commits(None, attempts) <= u128::MAX,
    ensures
        held_after(None, attempts) == Some(be_bytes(commits(None, attempts), 16)),
{
    let g = |held: Held| counted(held);
    assert forall|i: int| 0 <= i < attempts.len() implies attempts[i].1 == g(attempts[i].0) by {}
    lemma_updates_apply_in_turn(g, None, attempts);
    lemma_counter_counts(commits(None, attempts));
}

/// An attempted swap that does not go through changes nothing, and one that
/// goes through stores what it brought.
pub proof fn lemma_attempt(held: Held, attempts: Seq<(Held, Held)>, current: Held, next: Held)
    ensures
        held_after(held, attempts.push((current, next))) == settle(
            held_after(held, attempts),
            current,
            next,
        ),
        commits(held, attempts.push((current, next))) == commits(held, attempts) + if held_after(
            held,
            attempts,
        ) == current {
            1nat
        } else {
            0nat
        },
{
    assert(attempts.push((current, next)).drop_last() =~= attempts);
}

} // verus!
