use ivec::{IVec, IntegerEncoding, StringEncoding, Tree, TypedTree, UpdateState};
use std::cell::Cell;

fn months() -> [&'static str; 12] {
    [
        "January",
        "February",
        "March",
        "April",
        "May",
        "June",
        "July",
        "August",
        "September",
        "October",
        "November",
        "December",
    ]
}

#[test]
fn test_typed_api() {
    // We open a tree and specify the desired encodings for keys and values
    let mut tree = Tree::new().with_encodings::<IntegerEncoding<u128>, StringEncoding>();

    // We can now insert entries without manually converting anything into bytes
    assert!(tree.insert(1, "January").is_none());
    assert!(tree.insert(2, "Febuary").is_none());
    assert!(tree.insert(3, "March").is_none());
    assert!(tree.insert(4, "April").is_none());
    assert!(tree.insert(5, "May").is_none());
    assert!(tree.insert(6, "June").is_none());
    assert!(tree.insert(7, "July").is_none());
    assert!(tree.insert(8, "August").is_none());
    assert!(tree.insert(9, "September").is_none());
    assert!(tree.insert(10, "October").is_none());
    assert!(tree.insert(11, "November").is_none());
    assert!(tree.insert(12, "December").is_none());

    // Fix spelling
    assert_eq!(tree.insert(2, "February").unwrap().decode().unwrap(), "Febuary");
    assert_eq!(tree.get(2).unwrap().decode().unwrap(), "February");

    assert_eq!(tree.contains_key(13), false);
    assert_eq!(tree.contains_key(3), true);

    // Get the first and last month of the year
    assert_eq!(tree.first().unwrap().0.decode().unwrap(), 1);
    assert_eq!(tree.first().unwrap().1.decode().unwrap(), "January");
    assert_eq!(tree.last().unwrap().0.decode().unwrap(), 12);
    assert_eq!(tree.last().unwrap().1.decode().unwrap(), "December");

    // what's around March?
    assert_eq!(tree.get_lt(3).unwrap().0.decode().unwrap(), 2);
    assert_eq!(tree.get_lt(3).unwrap().1.decode().unwrap(), "February");
    assert_eq!(tree.get_gt(3).unwrap().0.decode().unwrap(), 4);
    assert_eq!(tree.get_gt(3).unwrap().1.decode().unwrap(), "April");

    // Remove December, January and February
    let max = tree.pop_max().unwrap();
    assert_eq!(max.0.decode().unwrap(), 12);
    assert_eq!(max.1.decode().unwrap(), "December");
    assert_eq!(tree.last().unwrap().0.decode().unwrap(), 11);
    assert_eq!(tree.last().unwrap().1.decode().unwrap(), "November");

    let min = tree.pop_min().unwrap();
    assert_eq!(min.0.decode().unwrap(), 1);
    assert_eq!(min.1.decode().unwrap(), "January");
    assert_eq!(tree.first().unwrap().0.decode().unwrap(), 2);
    assert_eq!(tree.first().unwrap().1.decode().unwrap(), "February");

    assert_eq!(tree.remove(2).unwrap().decode().unwrap(), "February");

    assert_eq!(tree.len(), 9);
}

#[test]
fn test_typed_batches() {
    // We open a tree and specify the desired encodings for keys and values
    let mut tree = Tree::new().with_encodings::<IntegerEncoding<u128>, StringEncoding>();

    // Try to insert the months, but using a Batch
    tree.insert(2, "Febuary");
    tree.insert(13, "Encore");

    let mut batch = tree.make_batch();
    batch.remove(13);
    batch.insert(1, "January");
    batch.insert(2, "February");
    batch.insert(3, "March");
    batch.insert(4, "April");
    batch.insert(5, "May");
    batch.insert(6, "June");
    batch.insert(7, "July");
    batch.insert(8, "August");
    batch.insert(9, "September");
    batch.insert(10, "October");
    batch.insert(11, "November");
    batch.insert(12, "December");

    assert_eq!(batch.get(2).unwrap().unwrap().decode().unwrap(), "February");
    assert!(batch.get(13).unwrap().is_none());
    assert!(batch.get(14).is_none());

    tree.apply_batch(batch);

    assert_eq!(tree.get(2).unwrap().decode().unwrap(), "February");
    assert!(tree.get(13).is_none());
    assert_eq!(tree.len(), 12);
}

#[test]
fn test_typed_cas() {
    let mut tree = Tree::new().with_encodings::<IntegerEncoding<u128>, StringEncoding>();

    assert!(tree.get(1).is_none());
    let err = tree.compare_and_swap(1, Some("Before"), Some("January")).unwrap_err();
    assert!(err.current.is_none());
    assert_eq!(err.proposed.unwrap().decode().unwrap(), "January");
    assert!(tree.get(1).is_none());
    assert!(tree.compare_and_swap(1, None, Some("January")).is_ok());
    assert_eq!(tree.get(1).unwrap().decode().unwrap(), "January");

    assert!(tree.compare_and_swap(1, None, Some("February")).is_err());
    assert!(tree.compare_and_swap(1, Some("March"), Some("February")).is_err());
    assert!(tree.compare_and_swap(1, Some("January"), Some("February")).is_ok());
    assert_eq!(tree.get(1).unwrap().decode().unwrap(), "February");
}

#[test]
fn test_typed_update_fetch() {
    // We open a tree and specify the desired encodings for keys and values
    let mut tree =
        Tree::new().with_encodings::<IntegerEncoding<u128>, IntegerEncoding<u128>>();

    let new_counter = tree.update_and_fetch(1, |old| {
        let new = match old {
            None => 1,
            Some(ivec) => ivec.decode().unwrap() + 1,
        };
        Some(IVec::encode(new))
    });
    assert_eq!(new_counter.unwrap().decode().unwrap(), 1);
    assert_eq!(tree.get(1).unwrap().decode().unwrap(), 1);

    let old_counter = tree.fetch_and_update(1, |old| {
        let new = match old {
            None => 1,
            Some(ivec) => ivec.decode().unwrap() + 1,
        };
        Some(IVec::encode(new))
    });
    assert_eq!(old_counter.unwrap().decode().unwrap(), 1);
    assert_eq!(tree.get(1).unwrap().decode().unwrap(), 2);
}

#[test]
fn months_of_the_year_end_to_end() {
    let mut tree = TypedTree::<IntegerEncoding<u128>, StringEncoding>::new(Tree::new());
    for (i, name) in months().iter().enumerate() {
        assert!(tree.insert(i as u128 + 1, name).is_none());
    }
    let first = tree.first().unwrap();
    assert_eq!((first.0.decode().unwrap(), first.1.decode().unwrap()), (1, "January"));
    let last = tree.last().unwrap();
    assert_eq!((last.0.decode().unwrap(), last.1.decode().unwrap()), (12, "December"));
    let lt = tree.get_lt(3).unwrap();
    assert_eq!((lt.0.decode().unwrap(), lt.1.decode().unwrap()), (2, "February"));
    let gt = tree.get_gt(3).unwrap();
    assert_eq!((gt.0.decode().unwrap(), gt.1.decode().unwrap()), (4, "April"));
    let max = tree.pop_max().unwrap();
    assert_eq!((max.0.decode().unwrap(), max.1.decode().unwrap()), (12, "December"));
    let last = tree.last().unwrap();
    assert_eq!((last.0.decode().unwrap(), last.1.decode().unwrap()), (11, "November"));
    assert!(tree.get_lt(1).is_none());
    assert!(tree.get_gt(11).is_none());
    assert_eq!(tree.get_gt(0).unwrap().0.decode().unwrap(), 1);
    assert_eq!(tree.get_lt(u128::MAX).unwrap().0.decode().unwrap(), 11);
}

#[test]
fn integer_keys_come_out_in_numeric_order() {
    let mut tree = TypedTree::<IntegerEncoding<u128>, IntegerEncoding<u128>>::new(Tree::new());
    let keys = [300u128, 2, 70000, 255, 256, 1, u128::MAX, 0, 1 << 100];
    for k in keys {
        tree.insert(k, k * 0 + 7);
    }
    let mut sorted = keys.to_vec();
    sorted.sort();
    for expected in sorted {
        let popped = tree.pop_min().unwrap();
        assert_eq!(popped.0.decode().unwrap(), expected);
        assert_eq!(popped.1.decode().unwrap(), 7);
    }
    assert!(tree.pop_min().is_none());
    assert!(tree.pop_max().is_none());
    assert!(tree.first().is_none());
    assert!(tree.last().is_none());
}

#[test]
fn batch_removal_is_pending_until_applied() {
    let mut tree = Tree::new().with_encodings::<IntegerEncoding<u128>, StringEncoding>();
    tree.insert(42, "present");
    let mut batch = tree.make_batch();
    assert!(batch.get(42).is_none());
    batch.remove(42);
    assert_eq!(batch.get(42).map(|w| w.is_none()), Some(true));
    assert!(batch.get(43).is_none());
    assert!(tree.contains_key(42));
    tree.apply_batch(batch);
    assert!(!tree.contains_key(42));
    assert!(tree.get(42).is_none());
    assert_eq!(tree.len(), 0);
}

#[test]
fn last_write_to_a_key_wins_in_a_batch() {
    let mut tree = Tree::new().with_encodings::<IntegerEncoding<u128>, StringEncoding>();
    tree.insert(1, "old");
    let mut batch = tree.make_batch();
    batch.insert(1, "first");
    batch.remove(1);
    batch.insert(1, "second");
    batch.insert(2, "kept");
    batch.insert(3, "dropped");
    batch.remove(3);
    assert_eq!(batch.get(1).unwrap().unwrap().decode().unwrap(), "second");
    assert!(batch.get(3).unwrap().is_none());
    tree.apply_batch(batch);
    assert_eq!(tree.get(1).unwrap().decode().unwrap(), "second");
    assert_eq!(tree.get(2).unwrap().decode().unwrap(), "kept");
    assert!(tree.get(3).is_none());
    assert_eq!(tree.len(), 2);
}

#[test]
fn typed_batches_are_cloned_and_compared_by_their_writes() {
    let tree = Tree::new().with_encodings::<IntegerEncoding<u128>, StringEncoding>();
    let mut batch = tree.make_batch();
    batch.insert(1, "January");
    batch.remove(2);
    let mut copy = batch.clone();
    assert!(copy == batch);
    assert_eq!(copy.get(1).unwrap().unwrap().decode().unwrap(), "January");
    assert!(copy.get(2).unwrap().is_none());
    copy.insert(2, "February");
    assert!(copy != batch);
    assert!(batch.get(2).unwrap().is_none());
    let mut other = tree.make_batch();
    other.remove(2);
    assert!(other != batch);
    other.insert(1, "January");
    assert!(other == batch);
    assert!(tree.make_batch() == tree.make_batch());
}

#[test]
fn swap_conflict_reports_current_and_proposed() {
    let mut tree = Tree::new().with_encodings::<IntegerEncoding<u128>, StringEncoding>();
    tree.insert(5, "five");
    let err = tree.compare_and_swap(5, Some("six"), None).unwrap_err();
    assert_eq!(err.current.as_ref().unwrap().as_ref(), b"five");
    assert_eq!(err.current.as_ref().unwrap().decode().unwrap(), "five");
    assert!(err.proposed.is_none());
    assert_eq!(err.to_string(), "Compare and swap conflict");
    let copy = err.clone();
    assert_eq!(copy.current.unwrap().as_ref(), b"five");
    assert_eq!(tree.get(5).unwrap().decode().unwrap(), "five");
    assert!(tree.compare_and_swap(5, Some("five"), None).is_ok());
    assert!(tree.get(5).is_none());
    assert!(tree.compare_and_swap(5, None, None).is_ok());
    assert!(tree.get(5).is_none());
}

#[test]
fn swap_conflict_decodes_with_the_value_codec() {
    let mut tree = Tree::new().with_encodings::<IntegerEncoding<u128>, StringEncoding>();
    tree.insert(1, "");
    let err = tree.compare_and_swap(1, None, Some("text")).unwrap_err();
    assert_eq!(err.current.unwrap().decode(), Ok(""));
    assert_eq!(err.proposed.unwrap().decode(), Ok("text"));
    let mut counters = Tree::new().with_encodings::<StringEncoding, IntegerEncoding<u128>>();
    counters.insert("hits", 41);
    let err = counters.compare_and_swap("hits", Some(40), Some(42)).unwrap_err();
    assert_eq!(err.current.unwrap().decode(), Ok(41));
    assert_eq!(err.proposed.unwrap().decode(), Ok(42));
}

#[test]
fn update_can_remove_and_fetch_sees_the_old_value() {
    let mut tree = Tree::new().with_encodings::<IntegerEncoding<u128>, StringEncoding>();
    tree.insert(1, "one");
    let calls = Cell::new(0);
    let gone = tree.update_and_fetch(1, |old| {
        calls.set(calls.get() + 1);
        assert_eq!(old.unwrap().decode().unwrap(), "one");
        None
    });
    assert!(gone.is_none());
    assert!(!tree.contains_key(1));
    assert_eq!(calls.get(), 1);
    let before = tree.fetch_and_update(1, |old| {
        assert!(old.is_none());
        Some(IVec::encode("uno"))
    });
    assert!(before.is_none());
    assert_eq!(tree.get(1).unwrap().decode().unwrap(), "uno");
    let before = tree.fetch_and_update(1, |_| Some(IVec::encode("eins")));
    assert_eq!(before.unwrap().decode().unwrap(), "uno");
    assert_eq!(tree.get(1).unwrap().decode().unwrap(), "eins");
}

fn increment(old: Option<IVec<IntegerEncoding<u128>>>) -> Option<IVec<IntegerEncoding<u128>>> {
    let new = match old {
        None => 1,
        Some(ivec) => ivec.decode().unwrap() + 1,
    };
    Some(IVec::encode(new))
}

struct Worker {
    state: Option<UpdateState<IntegerEncoding<u128>>>,
    committed: usize,
    computed: usize,
}

impl Worker {
    fn new() -> Self {
        Worker { state: None, committed: 0, computed: 0 }
    }

    /// One step of the worker's current update; starts the next update where
    /// none is under way.
    fn step(
        &mut self,
        tree: &mut TypedTree<IntegerEncoding<u128>, IntegerEncoding<u128>>,
        key: &IVec<IntegerEncoding<u128>>,
    ) {
        let next = match self.state.take() {
            None => tree.begin_update(key),
            Some(state @ UpdateState::Computing { .. }) => {
                self.computed += 1;
                state.compute(&increment)
            }
            Some(state @ UpdateState::Swapping { .. }) => tree.try_swap(key, state),
            Some(UpdateState::Committed { .. }) => unreachable!(),
        };
        if next.is_committed() {
            self.committed += 1;
            self.state = None;
        } else {
            self.state = Some(next);
        }
    }
}

#[test]
fn two_interleaved_workers_lose_no_update() {
    let mut tree = Tree::new().with_encodings::<IntegerEncoding<u128>, IntegerEncoding<u128>>();
    let key = IVec::<IntegerEncoding<u128>>::encode(7);
    let mut a = Worker::new();
    let mut b = Worker::new();
    // The two take turns, one step each, so that each reads before the
    // other has swapped.
    while a.committed < 1000 || b.committed < 1000 {
        if a.committed < 1000 {
            a.step(&mut tree, &key);
        }
        if b.committed < 1000 {
            b.step(&mut tree, &key);
        }
    }
    assert_eq!(tree.get(7).unwrap().decode().unwrap(), 2000);
    assert_eq!(tree.len(), 1);
    assert_eq!(a.committed, 1000);
    assert_eq!(b.committed, 1000);
    assert!(a.computed >= 1000);
    assert!(b.computed >= 1000);
    assert!(a.computed + b.computed > 2000, "no swap was ever contended");
}

#[test]
fn a_contended_swap_goes_back_to_computing() {
    let mut tree = Tree::new().with_encodings::<IntegerEncoding<u128>, IntegerEncoding<u128>>();
    let key = IVec::<IntegerEncoding<u128>>::encode(1);
    let slow = tree.begin_update(&key).compute(&increment);
    let fast = tree.begin_update(&key).compute(&increment);
    match tree.try_swap(&key, fast) {
        UpdateState::Committed { previous, stored } => {
            assert!(previous.is_none());
            assert_eq!(stored.unwrap().decode().unwrap(), 1);
        }
        _ => panic!("the first swap is not contended"),
    }
    let slow = match tree.try_swap(&key, slow) {
        UpdateState::Computing { current } => {
            assert_eq!(current.as_ref().unwrap().decode().unwrap(), 1);
            UpdateState::Computing { current }
        }
        _ => panic!("the second swap found another value than it read"),
    };
    assert_eq!(tree.get(1).unwrap().decode().unwrap(), 1);
    match tree.try_swap(&key, slow.compute(&increment)) {
        UpdateState::Committed { previous, stored } => {
            assert_eq!(previous.unwrap().decode().unwrap(), 1);
            assert_eq!(stored.unwrap().decode().unwrap(), 2);
        }
        _ => panic!("the retried swap is not contended"),
    }
    assert_eq!(tree.get(1).unwrap().decode().unwrap(), 2);
}

#[test]
fn steps_out_of_turn_change_nothing() {
    let mut tree = Tree::new().with_encodings::<IntegerEncoding<u128>, IntegerEncoding<u128>>();
    let key = IVec::<IntegerEncoding<u128>>::encode(1);
    let computing = tree.begin_update(&key);
    assert!(!computing.is_committed());
    let still = tree.try_swap(&key, computing);
    assert!(matches!(still, UpdateState::Computing { current: None }));
    assert!(tree.get(1).is_none());
    let swapping = still.compute(&increment);
    let calls = Cell::new(0);
    let counting = |old| {
        calls.set(calls.get() + 1);
        increment(old)
    };
    let swapping = swapping.compute(&counting);
    assert_eq!(calls.get(), 0);
    let done = tree.try_swap(&key, swapping);
    assert!(done.is_committed());
    let done = done.compute(&counting);
    assert_eq!(calls.get(), 0);
    let done = tree.try_swap(&key, done);
    assert!(done.is_committed());
    assert_eq!(tree.get(1).unwrap().decode().unwrap(), 1);
}
