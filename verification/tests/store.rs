use ivec::sorted::SortedMap;
use ivec::{Batch, IVec, Tree};

fn iv(bytes: &[u8]) -> IVec {
    IVec::new(bytes)
}

fn pair(e: Option<(IVec, IVec)>) -> Option<(Vec<u8>, Vec<u8>)> {
    e.map(|(k, v)| (k.as_ref().to_vec(), v.as_ref().to_vec()))
}

fn sample() -> Tree {
    let mut tree = Tree::new();
    for key in [&b"b"[..], b"a", b"ab", b"", b"c", b"a long key that is stored remotely"] {
        let mut value = key.to_vec();
        value.push(b'!');
        assert!(tree.insert(key, iv(&value)).is_none());
    }
    tree
}

#[test]
fn empty_store_holds_nothing() {
    let mut tree = Tree::default();
    assert_eq!(tree.len(), 0);
    assert!(tree.is_empty());
    assert!(tree.get(b"a").is_none());
    assert!(!tree.contains_key(b""));
    assert!(tree.first().is_none());
    assert!(tree.last().is_none());
    assert!(tree.get_lt(b"z").is_none());
    assert!(tree.get_gt(b"").is_none());
    assert!(tree.pop_min().is_none());
    assert!(tree.pop_max().is_none());
    assert!(tree.remove(b"a").is_none());
    assert_eq!(tree.len(), 0);
}

#[test]
fn insert_get_remove() {
    let mut tree = sample();
    assert_eq!(tree.len(), 6);
    assert!(!tree.is_empty());
    assert_eq!(tree.get(b"ab").unwrap().as_ref(), b"ab!");
    assert_eq!(tree.get(b"").unwrap().as_ref(), b"!");
    assert!(tree.get(b"abc").is_none());
    assert!(tree.contains_key(b"a long key that is stored remotely"));
    assert_eq!(tree.insert(b"ab", iv(b"again")).unwrap().as_ref(), b"ab!");
    assert_eq!(tree.len(), 6);
    assert_eq!(tree.get(b"ab").unwrap().as_ref(), b"again");
    assert_eq!(tree.remove(b"ab").unwrap().as_ref(), b"again");
    assert!(tree.remove(b"ab").is_none());
    assert_eq!(tree.len(), 5);
    assert!(!tree.contains_key(b"ab"));
    assert!(tree.contains_key(b"a"));
}

#[test]
fn keys_are_ordered_byte_by_byte() {
    let mut tree = sample();
    let mut keys = Vec::new();
    while let Some((k, _)) = tree.pop_min() {
        keys.push(k.as_ref().to_vec());
    }
    let expected: Vec<Vec<u8>> = vec![
        b"".to_vec(),
        b"a".to_vec(),
        b"a long key that is stored remotely".to_vec(),
        b"ab".to_vec(),
        b"b".to_vec(),
        b"c".to_vec(),
    ];
    assert_eq!(keys, expected);
    assert!(tree.is_empty());
}

#[test]
fn first_and_last() {
    let mut tree = sample();
    assert_eq!(pair(tree.first()), Some((b"".to_vec(), b"!".to_vec())));
    assert_eq!(pair(tree.last()), Some((b"c".to_vec(), b"c!".to_vec())));
    assert_eq!(pair(tree.pop_max()), Some((b"c".to_vec(), b"c!".to_vec())));
    assert_eq!(pair(tree.last()), Some((b"b".to_vec(), b"b!".to_vec())));
    assert_eq!(pair(tree.pop_min()), Some((b"".to_vec(), b"!".to_vec())));
    assert_eq!(pair(tree.first()), Some((b"a".to_vec(), b"a!".to_vec())));
    assert_eq!(tree.len(), 4);
}

#[test]
fn neighbours_of_a_key() {
    let tree = sample();
    assert_eq!(pair(tree.get_lt(b"ab")).unwrap().0, b"a long key that is stored remotely");
    assert_eq!(pair(tree.get_gt(b"ab")).unwrap().0, b"b");
    assert_eq!(pair(tree.get_lt(b"aa")).unwrap().0, b"a long key that is stored remotely");
    assert_eq!(pair(tree.get_gt(b"aa")).unwrap().0, b"ab");
    assert_eq!(pair(tree.get_gt(b"")).unwrap().0, b"a");
    assert!(tree.get_lt(b"").is_none());
    assert_eq!(pair(tree.get_lt(b"\x00")).unwrap().0, b"");
    assert!(tree.get_gt(b"c").is_none());
    assert_eq!(pair(tree.get_lt(b"zzz")).unwrap().0, b"c");
    assert_eq!(pair(tree.get_gt(b"b\xff")).unwrap(), (b"c".to_vec(), b"c!".to_vec()));
}

#[test]
fn values_are_stored_without_a_copy_and_read_back_in_their_form() {
    let mut tree = Tree::new();
    let long = iv(&[9; 40]);
    tree.insert(b"long", long.clone());
    assert_eq!(long.ref_count(), Some(2));
    let read = tree.get(b"long").unwrap();
    assert!(!read.is_inline());
    assert_eq!(long.ref_count(), Some(3));
    drop(read);
    tree.insert(b"short", iv(&[1, 2, 3, 4, 5, 6, 7]));
    let read = tree.get(b"short").unwrap();
    assert!(read.is_inline());
    assert_eq!(read.inline_len(), 7);
    let (k, v) = tree.first().unwrap();
    assert!(k.is_inline() && !v.is_inline());
    drop(v);
    let (k, v) = tree.pop_max().unwrap();
    assert!(k.is_inline() && v.is_inline());
    assert_eq!(tree.remove(b"long").unwrap().ref_count(), Some(2));
}

#[test]
fn compare_and_swap_on_bytes() {
    let mut tree = Tree::new();
    let err = tree.compare_and_swap(b"k", Some(b"x"), Some(iv(b"y"))).unwrap_err();
    assert!(err.current.is_none());
    assert_eq!(err.proposed.unwrap().as_ref(), b"y");
    assert!(tree.is_empty());
    assert!(tree.compare_and_swap(b"k", None, Some(iv(b"y"))).is_ok());
    assert_eq!(tree.get(b"k").unwrap().as_ref(), b"y");
    let err = tree.compare_and_swap(b"k", None, None).unwrap_err();
    assert_eq!(err.current.unwrap().as_ref(), b"y");
    assert!(err.proposed.is_none());
    let err = tree.compare_and_swap(b"k", Some(b"yy"), Some(iv(b"z"))).unwrap_err();
    assert_eq!(err.current.unwrap().as_ref(), b"y");
    assert_eq!(tree.get(b"k").unwrap().as_ref(), b"y");
    assert!(tree.compare_and_swap(b"k", Some(b"y"), Some(iv(b"z"))).is_ok());
    assert_eq!(tree.get(b"k").unwrap().as_ref(), b"z");
    assert!(tree.compare_and_swap(b"k", Some(b"z"), None).is_ok());
    assert!(tree.is_empty());
}

#[test]
fn batch_keeps_the_last_write_per_key() {
    let mut batch = Batch::default();
    assert_eq!(batch.len(), 0);
    assert!(batch.get(b"a").is_none());
    batch.insert(iv(b"a"), iv(b"1"));
    batch.insert(iv(b"b"), iv(b"2"));
    batch.remove(iv(b"c"));
    batch.insert(iv(b"a"), iv(b"3"));
    batch.remove(iv(b"b"));
    batch.insert(iv(b"c"), iv(b"4"));
    assert_eq!(batch.len(), 3);
    assert_eq!(batch.get(b"a").unwrap().unwrap().as_ref(), b"3");
    assert!(batch.get(b"b").unwrap().is_none());
    assert_eq!(batch.get(b"c").unwrap().unwrap().as_ref(), b"4");
    assert!(batch.get(b"d").is_none());
    assert_eq!(batch.key_at(0).as_ref(), b"a");
    assert_eq!(batch.key_at(1).as_ref(), b"b");
    assert_eq!(batch.key_at(2).as_ref(), b"c");
    assert_eq!(batch.write_at(0).unwrap().as_ref(), b"3");
    assert!(batch.write_at(1).is_none());
}

#[test]
fn batches_are_cloned_and_compared_by_their_writes() {
    let mut first = Batch::new();
    first.insert(iv(b"b"), iv(b"2"));
    first.remove(iv(b"a"));
    first.insert(iv(b"long"), iv(&[7; 30]));
    let copy = first.clone();
    assert!(copy == first);
    assert_eq!(copy.len(), 3);
    assert_eq!(copy.get(b"b").unwrap().unwrap().as_ref(), b"2");
    assert!(copy.get(b"a").unwrap().is_none());
    assert_eq!(copy.get(b"long").unwrap().unwrap().ref_count(), Some(2));
    let mut second = Batch::new();
    second.insert(iv(b"long"), iv(&[7; 30]));
    second.remove(iv(b"a"));
    assert!(second != first);
    second.insert(iv(b"b"), iv(b"2"));
    assert!(second == first);
    second.insert(iv(b"b"), iv(b"3"));
    assert!(second != first);
    second.remove(iv(b"b"));
    assert!(second != first);
    let mut third = first.clone();
    third.insert(iv(b"a"), iv(b""));
    assert!(third != first);
    assert!(first.get(b"a").unwrap().is_none());
    assert!(Batch::new() == Batch::default());
    assert!(Batch::new() != first);
    assert!(first.same_entries(&copy));
}

#[test]
fn applying_a_batch() {
    let mut tree = sample();
    let mut batch = Batch::new();
    batch.remove(iv(b"a"));
    batch.remove(iv(b"not there"));
    batch.insert(iv(b"b"), iv(b"changed"));
    batch.insert(iv(b"new"), iv(b"added"));
    tree.apply_batch(batch);
    assert_eq!(tree.len(), 6);
    assert!(tree.get(b"a").is_none());
    assert!(tree.get(b"not there").is_none());
    assert_eq!(tree.get(b"b").unwrap().as_ref(), b"changed");
    assert_eq!(tree.get(b"new").unwrap().as_ref(), b"added");
    assert_eq!(tree.get(b"ab").unwrap().as_ref(), b"ab!");
    assert_eq!(tree.get(b"c").unwrap().as_ref(), b"c!");
    tree.apply_batch(Batch::new());
    assert_eq!(tree.len(), 6);
}

#[test]
fn sorted_map_positions() {
    let mut map: SortedMap<u32> = SortedMap::new();
    assert_eq!(map.len(), 0);
    assert_eq!(map.first_position(), None);
    assert_eq!(map.last_position(), None);
    assert_eq!(map.lower_bound(b"x"), 0);
    for (i, key) in [&b"m"[..], b"c", b"x", b"cc", b"a"].iter().enumerate() {
        assert_eq!(map.insert(iv(key), i as u32), None);
    }
    assert_eq!(map.insert(iv(b"c"), 10), Some(1));
    assert_eq!(map.len(), 5);
    assert_eq!(map.key_at(0).as_ref(), b"a");
    assert_eq!(map.key_at(1).as_ref(), b"c");
    assert_eq!(map.key_at(2).as_ref(), b"cc");
    assert_eq!(map.key_at(3).as_ref(), b"m");
    assert_eq!(map.key_at(4).as_ref(), b"x");
    assert_eq!(*map.value_at(1), 10);
    assert_eq!(map.get(b"cc"), Some(&3));
    assert_eq!(map.get(b"d"), None);
    assert_eq!(map.position(b"m"), Some(3));
    assert_eq!(map.position(b"n"), None);
    assert_eq!(map.lower_bound(b""), 0);
    assert_eq!(map.lower_bound(b"c"), 1);
    assert_eq!(map.lower_bound(b"cb"), 2);
    assert_eq!(map.lower_bound(b"z"), 5);
    assert_eq!(map.first_position(), Some(0));
    assert_eq!(map.last_position(), Some(4));
    assert_eq!(map.position_below(b"a"), None);
    assert_eq!(map.position_below(b"b"), Some(0));
    assert_eq!(map.position_below(b"c"), Some(0));
    assert_eq!(map.position_below(b"zz"), Some(4));
    assert_eq!(map.position_above(b"x"), None);
    assert_eq!(map.position_above(b"m"), Some(4));
    assert_eq!(map.position_above(b"l"), Some(3));
    assert_eq!(map.position_above(b""), Some(0));
    assert_eq!(map.remove(b"cc"), Some(3));
    assert_eq!(map.remove(b"cc"), None);
    let (k, v) = map.remove_at(0);
    assert_eq!((k.as_ref(), v), (&b"a"[..], 4));
    assert_eq!(map.len(), 3);
}
