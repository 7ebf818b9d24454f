use identity_map::iter::RawIter;
use identity_map::{IdentityMap, IdentitySet};

#[test]
fn test_insert_three_sorted_iteration() {
    let mut map = IdentityMap::<i32, &'static str>::new();

    assert_eq!(map.insert(5, "a"), None);
    assert_eq!(map.insert(1, "b"), None);
    assert_eq!(map.insert(3, "c"), None);

    let mut iter = map.iter();
    assert_eq!(iter.next(), Some((&1, &"b")));
    assert_eq!(iter.next(), Some((&3, &"c")));
    assert_eq!(iter.next(), Some((&5, &"a")));
    assert_eq!(iter.next(), None);
}

#[test]
fn test_insert_overwrites_value() {
    let mut map = IdentityMap::<i32, &'static str>::new();

    assert_eq!(map.insert(5, "a"), None);
    assert_eq!(map.insert(5, "b"), Some("a"));
    assert_eq!(map.get(&5), Some(&"b"));
    assert_eq!(map.len(), 1);
}

#[test]
fn test_set_algebra_scenario() {
    let a = IdentitySet::<u32>::from_keys(vec![2, 4, 6, 8]);
    let b = IdentitySet::<u32>::from_keys(vec![1, 2, 3, 4]);

    let mut inter = a.intersection(&b);
    assert_eq!(inter.next(), Some(2));
    assert_eq!(inter.next(), Some(4));
    assert_eq!(inter.next(), None);

    let mut diff = a.difference(&b);
    assert_eq!(diff.next(), Some(6));
    assert_eq!(diff.next(), Some(8));
    assert_eq!(diff.next(), None);

    let mut uni = a.union(&b);
    assert_eq!(uni.next(), Some(1));
    assert_eq!(uni.next(), Some(2));
    assert_eq!(uni.next(), Some(3));
    assert_eq!(uni.next(), Some(4));
    assert_eq!(uni.next(), Some(6));
    assert_eq!(uni.next(), Some(8));
    assert_eq!(uni.next(), None);
}

#[test]
fn test_remove_missing_key_is_noop() {
    let mut map = IdentityMap::<u16, u16>::new();
    map.insert(10, 100);
    map.insert(20, 200);
    map.insert(30, 300);

    assert_eq!(map.remove(&25), None);
    assert_eq!(map.len(), 3);
    assert_eq!(map.get(&10), Some(&100));
    assert_eq!(map.get(&20), Some(&200));
    assert_eq!(map.get(&30), Some(&300));
}

#[test]
fn test_drain_full_map() {
    let mut map = IdentityMap::<u32, u32>::new();
    // Insert twenty entries out of order.
    for k in [
        13u32, 2, 19, 7, 0, 11, 5, 17, 3, 8, 1, 15, 9, 4, 18, 6, 12, 10, 16, 14,
    ] {
        assert_eq!(map.insert(k, k * 10), None);
    }
    assert_eq!(map.len(), 20);

    let mut drain = map.drain();
    assert!(map.is_empty());

    let mut yielded: Vec<u32> = Vec::new();
    loop {
        match drain.next() {
            Some((k, v)) => {
                assert_eq!(v, k * 10);
                yielded.push(k);
            }
            None => break,
        }
    }

    assert_eq!(yielded.len(), 20);
    for (i, k) in yielded.iter().enumerate() {
        assert_eq!(*k, i as u32);
    }
    assert!(map.is_empty());
}

#[test]
fn test_partial_into_iter() {
    let mut map = IdentityMap::<u8, u8>::new();
    for k in [4u8, 2, 5, 1, 3] {
        map.insert(k, k + 10);
    }

    let mut iter = map.into_iter();
    assert_eq!(iter.next(), Some((1, 11)));
    assert_eq!(iter.next(), Some((2, 12)));
    assert_eq!(iter.len(), 3);
    // The three entries never yielded are dropped with the iterator.
    drop(iter);
}

#[test]
fn test_distinct_inserts_grow_length() {
    let mut map = IdentityMap::<u64, u64>::new();
    for i in 0..50u64 {
        assert_eq!(map.insert(i * 3, i), None);
        assert_eq!(map.len(), (i + 1) as usize);
    }

    let mut map = IdentityMap::<u64, u64>::new();
    for i in 0..50u64 {
        map.insert(7, i);
        assert_eq!(map.len(), 1);
    }
    assert_eq!(map.get(&7), Some(&49));
}

#[test]
fn test_remove_after_insert() {
    let mut map = IdentityMap::<i64, &'static str>::new();
    map.insert(-5, "x");
    map.insert(12, "y");

    map.insert(3, "z");
    let before = map.len();
    assert_eq!(map.remove(&3), Some("z"));
    assert!(!map.contains_key(&3));
    assert_eq!(map.len(), before - 1);
}

#[test]
fn test_round_trip_rebuild() {
    let mut map = IdentityMap::<u8, char>::new();
    map.insert(9, 'i');
    map.insert(4, 'd');
    map.insert(7, 'g');
    map.insert(2, 'b');

    let mut pairs: Vec<(u8, char)> = Vec::new();
    let mut iter = map.iter();
    loop {
        match iter.next() {
            Some((k, v)) => pairs.push((*k, *v)),
            None => break,
        }
    }

    let rebuilt = IdentityMap::from_entries(pairs);
    assert_eq!(rebuilt, map);
}

#[test]
fn test_union_intersection_cardinality() {
    let a = IdentitySet::<i32>::from_keys(vec![1, 3, 5, 7, 9]);
    let b = IdentitySet::<i32>::from_keys(vec![3, 4, 5, 6]);

    let union_len = a.union(&b).len();
    let inter_len = a.intersection(&b).len();
    assert_eq!(union_len + inter_len, a.len() + b.len());
    assert_eq!(union_len, 7);
    assert_eq!(inter_len, 2);

    // The intersection is a subset of both operands.
    let mut inter = a.intersection(&b);
    loop {
        match inter.next() {
            Some(k) => {
                assert!(a.contains(&k));
                assert!(b.contains(&k));
            }
            None => break,
        }
    }
}

#[test]
fn test_length_never_exceeds_capacity() {
    let mut map = IdentityMap::<u32, u32>::new();
    assert!(map.len() <= map.capacity());
    for i in 0..40u32 {
        map.insert(i, i);
        assert!(map.len() <= map.capacity());
    }
    map.shrink_to_fit();
    assert!(map.len() <= map.capacity());
    assert_eq!(map.len(), 40);
    assert_eq!(map.get(&39), Some(&39));
    map.shrink_to(50);
    assert_eq!(map.get(&0), Some(&0));
}

#[test]
fn test_empty_map_boundaries() {
    let mut map = IdentityMap::<u8, u8>::new();
    assert_eq!(map.first_key_value(), None);
    assert_eq!(map.last_key_value(), None);
    assert_eq!(map.pop_first(), None);
    assert_eq!(map.pop_last(), None);
    assert_eq!(map.remove(&0), None);
    assert_eq!(map.get(&0), None);
    assert!(!map.contains_key(&0));
    assert_eq!(map.remove_entry(&0), None);
}

#[test]
fn test_boundary_access() {
    let mut map = IdentityMap::<i8, u8>::new();
    map.insert(5, 50);
    map.insert(-3, 30);
    map.insert(9, 90);

    assert_eq!(map.first_key_value(), Some((&-3, &30)));
    assert_eq!(map.last_key_value(), Some((&9, &90)));
    assert_eq!(map.pop_first(), Some((-3, 30)));
    assert_eq!(map.pop_last(), Some((9, 90)));
    assert_eq!(map.len(), 1);
    assert_eq!(map.get(&5), Some(&50));
}

#[test]
fn test_get_mut_writes_through() {
    let mut map = IdentityMap::<u8, u32>::new();
    map.insert(1, 100);
    map.insert(2, 200);

    match map.get_mut(&2) {
        Some(v) => *v = 999,
        None => unreachable!(),
    }
    assert_eq!(map.get(&2), Some(&999));
    assert_eq!(map.get(&1), Some(&100));
    assert_eq!(map.get_mut(&3), None);
}

#[test]
fn test_set_value_at_position() {
    let mut map = IdentityMap::<u8, u8>::new();
    map.insert(3, 30);
    map.insert(1, 10);

    // Position 0 carries the least key.
    assert_eq!(map.set_value(0, 77), 10);
    assert_eq!(map.get(&1), Some(&77));
    assert_eq!(map.get(&3), Some(&30));
}

#[test]
fn test_retain_keeps_approved_entries() {
    let mut map = IdentityMap::<u32, u32>::new();
    for i in 0..10u32 {
        map.insert(i, i * i);
    }

    map.retain(|k: &u32, _v: &u32| *k % 2 == 0);

    assert_eq!(map.len(), 5);
    let mut iter = map.iter();
    assert_eq!(iter.next(), Some((&0, &0)));
    assert_eq!(iter.next(), Some((&2, &4)));
    assert_eq!(iter.next(), Some((&4, &16)));
    assert_eq!(iter.next(), Some((&6, &36)));
    assert_eq!(iter.next(), Some((&8, &64)));
    assert_eq!(iter.next(), None);
}

#[test]
fn test_append_merges_and_empties_other() {
    let mut left = IdentityMap::<u8, &'static str>::new();
    left.insert(1, "one");
    left.insert(3, "three");

    let mut right = IdentityMap::<u8, &'static str>::new();
    right.insert(2, "two");
    right.insert(3, "THREE");

    left.append(&mut right);

    assert!(right.is_empty());
    assert_eq!(left.len(), 3);
    assert_eq!(left.get(&1), Some(&"one"));
    assert_eq!(left.get(&2), Some(&"two"));
    // On a duplicate key the appended map's value wins.
    assert_eq!(left.get(&3), Some(&"THREE"));
}

#[test]
fn test_replace_existing_entry() {
    let mut map = IdentityMap::<u16, u16>::new();
    map.insert(8, 80);

    assert_eq!(map.replace(8, 88), Some((8, 80)));
    assert_eq!(map.get(&8), Some(&88));
    assert_eq!(map.replace(9, 99), None);
    assert!(!map.contains_key(&9));
}

#[test]
fn test_iterator_back_ends() {
    let map = IdentityMap::<u8, u8>::from_entries(vec![(1, 10), (2, 20), (3, 30)]);

    let mut iter = map.iter();
    assert_eq!(iter.next_back(), Some((&3, &30)));
    assert_eq!(iter.next(), Some((&1, &10)));
    assert_eq!(iter.next_back(), Some((&2, &20)));
    assert_eq!(iter.next_back(), None);
    assert_eq!(iter.next(), None);

    let mut iter = map.clone().into_iter();
    assert_eq!(iter.next_back(), Some((3, 30)));
    assert_eq!(iter.next(), Some((1, 10)));
    assert_eq!(iter.next_back(), Some((2, 20)));
    assert_eq!(iter.next(), None);

    let mut keys = map.keys();
    assert_eq!(keys.next_back(), Some(&3));
    assert_eq!(keys.next_back(), Some(&2));
    assert_eq!(keys.next_back(), Some(&1));
    assert_eq!(keys.next_back(), None);

    let mut values = map.values();
    assert_eq!(values.next_back(), Some(&30));
    assert_eq!(values.next(), Some(&10));
    assert_eq!(values.next_back(), Some(&20));
    assert_eq!(values.next(), None);
}

#[test]
fn test_set_take_and_get() {
    let mut set = IdentitySet::<u64>::from_keys(vec![10, 20, 30]);

    assert_eq!(set.get(&20), Some(&20));
    assert_eq!(set.get(&25), None);
    assert_eq!(set.take(&20), Some(20));
    assert_eq!(set.take(&20), None);
    assert_eq!(set.len(), 2);
}

#[test]
fn test_set_drain_and_clear() {
    let mut set = IdentitySet::<u8>::from_keys(vec![5, 1, 9]);

    let mut drain = set.drain();
    assert!(set.is_empty());
    assert_eq!(drain.next(), Some(1));
    assert_eq!(drain.next_back(), Some(9));
    assert_eq!(drain.next(), Some(5));
    assert_eq!(drain.next(), None);

    let mut set = IdentitySet::<u8>::from_keys(vec![4, 8]);
    set.clear();
    assert!(set.is_empty());
    assert!(!set.contains(&4));
}

#[test]
fn test_duplicate_keys_collapse_last_wins() {
    let map = IdentityMap::<u8, u8>::from_entries(vec![(1, 10), (2, 20), (1, 11), (1, 12)]);
    assert_eq!(map.len(), 2);
    assert_eq!(map.get(&1), Some(&12));
    assert_eq!(map.get(&2), Some(&20));

    let set = IdentitySet::<u8>::from_keys(vec![3, 3, 3, 4]);
    assert_eq!(set.len(), 2);
}

#[test]
fn test_into_iter_len() {
    let map = IdentityMap::<u8, u8>::from_entries(vec![(2, 20), (1, 10)]);
    let mut iter = map.into_iter();

    assert_eq!(iter.next(), Some((1, 10)));
    assert_eq!(iter.len(), 1);
    assert_eq!(iter.next(), Some((2, 20)));
    assert_eq!(iter.next(), None);
    assert_eq!(iter.len(), 0);
}

#[test]
fn test_raw_iter_views() {
    let mut iter = RawIter::new(vec![(1u8, 'a'), (2u8, 'b'), (3u8, 'c')]);

    assert_eq!(iter.as_ptr(), &[(1, 'a'), (2, 'b'), (3, 'c')][..]);
    assert_eq!(iter.next(), Some((1, 'a')));
    assert_eq!(iter.as_ptr(), &[(2, 'b'), (3, 'c')][..]);
    assert_eq!(iter.next_back(), Some((3, 'c')));

    let view = iter.as_mut_ptr();
    assert_eq!(view, &mut [(2, 'b')][..]);
    view[0].1 = 'z';
    assert_eq!(iter.next(), Some((2, 'z')));
    assert_eq!(iter.next(), None);
}

#[test]
fn test_set_retain() {
    let mut set = IdentitySet::<i32>::from_keys(vec![1, 2, 3, 4, 5, 6]);

    set.retain(|k: &i32| *k % 3 != 0);

    assert_eq!(set.len(), 4);
    assert!(set.contains(&1));
    assert!(set.contains(&2));
    assert!(!set.contains(&3));
    assert!(set.contains(&4));
    assert!(set.contains(&5));
    assert!(!set.contains(&6));

    set.retain(|_k: &i32| false);
    assert!(set.is_empty());
}

#[test]
fn test_default_containers_are_empty() {
    let map: IdentityMap<u8, u8> = Default::default();
    assert!(map.is_empty());
    assert_eq!(map.capacity(), 0);

    let set: IdentitySet<u8> = Default::default();
    assert!(set.is_empty());
    assert_eq!(set.capacity(), 0);
}
