use std::mem::size_of;

use identity_map::IdentityMap;

#[allow(clippy::len_zero)]
#[test]
fn test_identity_map() {
    assert_eq!(
        size_of::<IdentityMap<usize, u8>>(),
        size_of::<Option<IdentityMap<(), ()>>>()
    );

    let mut map = IdentityMap::<u32, u32>::new();

    assert!(map.capacity() == 0x0);
    assert!(map.len() == 0x0);
    assert!(map.is_empty());

    map.reserve(0x100);

    assert!(map.capacity() >= 0x100);
    assert!(map.len() == 0x0);
    assert!(map.is_empty());
    assert!(!map.contains_key(&u32::MIN));
    assert!(!map.contains_key(&u32::MAX));
    assert!(!map.contains_key(&(i32::MAX as u32)));

    assert_eq!(map.insert(u32::MIN, u32::MAX), None);

    assert!(map.capacity() >= 0x100);
    assert!(map.len() == 0x1);
    assert!(!map.is_empty());
    assert!(map.contains_key(&u32::MIN));
    assert!(!map.contains_key(&u32::MAX));
    assert!(!map.contains_key(&(i32::MAX as u32)));

    assert_eq!(map.insert(u32::MAX, u32::MIN), None);

    assert!(map.capacity() >= 0x100);
    assert!(map.len() == 0x2);
    assert!(!map.is_empty());
    assert!(map.contains_key(&u32::MIN));
    assert!(map.contains_key(&u32::MAX));
    assert!(!map.contains_key(&(i32::MAX as u32)));

    assert_eq!(map.remove(&u32::MIN), Some(u32::MAX));

    assert!(map.capacity() >= 0x100);
    assert!(map.len() == 0x1);
    assert!(!map.is_empty());
    assert!(!map.contains_key(&u32::MIN));
    assert!(map.contains_key(&u32::MAX));
    assert!(!map.contains_key(&(i32::MAX as u32)));

    assert_eq!(map.remove(&u32::MAX), Some(u32::MIN));

    assert!(map.capacity() >= 0x100);
    assert!(map.len() == 0x0);
    assert!(map.is_empty());
    assert!(!map.contains_key(&u32::MIN));
    assert!(!map.contains_key(&u32::MAX));
    assert!(!map.contains_key(&(i32::MAX as u32)));

    assert_eq!(map.remove(&u32::MIN), None);

    assert!(map.capacity() >= 0x100);
    assert!(map.len() == 0x0);
    assert!(map.is_empty());
    assert!(!map.contains_key(&u32::MIN));
    assert!(!map.contains_key(&u32::MAX));
    assert!(!map.contains_key(&(i32::MAX as u32)));
}

#[allow(clippy::len_zero)]
#[test]
fn test_test_identity_map() {
    assert_eq!(
        size_of::<IdentityMap<usize, u8>>(),
        size_of::<Option<IdentityMap<(), ()>>>()
    );

    let mut map = IdentityMap::<u32, u32>::new();

    assert_eq!(map.capacity(), 0x0);
    assert_eq!(map.len(), 0x0);

    assert!(map.is_empty());

    map.reserve(0x100);

    assert!(map.capacity() >= 0x100);
    assert!(map.len() == 0x0);
    assert!(map.is_empty());
    assert!(!map.contains_key(&u32::MIN));
    assert!(!map.contains_key(&u32::MAX));
    assert!(!map.contains_key(&(i32::MAX as u32)));

    map.insert(u32::MIN, u32::MAX);
    map.insert(u32::MAX, u32::MIN);

    assert!(map.capacity() >= 0x100);
    assert!(map.len() == 0x2);
    assert!(!map.is_empty());
    assert!(map.contains_key(&u32::MIN));
    assert!(map.contains_key(&u32::MAX));
    assert!(!map.contains_key(&(i32::MAX as u32)));

    assert_eq!(map.remove(&u32::MIN), Some(u32::MAX));

    assert!(map.capacity() >= 0x100);
    assert!(map.len() == 0x1);
    assert!(!map.is_empty());
    assert!(!map.contains_key(&u32::MIN));
    assert!(map.contains_key(&u32::MAX));
    assert!(!map.contains_key(&(i32::MAX as u32)));

    assert_eq!(map.remove(&u32::MAX), Some(u32::MIN));

    assert!(map.capacity() >= 0x100);
    assert!(map.len() == 0x0);
    assert!(map.is_empty());
    assert!(!map.contains_key(&u32::MIN));
    assert!(!map.contains_key(&u32::MAX));
    assert!(!map.contains_key(&(i32::MAX as u32)));

    assert_eq!(map.remove(&u32::MIN), None);

    assert!(map.capacity() >= 0x100);
    assert!(map.len() == 0x0);
    assert!(map.is_empty());
    assert!(!map.contains_key(&u32::MIN));
    assert!(!map.contains_key(&u32::MAX));
    assert!(!map.contains_key(&(i32::MAX as u32)));
}

#[test]
fn test_identity_map_clone() {
    let mut m0 = IdentityMap::<usize, char>::new();

    assert_eq!(m0.insert(0x0, '\u{20A3}'), None);
    assert_eq!(m0.insert(0x1, '\u{2611}'), None);

    let mut m1 = m0.clone();

    assert_eq!(m0.remove(&0x0), Some('\u{20A3}'));
    assert_eq!(m1.remove(&0x0), Some('\u{20A3}'));
    assert_eq!(m0.remove(&0x1), Some('\u{2611}'));
    assert_eq!(m1.remove(&0x1), Some('\u{2611}'));
}

#[test]
fn test_identity_map_from_array() {
    let data0 = vec![
        (true, true),
        (true, false),
        (false, true),
        (false, false),
        (true, false),
        (false, true),
    ];
    let data1 = vec![(false, true), (true, false)];

    let map0: IdentityMap<bool, bool> = IdentityMap::from_entries(data0);
    let map1: IdentityMap<bool, bool> = IdentityMap::from_entries(data1);

    assert_eq!(map0, map1);

    assert_eq!(map0.get(&true), Some(&false));
    assert_eq!(map0.get(&false), Some(&true));

    assert_eq!(map1.get(&true), Some(&false));
    assert_eq!(map1.get(&false), Some(&true));
}

#[test]
fn test_identity_map_iter() {
    let mut map = IdentityMap::<u8, u8>::from_entries(vec![
        (0xFF, 0x00),
        (0x7F, 0x80),
        (0x00, 0xFF),
    ]);

    let mut iter = map.iter();

    assert_eq!(iter.len(), 0x3);

    assert_eq!(iter.next(), Some((&0x00, &0xFF)));
    assert_eq!(iter.next(), Some((&0x7F, &0x80)));
    assert_eq!(iter.next(), Some((&0xFF, &0x00)));
    assert_eq!(iter.next(), None);

    // The mutating pass yields positions; entries are read back through the
    // map itself.
    let mut iter = map.iter_mut();

    assert_eq!(iter.len(), 0x3);

    let i = iter.next().unwrap();
    assert_eq!(map.get_entry(i), (&0x00, &0xFF));
    let i = iter.next().unwrap();
    assert_eq!(map.get_entry(i), (&0x7F, &0x80));
    let i = iter.next().unwrap();
    assert_eq!(map.get_entry(i), (&0xFF, &0x00));
    assert_eq!(iter.next(), None);

    let mut iter = map.keys();

    assert_eq!(iter.len(), 0x3);

    assert_eq!(iter.next(), Some(&0x00));
    assert_eq!(iter.next(), Some(&0x7F));
    assert_eq!(iter.next(), Some(&0xFF));
    assert_eq!(iter.next(), None);

    let mut iter = map.values();

    assert_eq!(iter.len(), 0x3);

    assert_eq!(iter.next(), Some(&0xFF));
    assert_eq!(iter.next(), Some(&0x80));
    assert_eq!(iter.next(), Some(&0x00));
    assert_eq!(iter.next(), None);

    let mut iter = map.values_mut();

    assert_eq!(iter.len(), 0x3);

    let i = iter.next().unwrap();
    assert_eq!(*map.get_entry(i).1, 0xFF);
    let i = iter.next().unwrap();
    assert_eq!(*map.get_entry(i).1, 0x80);
    let i = iter.next().unwrap();
    assert_eq!(*map.get_entry(i).1, 0x00);
    assert_eq!(iter.next(), None);

    let mut iter = map.clone().into_iter();

    assert_eq!(iter.len(), 0x3);

    assert_eq!(iter.next(), Some((0x00, 0xFF)));
    assert_eq!(iter.next(), Some((0x7F, 0x80)));
    assert_eq!(iter.next(), Some((0xFF, 0x00)));
    assert_eq!(iter.next(), None);

    let mut iter = map.clone().into_keys();

    assert_eq!(iter.len(), 0x3);

    assert_eq!(iter.next(), Some(0x00));
    assert_eq!(iter.next(), Some(0x7F));
    assert_eq!(iter.next(), Some(0xFF));
    assert_eq!(iter.next(), None);

    let mut iter = map.clone().into_values();

    assert_eq!(iter.len(), 0x3);

    assert_eq!(iter.next(), Some(0xFF));
    assert_eq!(iter.next(), Some(0x80));
    assert_eq!(iter.next(), Some(0x00));
    assert_eq!(iter.next(), None);
}

#[test]
fn test_test_identity_map_iter() {
    let mut map = IdentityMap::<u8, u8>::new();

    map.insert(0xFF, 0x00);
    map.insert(0x7F, 0x80);
    map.insert(0x00, 0xFF);

    let mut iter = map.iter();

    assert_eq!(iter.next(), Some((&0x00, &0xFF)));
    assert_eq!(iter.next(), Some((&0x7F, &0x80)));
    assert_eq!(iter.next(), Some((&0xFF, &0x00)));
    assert_eq!(iter.next(), None);

    let mut iter = map.iter_mut();

    let i = iter.next().unwrap();
    assert_eq!(map.get_entry(i), (&0x00, &0xFF));
    let i = iter.next().unwrap();
    assert_eq!(map.get_entry(i), (&0x7F, &0x80));
    let i = iter.next().unwrap();
    assert_eq!(map.get_entry(i), (&0xFF, &0x00));
    assert_eq!(iter.next(), None);

    let mut iter = map.into_iter();

    assert_eq!(iter.next(), Some((0x00, 0xFF)));
    assert_eq!(iter.next(), Some((0x7F, 0x80)));
    assert_eq!(iter.next(), Some((0xFF, 0x00)));
    assert_eq!(iter.next(), None);
}
