use hashtable::LinkedHashMap;

#[test]
fn insert_test() {
    let mut map = LinkedHashMap::new();
    map.insert("abc", 123);

    assert_eq!(map.len(), 1);
}

#[test]
fn get_test() {
    let mut map = LinkedHashMap::new();
    map.insert("abc", 123);

    assert_eq!(map.get(&"abc"), Some(&123));
}

#[test]
fn remove_test() {
    let mut map = LinkedHashMap::new();
    map.insert("abc", 123);

    assert_eq!(map.len(), 1);

    map.remove(&"abc");

    assert_eq!(map.len(), 0);
}

#[test]
fn empty_table() {
    let map: LinkedHashMap<u64, i32> = LinkedHashMap::new();
    assert_eq!(map.len(), 0);
    assert!(map.is_empty());
    assert_eq!(map.bucket_count(), 0);
    assert_eq!(map.get(&7), None);
    assert!(!map.contains_key(&7));
}

#[test]
fn remove_on_empty_table() {
    let mut map: LinkedHashMap<u64, i32> = LinkedHashMap::new();
    assert_eq!(map.remove(&7), None);
    assert_eq!(map.len(), 0);
}

#[test]
fn round_trip_many_keys() {
    let mut map = LinkedHashMap::new();
    for k in 0u64..50 {
        map.insert(k, k * 3 + 1);
    }
    for k in 0u64..50 {
        assert_eq!(map.get(&k), Some(&(k * 3 + 1)));
        assert!(map.contains_key(&k));
    }
    assert_eq!(map.len(), 50);
}

#[test]
fn replacement_keeps_len() {
    let mut map = LinkedHashMap::new();
    assert_eq!(map.insert(5u64, 10i64), None);
    assert_eq!(map.len(), 1);
    assert_eq!(map.insert(5u64, 20i64), Some(10));
    assert_eq!(map.len(), 1);
    assert_eq!(map.get(&5), Some(&20));
    assert_eq!(map.insert(6u64, 30i64), None);
    assert_eq!(map.len(), 2);
}

#[test]
fn removal_decrements_len() {
    let mut map = LinkedHashMap::new();
    map.insert(1u64, 11i64);
    map.insert(2u64, 22i64);
    assert_eq!(map.remove(&1), Some(11));
    assert_eq!(map.len(), 1);
    assert_eq!(map.get(&1), None);
    assert_eq!(map.remove(&1), None);
    assert_eq!(map.len(), 1);
    assert_eq!(map.get(&2), Some(&22));
}

#[test]
fn load_factor_bound_holds() {
    let mut map = LinkedHashMap::new();
    for k in 0u64..100 {
        map.insert(k, k);
        if map.bucket_count() > 0 {
            assert!(map.len() <= 3 * map.bucket_count() / 4 + 1);
        }
    }
}

#[test]
fn resize_preserves_contents() {
    let mut map = LinkedHashMap::new();
    for k in 0u64..10 {
        map.insert(k, k * 7);
    }
    let before = map.bucket_count();
    map.resize();
    assert_eq!(map.bucket_count(), before * 2);
    assert_eq!(map.len(), 10);
    for k in 0u64..10 {
        assert_eq!(map.get(&k), Some(&(k * 7)));
    }
}

#[test]
fn iteration_yields_exactly_the_entries() {
    let mut map = LinkedHashMap::new();
    map.insert(1u64, 10i64);
    map.insert(2u64, 20i64);
    map.insert(3u64, 30i64);
    let mut seen: Vec<(u64, i64)> = Vec::new();
    let mut it = map.iter();
    loop {
        match it.next() {
            Some((k, v)) => seen.push((*k, *v)),
            None => break,
        }
    }
    assert_eq!(seen.len(), map.len());
    assert!(seen.contains(&(1, 10)));
    assert!(seen.contains(&(2, 20)));
    assert!(seen.contains(&(3, 30)));
    for (k, v) in seen {
        assert_eq!(map.get(&k), Some(&v));
    }
}

#[test]
fn iteration_on_empty_table() {
    let map: LinkedHashMap<u64, i32> = LinkedHashMap::new();
    let mut it = map.iter();
    assert!(it.next().is_none());
    assert!(it.next().is_none());
}

#[test]
fn insert_get_remove_scenario() {
    let mut map = LinkedHashMap::new();
    map.insert("abc", 123);
    assert_eq!(map.len(), 1);
    assert_eq!(map.get(&"abc"), Some(&123));
    assert_eq!(map.remove(&"abc"), Some(123));
    assert_eq!(map.len(), 0);
    assert_eq!(map.get(&"abc"), None);
}

#[test]
fn doubling_reaches_sixteen_buckets() {
    let mut map = LinkedHashMap::new();
    let expected: [usize; 10] = [1, 2, 4, 4, 8, 8, 8, 16, 16, 16];
    for k in 0u64..10 {
        map.insert(k, k);
        assert_eq!(map.bucket_count(), expected[k as usize]);
    }
    assert_eq!(map.len(), 10);
    assert_eq!(map.bucket_count(), 16);
}

#[test]
fn string_keys() {
    let mut map = LinkedHashMap::new();
    map.insert(String::from("one"), 1u32);
    map.insert(String::from("two"), 2u32);
    assert_eq!(map.get(&String::from("one")), Some(&1));
    assert_eq!(map.get(&String::from("two")), Some(&2));
    assert_eq!(map.get(&String::from("three")), None);
    assert_eq!(map.len(), 2);
}

#[test]
fn borrowed_key_lookup() {
    let mut map = LinkedHashMap::new();
    map.insert(String::from("alpha"), 1u32);
    map.insert(String::from("beta"), 2u32);
    assert_eq!(map.get(&"alpha"), Some(&1));
    assert!(map.contains_key(&"beta"));
    assert!(!map.contains_key(&"gamma"));
    assert_eq!(map.remove(&"alpha"), Some(1));
    assert_eq!(map.get(&"alpha"), None);
    assert_eq!(map.len(), 1);
}

#[test]
fn colliding_keys_share_a_bucket() {
    // The string hash sums the UTF-8 bytes, so anagrams collide and
    // chain within one bucket.
    let mut map = LinkedHashMap::new();
    map.insert("ab", 1u32);
    map.insert("ba", 2u32);
    map.insert("ab", 3u32);
    assert_eq!(map.len(), 2);
    assert_eq!(map.get(&"ab"), Some(&3));
    assert_eq!(map.get(&"ba"), Some(&2));
    assert_eq!(map.remove(&"ab"), Some(3));
    assert_eq!(map.get(&"ba"), Some(&2));
    assert_eq!(map.len(), 1);
}
