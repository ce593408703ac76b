use chained_collections::hashmap::HashMap;

fn make_entries() -> Vec<(i32, i32)> {
    let limit = 100;
    (1..limit).zip(1..limit).collect()
}

#[test]
fn iter_test_iterator() {
    let mut map = HashMap::new();

    // Make sure multiple buckets in map are filled
    for entry in make_entries() {
        map.put(entry.0, entry.1);
    }

    // Use iterator to pull out all items
    let mut map_items: Vec<(i32, i32)> = Vec::new();
    let mut iter = map.iter();
    while let Some(entry) = iter.next() {
        map_items.push((*entry.key, *entry.value));
    }
    let mut processed_entries = make_entries();

    // Map is unordered, so make sure these are in the same order
    map_items.sort_by_key(|entry| entry.0);
    processed_entries.sort_by_key(|entry| entry.0);

    assert_eq!(map_items, processed_entries);
}

#[test]
fn iter_mut_test_iterator() {
    let mut map = HashMap::new();

    // Make sure multiple buckets in map are filled
    for entry in make_entries() {
        map.put(entry.0, entry.1);
    }

    // Use iterator to pull out all items
    let mut map_items: Vec<(i32, i32)> = Vec::new();
    let mut iter = map.iter_mut();
    while let Some(entry) = iter.next(&mut map) {
        map_items.push((*entry.key, *entry.value));
    }
    let mut processed_entries = make_entries();

    // Map is unordered, so make sure these are in the same order
    map_items.sort_by_key(|entry| entry.0);
    processed_entries.sort_by_key(|entry| entry.0);

    assert_eq!(map_items, processed_entries);
}

#[test]
fn into_iter_test_iterator() {
    let mut map = HashMap::new();

    // Make sure multiple buckets in map are filled
    for entry in make_entries() {
        map.put(entry.0, entry.1);
    }

    // Use iterator to pull out all items
    let mut map_items: Vec<(i32, i32)> = Vec::new();
    let mut iter = map.into_iter();
    while let Some(entry) = iter.next() {
        map_items.push((entry.key, entry.value));
    }
    let mut processed_entries = make_entries();

    // Map is unordered, so make sure these are in the same order
    map_items.sort_by_key(|entry| entry.0);
    processed_entries.sort_by_key(|entry| entry.0);

    assert_eq!(map_items, processed_entries);
}

#[test]
fn test_iter_mutation() {
    let mut map = HashMap::new();

    map.put(1, 1);

    {
        let mut iter = map.iter_mut();
        let some_entry = iter.next(&mut map).unwrap();
        *some_entry.value = 2;
    }

    assert_eq!(map.get(&1), Some(&2));
}

#[test]
fn cannot_mutate_key() {
    let mut map = HashMap::new();

    map.put(1, 1);

    {
        let mut iter = map.iter_mut();
        let mut some_entry = iter.next(&mut map).unwrap();
        some_entry.key = &6;
    }

    assert_eq!(map.get(&1), Some(&1));
}

#[test]
fn test_views_on_empty_map() {
    let mut map: HashMap<u64, u64> = HashMap::new();

    let mut iter = map.iter();
    assert!(iter.next().is_none());

    let mut iter_mut = map.iter_mut();
    assert!(iter_mut.next(&mut map).is_none());

    let mut into_iter = map.into_iter();
    assert!(into_iter.next().is_none());
}

#[test]
fn test_iter_mut_rebinds_every_value() {
    let mut map: HashMap<u64, u64> = HashMap::with_capacity(4);
    for key in 0..10u64 {
        map.put(key, key);
    }

    let mut iter = map.iter_mut();
    while let Some(entry) = iter.next(&mut map) {
        *entry.value += 100;
    }

    for key in 0..10u64 {
        assert_eq!(map.get(&key), Some(&(key + 100)));
    }
}
