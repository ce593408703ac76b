use chained_collections::hashmap::options::{LoadFactor, Options};
use chained_collections::hashmap::{find_key_index, hash, HashMap, MapKey};

#[derive(PartialEq, Eq, Debug, Clone, Copy)]
struct StrKey(&'static str);

impl MapKey for StrKey {
    fn hash_spec(&self) -> u64 {
        self.0.as_bytes().iter().map(|b| *b as u64).sum()
    }

    fn hash_code(&self) -> u64 {
        self.0.as_bytes().iter().map(|b| *b as u64).sum()
    }

    fn key_eq(&self, other: &Self) -> bool {
        self.0 == other.0
    }
}

#[derive(PartialEq, Eq, Debug, Clone)]
struct OwnedKey(String);

impl MapKey for OwnedKey {
    fn hash_spec(&self) -> u64 {
        self.0.as_bytes().iter().map(|b| *b as u64).sum()
    }

    fn hash_code(&self) -> u64 {
        self.0.as_bytes().iter().map(|b| *b as u64).sum()
    }

    fn key_eq(&self, other: &Self) -> bool {
        self.0 == other.0
    }
}

#[test]
fn test_get_put() {
    let mut map: HashMap<StrKey, &str> = HashMap::new();

    // value is None when not present
    assert_eq!(map.get(&StrKey("foo")), None);

    // verify put and get
    map.put(StrKey("foo"), "1");
    assert_eq!(map.get(&StrKey("foo")), Some(&"1"));

    // verify that another key/value pair works
    map.put(StrKey("bar"), "2");
    assert_eq!(map.get(&StrKey("bar")), Some(&"2"));
}

#[test]
fn test_pop() {
    let mut map = HashMap::new();

    map.put(StrKey("foo"), "1");
    assert_eq!(map.pop(&StrKey("foo")), Some("1"));
    assert_eq!(map.get(&StrKey("foo")), None);
    assert_eq!(map.pop(&StrKey("foo")), None);
}

#[test]
fn test_put_overwrite() {
    let mut map = HashMap::new();

    map.put(StrKey("foo"), "1");
    assert_eq!(map.put(StrKey("foo"), "2"), Some("1"));
    assert_eq!(map.get(&StrKey("foo")), Some(&"2"));
}

#[derive(PartialEq, Eq)]
struct MyKey {
    foo: i32,
}

impl MyKey {
    pub fn new(val: i32) -> Self {
        MyKey { foo: val }
    }
}

impl MapKey for MyKey {
    fn hash_spec(&self) -> u64 {
        1
    }

    fn hash_code(&self) -> u64 {
        1 // Always give same hash
    }

    fn key_eq(&self, other: &Self) -> bool {
        self == other
    }
}

#[test]
fn test_keys_colliding_hash() {
    let mut map = HashMap::new();

    // Sanity check that hashes are the same
    assert_eq!(hash(&MyKey::new(1)), hash(&MyKey::new(2)));

    // Insert two different K->V pairs with same hash
    assert_eq!(map.put(MyKey::new(1), "1"), None);
    assert_eq!(map.put(MyKey::new(2), "2"), None);

    assert_eq!(map.get(&MyKey::new(1)), Some(&"1"));
    assert_eq!(map.get(&MyKey::new(2)), Some(&"2"));
}

fn make_string_entries() -> Vec<(String, i32)> {
    (1..100).map(|i: i32| i.to_string()).zip(1..100).collect()
}

#[test]
fn test_resize() {
    let mut map = HashMap::with_capacity(16);

    let entries = make_string_entries();

    // Fill map
    for entry in entries.iter() {
        map.put(OwnedKey(entry.0.clone()), entry.1);
    }

    // Resizing map larger doesn't mess up keys
    map.resize(100);
    for entry in entries.iter() {
        assert_eq!(map.get(&OwnedKey(entry.0.clone())), Some(&entry.1));
    }

    // Shrinking map doesn't mess up keys
    map.resize(2);
    for entry in entries.iter() {
        assert_eq!(map.get(&OwnedKey(entry.0.clone())), Some(&entry.1));
    }
}

#[test]
fn test_size() {
    let mut map = HashMap::new();

    assert_eq!(map.size(), 0);

    map.put(StrKey("key"), 1);
    assert_eq!(map.size(), 1);

    map.pop(&StrKey("key"));
    assert_eq!(map.size(), 0);

    map.pop(&StrKey("key"));
    assert_eq!(map.size(), 0);
}

#[test]
fn test_dynamic_resizing() {
    let initial_capacity = 16;
    let mut map = HashMap::with_capacity(initial_capacity);

    assert_eq!(map.capacity(), initial_capacity);

    let entries = make_string_entries();

    for entry in entries.iter() {
        map.put(OwnedKey(entry.0.clone()), entry.1);
    }

    assert!(map.capacity() > initial_capacity);

    for entry in entries.iter() {
        assert_eq!(map.get(&OwnedKey(entry.0.clone())), Some(&entry.1));
    }
}

#[test]
fn test_no_dynamic_resizing() {
    let options = Options {
        initial_capacity: Some(4),
        load_factor: None,
        dynamic_resizing: Some(false),
    };
    let config = options.validate().unwrap();
    let mut map: HashMap<u64, u64> = HashMap::with_configuration(config);

    for key in 0..50u64 {
        map.put(key, key * 10);
    }

    // capacity never changes regardless of insert volume
    assert_eq!(map.capacity(), 4);
    assert_eq!(map.size(), 50);
    for key in 0..50u64 {
        assert_eq!(map.get(&key), Some(&(key * 10)));
    }
}

#[test]
fn test_load_factor_threshold() {
    let options = Options {
        initial_capacity: Some(4),
        load_factor: Some(LoadFactor { numerator: 3, denominator: 4 }),
        dynamic_resizing: Some(true),
    };
    let config = options.validate().unwrap();
    let mut map: HashMap<u64, u64> = HashMap::with_configuration(config);

    // two inserts: ratio 0.5, under the 0.75 threshold
    map.put(1, 1);
    map.put(2, 2);
    assert_eq!(map.capacity(), 4);

    // the third insert reaches ratio 0.75 exactly and doubles the table
    map.put(3, 3);
    assert_eq!(map.capacity(), 8);
}

#[test]
fn test_load_factor_half_threshold() {
    let options = Options {
        initial_capacity: Some(4),
        load_factor: Some(LoadFactor { numerator: 1, denominator: 2 }),
        dynamic_resizing: Some(true),
    };
    let config = options.validate().unwrap();
    let mut map: HashMap<u64, u64> = HashMap::with_configuration(config);

    map.put(1, 1);
    assert_eq!(map.capacity(), 4);

    // with a threshold of 0.5, the second insert already triggers growth
    map.put(2, 2);
    assert_eq!(map.capacity(), 8);
}

#[test]
fn test_resize_preserves_size() {
    let mut map: HashMap<u64, u64> = HashMap::with_capacity(8);
    for key in 0..6u64 {
        map.put(key, key + 100);
    }
    assert_eq!(map.size(), 6);

    map.resize(1);
    assert_eq!(map.size(), 6);
    for key in 0..6u64 {
        assert_eq!(map.get(&key), Some(&(key + 100)));
    }

    map.resize(64);
    assert_eq!(map.size(), 6);
    for key in 0..6u64 {
        assert_eq!(map.get(&key), Some(&(key + 100)));
    }
}

#[test]
fn test_find_key_index_modulo() {
    // for integer keys the digest is the key itself, so the bucket index
    // is exactly the key modulo the capacity
    assert_eq!(find_key_index(&5u64, 4), 1);
    assert_eq!(find_key_index(&5u64, 5), 0);
    assert_eq!(find_key_index(&0u64, 7), 0);
    assert_eq!(hash(&42u64), 42);
}
