use hashmap::Hashmap;

#[test]
fn insert() {
    let mut map = Hashmap::new();
    map.insert("tea", 100);
    assert_eq!(map.get(&"tea"), Some(&100));
    assert_eq!(map.contains_key(&"tea"), true);
    assert_eq!(map.len(), 1);
    assert_eq!(map.remove(&"tea"), Some(100));
    assert_eq!(map.len(), 0);
    assert_eq!(map.get(&"tea"), None);
}

#[test]
fn empty_table_finds_nothing() {
    let mut map: Hashmap<&str, i32> = Hashmap::new();
    assert_eq!(map.capacity(), 0);
    assert!(map.is_empty());
    assert_eq!(map.len(), 0);
    assert_eq!(map.get(&"tea"), None);
    assert!(!map.contains_key(&"tea"));
    assert_eq!(map.remove(&"tea"), None);
    assert_eq!(map.capacity(), 0);
}

#[test]
fn round_trip() {
    let mut map = Hashmap::new();
    assert_eq!(map.insert("coffee", 7), None);
    assert_eq!(map.get(&"coffee"), Some(&7));
    assert!(map.contains_key(&"coffee"));
    assert!(!map.contains_key(&"cocoa"));
    assert!(!map.is_empty());
}

#[test]
fn overwrite_returns_previous_value() {
    let mut map = Hashmap::new();
    assert_eq!(map.insert("k", 1), None);
    assert_eq!(map.len(), 1);
    assert_eq!(map.insert("k", 2), Some(1));
    assert_eq!(map.get(&"k"), Some(&2));
    assert_eq!(map.len(), 1);
}

#[test]
fn remove_present_and_absent() {
    let mut map = Hashmap::new();
    map.insert("a", 1);
    map.insert("b", 2);
    assert_eq!(map.len(), 2);
    assert_eq!(map.remove(&"a"), Some(1));
    assert_eq!(map.len(), 1);
    assert_eq!(map.get(&"a"), None);
    assert!(!map.contains_key(&"a"));
    assert_eq!(map.remove(&"a"), None);
    assert_eq!(map.len(), 1);
    assert_eq!(map.get(&"b"), Some(&2));
}

#[test]
fn len_counts_distinct_keys() {
    let mut map = Hashmap::new();
    map.insert("x", 1);
    map.insert("y", 2);
    map.insert("x", 3);
    map.insert("z", 4);
    assert_eq!(map.len(), 3);
    map.remove(&"y");
    map.remove(&"y");
    assert_eq!(map.len(), 2);
    map.insert("y", 5);
    assert_eq!(map.len(), 3);
}

#[test]
fn growth_keeps_every_entry() {
    let mut map: Hashmap<String, usize> = Hashmap::new();
    for i in 0..50usize {
        assert_eq!(map.insert(format!("key{}", i), i), None);
    }
    assert_eq!(map.len(), 50);
    assert_eq!(map.capacity(), 32);
    for i in 0..50usize {
        assert_eq!(map.get(&format!("key{}", i)), Some(&i));
    }
    assert_eq!(map.get(&"key50".to_string()), None);
}

#[test]
fn capacity_doubles_at_three_per_bucket() {
    let mut map = Hashmap::new();
    let mut caps = Vec::new();
    for i in 0..13u32 {
        map.insert(i.to_string(), i);
        caps.push(map.capacity());
        assert!(map.len() <= 3 * map.capacity());
    }
    assert_eq!(caps, vec![1, 1, 1, 2, 2, 2, 4, 4, 4, 4, 4, 4, 8]);
}

#[test]
fn overwrite_at_threshold_still_grows() {
    let mut map = Hashmap::new();
    map.insert("a", 1);
    map.insert("b", 2);
    map.insert("c", 3);
    assert_eq!(map.capacity(), 1);
    assert_eq!(map.insert("a", 4), Some(1));
    assert_eq!(map.capacity(), 2);
    assert_eq!(map.len(), 3);
    assert_eq!(map.get(&"a"), Some(&4));
}

#[test]
fn colliding_keys_are_independent() {
    // With a single bucket every key lands in the same chain.
    let mut map = Hashmap::new();
    map.insert("left", 1);
    map.insert("right", 2);
    assert_eq!(map.capacity(), 1);
    assert_eq!(map.get(&"left"), Some(&1));
    assert_eq!(map.get(&"right"), Some(&2));
    assert_eq!(map.remove(&"left"), Some(1));
    assert_eq!(map.get(&"right"), Some(&2));
    assert!(map.contains_key(&"right"));
    assert_eq!(map.get(&"left"), None);
}

#[test]
fn byte_vector_keys() {
    let mut map = Hashmap::new();
    map.insert(vec![1u8, 2, 3], "abc");
    map.insert(vec![1u8, 2], "ab");
    map.insert(Vec::new(), "empty");
    assert_eq!(map.get(&vec![1u8, 2, 3]), Some(&"abc"));
    assert_eq!(map.get(&vec![1u8, 2]), Some(&"ab"));
    assert_eq!(map.get(&Vec::new()), Some(&"empty"));
    assert_eq!(map.get(&vec![1u8]), None);
}

#[test]
fn empty_again_after_removing_every_key() {
    let mut map = Hashmap::new();
    map.insert("a", 1);
    map.insert("b", 2);
    assert!(!map.is_empty());
    assert_eq!(map.remove(&"a"), Some(1));
    assert_eq!(map.remove(&"b"), Some(2));
    assert!(map.is_empty());
    assert_eq!(map.capacity(), 1);
    assert_eq!(map.get(&"a"), None);
}
