use hashmap::HashMap;

#[test]
fn a_lookup_finds_what_was_inserted() {
    let mut map = HashMap::new();
    assert_eq!(map.insert("key", 7), None);
    assert_eq!(map.get(&"key"), Some(&7));

    let mut numbers = HashMap::new();
    assert_eq!(numbers.insert(12u64, "twelve"), None);
    assert_eq!(numbers.get(&12), Some(&"twelve"));
    assert_eq!(numbers.get(&21), None);
}

#[test]
fn a_second_insertion_overwrites() {
    let mut map = HashMap::new();
    assert_eq!(map.insert("key", 1), None);
    assert_eq!(map.len(), 1);
    assert_eq!(map.insert("key", 2), Some(1));
    assert_eq!(map.len(), 1);
    assert_eq!(map.get(&"key"), Some(&2));
    assert_eq!(map.insert("key", 3), Some(2));
    assert_eq!(map.len(), 1);
    assert_eq!(map.get(&"key"), Some(&3));
}

#[test]
fn a_removal_hands_the_value_back() {
    let mut map = HashMap::new();
    map.insert("key", 5);
    map.insert("other", 6);
    assert_eq!(map.remove(&"key"), Some(5));
    assert_eq!(map.get(&"key"), None);
    assert_eq!(map.get(&"other"), Some(&6));
    assert_eq!(map.len(), 1);
}

#[test]
fn removing_an_absent_key_changes_nothing() {
    let mut map = HashMap::new();
    map.insert(1u64, 10);
    map.insert(2, 20);
    map.insert(3, 30);
    let mut before = Vec::new();
    for (&k, &v) in &map {
        before.push((k, v));
    }
    assert_eq!(map.remove(&4), None);
    let mut after = Vec::new();
    for (&k, &v) in &map {
        after.push((k, v));
    }
    assert_eq!(before, after);
    assert_eq!(map.len(), 3);
}

#[test]
fn a_table_without_buckets_answers() {
    let mut map: HashMap<&'static str, i32> = HashMap::new();
    assert_eq!(map.len(), 0);
    assert!(map.is_empty());
    assert_eq!(map.get(&"foo"), None);
    assert_eq!(map.remove(&"foo"), None);
    assert_eq!(map.len(), 0);
    assert_eq!((&map).into_iter().count(), 0);
}

#[test]
fn the_size_is_the_number_of_keys() {
    let mut map = HashMap::new();
    assert_eq!(map.len(), 0);
    map.insert(1u64, 'a');
    assert_eq!(map.len(), 1);
    map.insert(2, 'b');
    assert_eq!(map.len(), 2);
    map.insert(1, 'c');
    assert_eq!(map.len(), 2);
    map.remove(&3);
    assert_eq!(map.len(), 2);
    map.remove(&1);
    assert_eq!(map.len(), 1);
    assert!(!map.is_empty());
    map.remove(&1);
    assert_eq!(map.len(), 1);
    map.remove(&2);
    assert_eq!(map.len(), 0);
    assert!(map.is_empty());
}

#[test]
fn every_key_survives_growth() {
    let mut map = HashMap::new();
    for k in 0..1000u64 {
        assert_eq!(map.insert(k, k * k), None);
        assert_eq!(map.len(), (k + 1) as usize);
    }
    for k in 0..1000u64 {
        assert_eq!(map.get(&k), Some(&(k * k)));
    }
    assert_eq!(map.get(&1000), None);
}

#[test]
fn every_string_survives_growth() {
    let mut keys: Vec<&'static str> = Vec::new();
    for i in 0..200 {
        let key: &'static str = Box::leak(format!("key-{}", i).into_boxed_str());
        keys.push(key);
    }
    let mut map = HashMap::new();
    let mut value = 0usize;
    for &key in &keys {
        assert_eq!(map.insert(key, value), None);
        value += 1;
    }
    assert_eq!(map.len(), 200);
    let mut value = 0usize;
    for &key in &keys {
        assert_eq!(map.get(&key), Some(&value));
        value += 1;
    }
}

#[test]
fn a_traversal_meets_every_pair_once() {
    let mut map = HashMap::new();
    for k in 0..100u64 {
        map.insert(k, k + 1);
    }
    let mut seen = vec![0usize; 100];
    let mut count = 0;
    for (&k, &v) in &map {
        assert_eq!(v, k + 1);
        seen[k as usize] += 1;
        count += 1;
    }
    assert_eq!(count, 100);
    assert!(seen.iter().all(|&n| n == 1));
}

#[test]
fn a_traversal_after_removals_meets_what_is_left() {
    let mut map = HashMap::new();
    for k in 0..100u64 {
        map.insert(k, k + 1);
    }
    for k in 0..100u64 {
        if k % 3 == 0 {
            assert_eq!(map.remove(&k), Some(k + 1));
        }
    }
    let mut seen = vec![0usize; 100];
    for (&k, &v) in &map {
        assert_eq!(v, k + 1);
        seen[k as usize] += 1;
    }
    for k in 0..100usize {
        assert_eq!(seen[k], if k % 3 == 0 { 0 } else { 1 });
    }
    assert_eq!(map.len(), 66);
}

#[test]
fn strings_are_keys_by_their_characters() {
    let mut map = HashMap::new();
    map.insert("foo", 43);
    let same: &'static str = Box::leak(String::from("foo").into_boxed_str());
    assert_eq!(map.get(&same), Some(&43));
    assert_eq!(map.insert(same, 44), Some(43));
    assert_eq!(map.len(), 1);
    assert_eq!(map.get(&"foo"), Some(&44));
    assert_eq!(map.get(&"fo"), None);
    assert_eq!(map.get(&"fooo"), None);
    assert_eq!(map.get(&""), None);
    assert_eq!(map.remove(&same), Some(44));
    assert!(map.is_empty());
}

#[test]
fn owned_strings_are_keys_too() {
    let mut map = HashMap::new();
    for i in 0..50 {
        assert_eq!(map.insert(format!("key-{}", i), i), None);
    }
    assert_eq!(map.len(), 50);
    for i in 0..50 {
        assert_eq!(map.get(&format!("key-{}", i)), Some(&i));
    }
    assert_eq!(map.insert(String::from("key-7"), 70), Some(7));
    assert_eq!(map.remove(&String::from("key-7")), Some(70));
    assert_eq!(map.get(&String::from("key-7")), None);
    assert_eq!(map.len(), 49);
}

#[test]
fn owned_and_borrowed_strings_go_to_the_same_buckets() {
    let names = ["foo", "abc", "mmm", "bar", "baz", "qux", "zip", "zap"];
    let mut borrowed = HashMap::new();
    let mut owned = HashMap::new();
    let mut value = 0;
    for name in names {
        borrowed.insert(name, value);
        owned.insert(String::from(name), value);
        value += 1;
    }
    let mut left = Vec::new();
    for (&k, &v) in &borrowed {
        left.push((String::from(k), v));
    }
    let mut right = Vec::new();
    for (k, &v) in &owned {
        right.push((k.clone(), v));
    }
    assert_eq!(left, right);
}
