use hashmap::HashMap;

fn pairs_of<'a>(map: &'a HashMap<&'static str, i32>) -> Vec<(&'static str, i32)> {
    let mut out = Vec::new();
    for (&k, &v) in map {
        out.push((k, v));
    }
    out
}

fn numbers_of(map: &HashMap<u64, u64>) -> Vec<(u64, u64)> {
    let mut out = Vec::new();
    for (&k, &v) in map {
        out.push((k, v));
    }
    out
}

#[test]
fn an_empty_table_yields_nothing() {
    let map: HashMap<&'static str, i32> = HashMap::new();
    let mut iter = (&map).into_iter();
    assert_eq!(iter.next(), None);
    assert_eq!(iter.next(), None);
}

#[test]
fn a_finished_traversal_stays_finished() {
    let mut map = HashMap::new();
    map.insert("foo", 43);
    let mut iter = (&map).into_iter();
    assert_eq!(iter.next(), Some((&"foo", &43)));
    assert_eq!(iter.next(), None);
    assert_eq!(iter.next(), None);
}

#[test]
fn each_traversal_starts_afresh() {
    let mut map = HashMap::new();
    map.insert("foo", 43);
    map.insert("abc", 44);
    let first = pairs_of(&map);
    let second = pairs_of(&map);
    assert_eq!(first, second);
    assert_eq!(first.len(), 2);
}

#[test]
fn strings_come_bucket_after_bucket() {
    let mut map = HashMap::new();
    map.insert("foo", 0);
    assert_eq!(pairs_of(&map), vec![("foo", 0)]);
    map.insert("abc", 1);
    assert_eq!(pairs_of(&map), vec![("foo", 0), ("abc", 1)]);
    map.insert("mmm", 2);
    assert_eq!(pairs_of(&map), vec![("abc", 1), ("mmm", 2), ("foo", 0)]);
    map.insert("bar", 3);
    assert_eq!(pairs_of(&map), vec![("abc", 1), ("mmm", 2), ("foo", 0), ("bar", 3)]);
    map.insert("baz", 4);
    assert_eq!(
        pairs_of(&map),
        vec![("mmm", 2), ("abc", 1), ("baz", 4), ("foo", 0), ("bar", 3)]
    );
    map.insert("qux", 5);
    map.insert("zip", 6);
    assert_eq!(
        pairs_of(&map),
        vec![("mmm", 2), ("zip", 6), ("abc", 1), ("baz", 4), ("qux", 5), ("foo", 0), ("bar", 3)]
    );
    map.insert("zap", 7);
    assert_eq!(
        pairs_of(&map),
        vec![
            ("mmm", 2),
            ("qux", 5),
            ("foo", 0),
            ("bar", 3),
            ("zap", 7),
            ("zip", 6),
            ("abc", 1),
            ("baz", 4)
        ]
    );
}

#[test]
fn numbers_come_bucket_after_bucket() {
    let mut map = HashMap::new();
    map.insert(1u64, 10u64);
    assert_eq!(numbers_of(&map), vec![(1, 10)]);
    map.insert(2, 20);
    assert_eq!(numbers_of(&map), vec![(2, 20), (1, 10)]);
    map.insert(3, 30);
    assert_eq!(numbers_of(&map), vec![(1, 10), (2, 20), (3, 30)]);
    map.insert(4, 40);
    assert_eq!(numbers_of(&map), vec![(1, 10), (4, 40), (2, 20), (3, 30)]);
    map.insert(5, 50);
    assert_eq!(numbers_of(&map), vec![(1, 10), (4, 40), (3, 30), (5, 50), (2, 20)]);
    map.insert(6, 60);
    assert_eq!(
        numbers_of(&map),
        vec![(6, 60), (1, 10), (4, 40), (3, 30), (5, 50), (2, 20)]
    );
    map.insert(7, 70);
    assert_eq!(
        numbers_of(&map),
        vec![(6, 60), (1, 10), (4, 40), (3, 30), (7, 70), (5, 50), (2, 20)]
    );
    map.insert(8, 80);
    assert_eq!(
        numbers_of(&map),
        vec![(4, 40), (2, 20), (6, 60), (1, 10), (3, 30), (8, 80), (7, 70), (5, 50)]
    );
}

#[test]
fn an_overwritten_pair_keeps_its_place() {
    let mut map = HashMap::new();
    let names = ["foo", "abc", "mmm", "bar", "baz", "qux"];
    let mut value = 0;
    for name in names {
        map.insert(name, value);
        value += 1;
    }
    assert_eq!(
        pairs_of(&map),
        vec![("mmm", 2), ("abc", 1), ("baz", 4), ("qux", 5), ("foo", 0), ("bar", 3)]
    );
    assert_eq!(map.insert("abc", 11), Some(1));
    assert_eq!(map.insert("foo", 10), Some(0));
    assert_eq!(
        pairs_of(&map),
        vec![("mmm", 2), ("abc", 11), ("baz", 4), ("qux", 5), ("foo", 10), ("bar", 3)]
    );
}

#[test]
fn a_full_table_grows_before_it_overwrites() {
    let mut map = HashMap::new();
    for k in 1..=4u64 {
        map.insert(k, k * 10);
    }
    assert_eq!(numbers_of(&map), vec![(1, 10), (4, 40), (2, 20), (3, 30)]);
    assert_eq!(map.insert(4, 41), Some(40));
    assert_eq!(map.len(), 4);
    assert_eq!(numbers_of(&map), vec![(1, 10), (4, 41), (3, 30), (2, 20)]);
}

#[test]
fn the_last_pair_of_a_bucket_fills_the_gap() {
    let mut map = HashMap::new();
    let names = ["foo", "abc", "mmm", "bar", "baz", "qux", "zip", "zap"];
    let mut value = 0;
    for name in names {
        map.insert(name, value);
        value += 1;
    }
    assert_eq!(map.remove(&"foo"), Some(0));
    assert_eq!(
        pairs_of(&map),
        vec![("mmm", 2), ("qux", 5), ("zap", 7), ("bar", 3), ("zip", 6), ("abc", 1), ("baz", 4)]
    );
    assert_eq!(map.remove(&"bar"), Some(3));
    assert_eq!(
        pairs_of(&map),
        vec![("mmm", 2), ("qux", 5), ("zap", 7), ("zip", 6), ("abc", 1), ("baz", 4)]
    );
}

#[test]
fn a_gap_in_a_long_bucket() {
    let mut map = HashMap::new();
    for k in 0..25u64 {
        map.insert(k, k + 100);
    }
    assert_eq!(
        numbers_of(&map),
        vec![
            (16, 116),
            (18, 118),
            (0, 100),
            (17, 117),
            (10, 110),
            (6, 106),
            (8, 108),
            (11, 111),
            (9, 109),
            (4, 104),
            (14, 114),
            (19, 119),
            (22, 122),
            (23, 123),
            (2, 102),
            (15, 115),
            (20, 120),
            (21, 121),
            (12, 112),
            (1, 101),
            (3, 103),
            (7, 107),
            (24, 124),
            (5, 105),
            (13, 113)
        ]
    );
    assert_eq!(map.remove(&2), Some(102));
    assert_eq!(map.remove(&16), Some(116));
    assert_eq!(
        numbers_of(&map),
        vec![
            (18, 118),
            (0, 100),
            (17, 117),
            (10, 110),
            (6, 106),
            (8, 108),
            (11, 111),
            (9, 109),
            (4, 104),
            (14, 114),
            (19, 119),
            (22, 122),
            (23, 123),
            (21, 121),
            (15, 115),
            (20, 120),
            (12, 112),
            (1, 101),
            (3, 103),
            (7, 107),
            (24, 124),
            (5, 105),
            (13, 113)
        ]
    );
}

#[test]
fn a_table_never_shrinks() {
    let mut map = HashMap::new();
    for k in 0..13u64 {
        map.insert(k, k);
    }
    for k in 0..13u64 {
        assert_eq!(map.remove(&k), Some(k));
    }
    assert!(map.is_empty());
    assert_eq!(numbers_of(&map), vec![]);
    map.insert(1, 1);
    map.insert(9, 9);
    map.insert(4, 4);
    assert_eq!(numbers_of(&map), vec![(9, 9), (4, 4), (1, 1)]);
}

fn run(steps: usize, keys: u64) -> (u64, usize) {
    let mut map: HashMap<u64, u64> = HashMap::new();
    let mut x: u64 = 0x2545F4914F6CDD1D;
    let mut acc: u64 = 0;
    for _ in 0..steps {
        x = x
            .wrapping_mul(6364136223846793005)
            .wrapping_add(1442695040888963407);
        let key = (x >> 33) % keys;
        let out = if (x >> 20) % 3 == 2 {
            map.remove(&key)
        } else {
            map.insert(key, x & 0xffff)
        };
        let seen = match out {
            Some(value) => value + 1,
            None => 0,
        };
        acc = acc.wrapping_mul(31).wrapping_add(seen);
        acc = acc.wrapping_mul(31).wrapping_add(map.len() as u64);
    }
    for (&k, &v) in &map {
        acc = acc.wrapping_mul(31).wrapping_add(k);
        acc = acc.wrapping_mul(31).wrapping_add(v);
    }
    (acc, map.len())
}

#[test]
fn long_runs_leave_the_expected_tables() {
    assert_eq!(run(5000, 64), (18196996125813902858, 46));
    assert_eq!(run(5000, 1000), (1983781182423580429, 694));
    assert_eq!(run(20000, 100000), (14484767465063964518, 12094));
}
