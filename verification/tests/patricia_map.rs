use patricia_map::PatriciaTreeMap;
use std::collections::HashSet;

#[test]
fn test_empty_map() {
    let map = PatriciaTreeMap::<String>::new();
    assert_eq!(map.len(), 0);
    assert_eq!(map.get(0), None);
}

#[test]
fn test_insert_return_value() {
    let mut map = PatriciaTreeMap::<String>::new();
    assert_eq!(map.get(123), None);
    assert_eq!(map.insert(123, "A".into()), None);
    assert_eq!(map.get(123), Some(&"A".into()));
    assert_eq!(map.insert(123, "B".into()), Some("A".into()));
    assert_eq!(map.get(123), Some(&"B".into()));
}

#[test]
fn new_map_is_empty() {
    let map = PatriciaTreeMap::<String>::new();
    assert!(map.is_empty());
    assert!(!map.contains(0));
    assert!(!map.contains(u64::MAX));
}

#[test]
fn default_is_empty() {
    let map = PatriciaTreeMap::<u32>::default();
    assert!(map.is_empty());
    assert_eq!(map.len(), 0);
    assert_eq!(map.get(7), None);
}

#[test]
fn overwrite_keeps_len() {
    let mut map = PatriciaTreeMap::<String>::new();
    assert_eq!(map.insert(123, "A".into()), None);
    assert_eq!(map.len(), 1);
    assert_eq!(map.insert(123, "B".into()), Some("A".into()));
    assert_eq!(map.get(123), Some(&"B".into()));
    assert_eq!(map.len(), 1);
    assert!(!map.is_empty());
}

#[test]
fn reinsert_same_value() {
    let mut map = PatriciaTreeMap::<String>::new();
    assert_eq!(map.insert(5, "v".into()), None);
    let before = map.len();
    assert_eq!(map.insert(5, "v".into()), Some("v".into()));
    assert_eq!(map.len(), before);
    assert_eq!(map.get(5), Some(&"v".into()));
}

fn check_three(order: [u64; 3]) {
    let values = ["x", "y", "z"];
    let mut map = PatriciaTreeMap::<String>::new();
    for k in order {
        map.insert(k, values[(k - 1) as usize].into());
    }
    assert_eq!(map.len(), 3);
    assert_eq!(map.get(1), Some(&"x".into()));
    assert_eq!(map.get(2), Some(&"y".into()));
    assert_eq!(map.get(3), Some(&"z".into()));
    assert_eq!(map.get(4), None);
    assert!(!map.contains(4));
}

#[test]
fn three_keys_any_order() {
    check_three([1, 2, 3]);
    check_three([1, 3, 2]);
    check_three([2, 1, 3]);
    check_three([2, 3, 1]);
    check_three([3, 1, 2]);
    check_three([3, 2, 1]);
}

fn check_insertion(keys: &[u64]) {
    let mut map = PatriciaTreeMap::<String>::new();
    for k in keys {
        map.insert(*k, format!("{}", *k));
    }
    let unique: HashSet<u64> = keys.iter().copied().collect();
    assert_eq!(map.len(), unique.len());
    for k in unique {
        assert_eq!(map.get(k), Some(&format!("{}", k)));
    }
}

#[test]
fn insert_with_duplicates_counts_distinct() {
    check_insertion(&[3, 1, 4, 1, 5, 9, 2, 6, 5, 3, 5, 8, 9, 7, 9, 3]);
    check_insertion(&[0, 0, 0, 0]);
    check_insertion(&[7, 7, 6, 6, 5, 5, 4, 4, 3, 3, 2, 2, 1, 1, 0, 0]);
}

#[test]
fn round_trip_bit_patterns() {
    let keys = [
        0u64,
        1,
        2,
        3,
        4,
        8,
        255,
        256,
        1 << 31,
        (1 << 31) + 1,
        1 << 32,
        1 << 63,
        (1 << 63) | 1,
        u64::MAX,
        u64::MAX - 1,
    ];
    let mut map = PatriciaTreeMap::<u64>::new();
    for (i, k) in keys.iter().enumerate() {
        assert_eq!(map.insert(*k, i as u64), None);
    }
    assert_eq!(map.len(), keys.len());
    for (i, k) in keys.iter().enumerate() {
        assert_eq!(map.get(*k), Some(&(i as u64)));
        assert!(map.contains(*k));
    }
    for absent in [5u64, 9, 257, (1 << 31) + 2, (1 << 63) | 2, u64::MAX - 2] {
        assert_eq!(map.get(absent), None);
        assert!(!map.contains(absent));
    }
}

#[test]
fn final_content_independent_of_other_keys() {
    // Two interleavings of the same per-key writes end in the same content.
    let ops_a: [(u64, &str); 6] =
        [(10, "a1"), (20, "b1"), (10, "a2"), (30, "c1"), (20, "b2"), (10, "a3")];
    let ops_b: [(u64, &str); 6] =
        [(30, "c1"), (10, "a1"), (10, "a2"), (20, "b1"), (20, "b2"), (10, "a3")];
    let mut map_a = PatriciaTreeMap::<String>::new();
    for (k, v) in ops_a {
        map_a.insert(k, v.into());
    }
    let mut map_b = PatriciaTreeMap::<String>::new();
    for (k, v) in ops_b {
        map_b.insert(k, v.into());
    }
    for map in [&map_a, &map_b] {
        assert_eq!(map.len(), 3);
        assert_eq!(map.get(10), Some(&"a3".into()));
        assert_eq!(map.get(20), Some(&"b2".into()));
        assert_eq!(map.get(30), Some(&"c1".into()));
    }
}

#[test]
fn last_write_wins_over_long_sequence() {
    let mut map = PatriciaTreeMap::<u64>::new();
    for round in 0..4u64 {
        for k in 0..16u64 {
            map.insert(k, 100 * round + k);
        }
    }
    assert_eq!(map.len(), 16);
    for k in 0..16u64 {
        assert_eq!(map.get(k), Some(&(300 + k)));
    }
}
