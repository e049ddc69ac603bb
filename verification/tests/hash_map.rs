use data_structures::hash_map::{find, over_load, HashMap, DEFAULT_CAPACITY};
use data_structures::key::{make_index, reduce, Key};

fn entries_of(map: &HashMap<i32, i32>) -> Vec<(i32, i32)> {
    let mut out = Vec::new();
    let mut iter = map.iter();
    while let Some(entry) = iter.next() {
        out.push(*entry);
    }
    out
}

#[test]
fn insert() {
    let mut map: HashMap<String, i32> = HashMap::new();
    map.insert("1".to_owned(), 1);
    map.insert("2".to_owned(), 2);
    assert_eq!(map.len(), 2);
    assert_eq!(map.get(&"1".to_owned()), Some(&1));
    assert_eq!(map.get(&"2".to_owned()), Some(&2));
    assert_eq!(map.get(&"3".to_owned()), None);

    map.insert("2".to_owned(), 3);
    assert_eq!(map.len(), 2);
    assert_eq!(map.get(&"2".to_owned()), Some(&3));
}

#[test]
fn remove() {
    let mut map: HashMap<String, i32> = HashMap::new();
    map.insert("1".to_owned(), 1);
    map.insert("2".to_owned(), 2);
    let x = map.remove(&"1".to_owned());
    assert_eq!(map.len(), 1);
    assert_eq!(x, Some(1));
}

#[test]
fn into_iter() {
    let mut map: HashMap<String, i32> = HashMap::new();
    map.insert("1".to_owned(), 1);
    map.insert("2".to_owned(), 2);

    let mut iter = map.into_iter();
    let mut v: Vec<(String, i32)> = Vec::new();
    while let Some(entry) = iter.next() {
        v.push(entry);
    }
    assert!(v.contains(&("1".to_owned(), 1)));
    assert!(v.contains(&("2".to_owned(), 2)));
}

#[test]
fn into_iter_ref() {
    let mut map: HashMap<String, i32> = HashMap::new();
    map.insert("1".to_owned(), 1);
    map.insert("2".to_owned(), 2);

    let mut iter = map.iter();
    let mut v: Vec<&(String, i32)> = Vec::new();
    while let Some(entry) = iter.next() {
        v.push(entry);
    }
    assert!(v.iter().any(|x| x.0 == "1" && x.1 == 1));
    assert!(v.iter().any(|x| x.0 == "2" && x.1 == 2));
}

#[test]
fn scenario_two_keys_and_an_overwrite() {
    let mut map: HashMap<String, i32> = HashMap::new();
    assert_eq!(map.insert("1".to_owned(), 1), None);
    assert_eq!(map.insert("2".to_owned(), 2), None);
    assert_eq!(map.len(), 2);
    assert_eq!(map.get(&"1".to_owned()), Some(&1));
    assert_eq!(map.insert("2".to_owned(), 3), Some(2));
    assert_eq!(map.get(&"2".to_owned()), Some(&3));
}

#[test]
fn new_table_is_empty_with_default_capacity() {
    let map: HashMap<i32, i32> = HashMap::new();
    assert_eq!(DEFAULT_CAPACITY, 4);
    assert_eq!(map.capacity(), 4);
    assert_eq!(map.len(), 0);
    assert_eq!(map.get(&7), None);
    let other: HashMap<i32, i32> = HashMap::default();
    assert_eq!(other.capacity(), 4);
    assert_eq!(other.len(), 0);
}

#[test]
fn with_capacity_allocates_that_many_buckets() {
    let map: HashMap<u64, u64> = HashMap::with_capacity(1);
    assert_eq!(map.capacity(), 1);
    let map: HashMap<u64, u64> = HashMap::with_capacity(37);
    assert_eq!(map.capacity(), 37);
    assert_eq!(map.len(), 0);
}

#[test]
fn round_trip_with_later_inserts_of_other_keys() {
    let mut map: HashMap<i32, i32> = HashMap::new();
    map.insert(5, 50);
    for k in 6..40 {
        map.insert(k, k * 10);
        assert_eq!(map.get(&5), Some(&50));
    }
    assert_eq!(map.get(&5), Some(&50));
}

#[test]
fn keys_are_unique_and_len_counts_them() {
    let mut map: HashMap<i32, i32> = HashMap::new();
    for round in 0..3 {
        for k in 0..20 {
            map.insert(k, k + round);
        }
    }
    assert_eq!(map.len(), 20);
    for k in 0..5 {
        assert_eq!(map.remove(&k), Some(k + 2));
    }
    assert_eq!(map.len(), 15);
    let entries = entries_of(&map);
    assert_eq!(entries.len(), 15);
    for i in 0..entries.len() {
        for j in 0..entries.len() {
            if i != j {
                assert_ne!(entries[i].0, entries[j].0);
            }
        }
    }
}

#[test]
fn growth_doubles_when_the_load_is_over_three_quarters() {
    let mut map: HashMap<i32, i32> = HashMap::new();
    for k in 0..4 {
        map.insert(k, k);
        assert_eq!(map.capacity(), 4);
    }
    // Four entries in four buckets: the check comes before the placement,
    // so the table is one entry over the bound until the next insertion.
    assert_eq!(map.len(), 4);
    map.insert(4, 4);
    assert_eq!(map.capacity(), 8);
    assert_eq!(map.len(), 5);
    map.insert(5, 5);
    map.insert(6, 6);
    assert_eq!(map.capacity(), 8);
    map.insert(7, 7);
    assert_eq!(map.capacity(), 16);
    for k in 0..8 {
        assert_eq!(map.get(&k), Some(&k));
    }
}

#[test]
fn an_overwrite_of_an_overloaded_table_grows_it_too() {
    let mut map: HashMap<i32, i32> = HashMap::new();
    for k in 0..4 {
        map.insert(k, k);
    }
    assert_eq!(map.insert(0, 9), Some(0));
    assert_eq!(map.capacity(), 8);
    assert_eq!(map.len(), 4);
}

#[test]
fn load_stays_within_one_entry_of_the_bound() {
    let mut map: HashMap<u64, u64> = HashMap::with_capacity(1);
    for k in 0..200u64 {
        map.insert(k, k);
        assert!(4 * map.len() <= 3 * map.capacity() + 4);
    }
    let mut map: HashMap<u64, u64> = HashMap::with_capacity(8);
    for k in 0..5u64 {
        map.insert(k, k);
        assert!(4 * map.len() <= 3 * map.capacity());
    }
}

#[test]
fn reads_and_removals_never_grow_the_table() {
    let mut map: HashMap<i32, i32> = HashMap::new();
    for k in 0..4 {
        map.insert(k, k);
    }
    assert_eq!(map.get(&0), Some(&0));
    assert_eq!(map.len(), 4);
    assert_eq!(map.remove(&9), None);
    assert_eq!(map.capacity(), 4);
    assert_eq!(map.remove(&0), Some(0));
    assert_eq!(map.capacity(), 4);
}

#[test]
fn resize_preserves_contents() {
    let mut map: HashMap<i32, i32> = HashMap::with_capacity(4);
    for k in 0..100 {
        map.insert(k, k);
    }
    for k in 0..100 {
        map.insert(k, 2 * k + 1);
    }
    assert_eq!(map.len(), 100);
    for k in 0..100 {
        assert_eq!(map.get(&k), Some(&(2 * k + 1)));
    }
    assert_eq!(map.get(&100), None);
}

#[test]
fn removal_of_absent_and_present_keys() {
    let mut map: HashMap<i32, i32> = HashMap::new();
    map.insert(1, 10);
    map.insert(2, 20);
    assert_eq!(map.remove(&3), None);
    assert_eq!(map.len(), 2);
    assert_eq!(map.remove(&2), Some(20));
    assert_eq!(map.len(), 1);
    assert_eq!(map.get(&2), None);
    assert_eq!(map.remove(&2), None);
    assert_eq!(map.len(), 1);
}

#[test]
fn traversal_goes_bucket_by_bucket() {
    let mut map: HashMap<i32, i32> = HashMap::with_capacity(8);
    for k in 0..6 {
        map.insert(k, k);
    }
    let entries = entries_of(&map);
    assert_eq!(entries.len(), 6);
    let capacity = map.capacity();
    for pair in entries.windows(2) {
        assert!(make_index(&pair[0].0, capacity) <= make_index(&pair[1].0, capacity));
    }
}

#[test]
fn traversal_by_value_keeps_the_order_of_traversal() {
    let mut map: HashMap<i32, i32> = HashMap::new();
    for k in 0..30 {
        map.insert(k, -k);
    }
    let by_reference = entries_of(&map);
    let mut iter = map.into_iter();
    let mut by_value = Vec::new();
    while let Some(entry) = iter.next() {
        by_value.push(entry);
    }
    assert_eq!(by_value, by_reference);
    assert_eq!(iter.next(), None);
}

#[test]
fn clone_keeps_the_layout() {
    let mut map: HashMap<u64, i32> = HashMap::with_capacity(2);
    for k in 0..9u64 {
        map.insert(k, -(k as i32));
    }
    let copy = map.clone();
    assert_eq!(copy.capacity(), map.capacity());
    assert_eq!(copy.len(), 9);
    let mut a = map.iter();
    let mut b = copy.iter();
    while let Some(entry) = a.next() {
        assert_eq!(b.next(), Some(entry));
    }
    assert!(b.next().is_none());
}

#[test]
fn traversal_of_an_empty_table() {
    let map: HashMap<i32, i32> = HashMap::new();
    assert!(map.iter().next().is_none());
    assert!(map.into_iter().next().is_none());
}

#[test]
fn removal_moves_the_last_entry_of_the_bucket() {
    let mut map: HashMap<i32, i32> = HashMap::with_capacity(1);
    map.insert(1, 1);
    assert_eq!(map.capacity(), 1);
    let mut map: HashMap<i32, i32> = HashMap::with_capacity(64);
    let capacity = 64;
    // Three keys of one bucket.
    let mut same: Vec<i32> = Vec::new();
    let target = make_index(&0, capacity);
    let mut k = 0;
    while same.len() < 3 {
        if make_index(&k, capacity) == target {
            same.push(k);
        }
        k += 1;
    }
    for key in same.iter() {
        map.insert(*key, 0);
    }
    assert_eq!(entries_of(&map), vec![(same[0], 0), (same[1], 0), (same[2], 0)]);
    map.remove(&same[0]);
    assert_eq!(entries_of(&map), vec![(same[2], 0), (same[1], 0)]);
}

#[test]
fn text_has_one_line_for_each_entry() {
    let mut map: HashMap<String, i32> = HashMap::new();
    assert_eq!(map.to_text(), "");
    map.insert("1".to_owned(), 1);
    assert_eq!(map.to_text(), "\"1\" -> 1\n");
    let mut map: HashMap<i32, i32> = HashMap::with_capacity(1);
    map.insert(3, 4);
    map.insert(5, 6);
    let text = map.to_text();
    assert!(text == "3 -> 4\n5 -> 6\n" || text == "5 -> 6\n3 -> 4\n");
}

#[test]
fn digest_is_reduced_modulo_the_capacity() {
    assert_eq!(reduce(10, 4), 2);
    assert_eq!(reduce(0, 7), 0);
    assert_eq!(reduce(13, 1), 0);
    assert_eq!(reduce(u64::MAX, 16), 15);
    assert_eq!(reduce(12345, 100), 45);
}

#[test]
fn index_is_below_the_capacity_and_the_same_for_the_same_key() {
    for capacity in 1..20usize {
        for k in 0..50i32 {
            let index = make_index(&k, capacity);
            assert!(index < capacity);
            assert_eq!(index, make_index(&k.replica(), capacity));
        }
    }
    assert_eq!(make_index(&"a".to_owned(), 1000), make_index(&String::from("a"), 1000));
}

#[test]
fn index_depends_on_the_key() {
    let capacity = 1usize << 16;
    let first = make_index(&0i32, capacity);
    assert!((1..100i32).any(|k| make_index(&k, capacity) != first));
    let first = make_index(&0u64, capacity);
    assert!((1..100u64).any(|k| make_index(&k, capacity) != first));
    let first = make_index(&"0".to_owned(), capacity);
    assert!((1..100).any(|k: i32| make_index(&k.to_string(), capacity) != first));
}

#[test]
fn keys_compare_by_value() {
    assert!(3i32.same(&3));
    assert!(!3i32.same(&4));
    assert!(7u64.same(&7));
    assert!(!7u64.same(&8));
    assert!("ab".to_owned().same(&"ab".to_owned()));
    assert!(!"ab".to_owned().same(&"ba".to_owned()));
    assert_eq!("ab".to_owned().replica(), "ab");
    assert_eq!(9u64.replica(), 9);
}

#[test]
fn find_gives_the_first_place_of_a_key() {
    let bucket = vec![(4, 'a'), (7, 'b'), (4, 'c')];
    assert_eq!(find(&bucket, &4), Some(0));
    assert_eq!(find(&bucket, &7), Some(1));
    assert_eq!(find(&bucket, &5), None);
    assert_eq!(find(&Vec::<(i32, char)>::new(), &5), None);
}

#[test]
fn over_load_is_strictly_more_than_three_quarters() {
    assert!(!over_load(3, 4));
    assert!(over_load(4, 4));
    assert!(!over_load(0, 0));
    assert!(!over_load(6, 8));
    assert!(over_load(7, 8));
    assert!(over_load(1, 1));
    assert!(!over_load(usize::MAX / 4 * 3, usize::MAX));
    assert!(over_load(usize::MAX, usize::MAX));
}
