// The four combining operations are tested with the meaning that their names
// have in this library: `intersection` yields every element of either set,
// `difference` the common elements, and `union` and `symmetric_difference`
// yield the common elements twice. The sets built from them follow.

use data_structures::hash_set::HashSet;

fn create_set() -> HashSet<i32> {
    let mut set = HashSet::new();
    set.insert(1);
    set.insert(2);
    set.insert(3);
    set
}

fn set_of(items: &[i32]) -> HashSet<i32> {
    HashSet::from_iter(items.to_vec())
}

fn values(items: Vec<&i32>) -> Vec<i32> {
    items.into_iter().copied().collect()
}

fn sorted(items: Vec<&i32>) -> Vec<i32> {
    let mut out = values(items);
    out.sort();
    out
}

#[test]
fn test_insert() {
    let set = create_set();
    assert_eq!(set.len(), 3);
    assert!(set.contains(&1));
    assert!(set.contains(&2));
    assert!(set.contains(&3));
}

#[test]
fn test_remove() {
    let mut set = create_set();
    set.remove(&1);
    assert_eq!(set.len(), 2);
    assert!(!set.contains(&1));
    assert!(set.contains(&2));
    assert!(set.contains(&3));
}

#[test]
fn test_subset_superset() {
    let (mut a, b) = (create_set(), create_set());
    a.insert(4);
    assert!(b.is_subset(&a));
    assert!(a.is_superset(&b));
}

#[test]
fn test_eq() {
    let (mut a, b) = (create_set(), create_set());
    assert!(a == b);
    a.insert(4);
    assert!(a != b);
}

#[test]
fn test_order() {
    let (mut a, mut b) = (create_set(), create_set());
    a.insert(4);
    assert!(a > b);
    b.insert(5);
    assert!(!(a > b));
}

#[test]
fn test_bit_op() {
    let (mut a, b) = (create_set(), create_set());
    a.insert(4);
    let c = a.bitand(&b);
    assert!(c == a);
}

#[test]
fn scenario_membership() {
    let mut set = create_set();
    assert!(set.contains(&2));
    assert!(!set.contains(&4));
    set.remove(&1);
    assert_eq!(set.len(), 2);
}

#[test]
fn insert_tells_whether_the_value_was_there() {
    let mut set: HashSet<i32> = HashSet::new();
    assert!(!set.insert(1));
    assert!(set.insert(1));
    assert!(!set.insert(2));
    assert_eq!(set.len(), 2);
}

#[test]
fn remove_tells_whether_the_value_was_there() {
    let mut set = create_set();
    assert!(set.remove(&2));
    assert!(!set.remove(&2));
    assert!(!set.remove(&9));
    assert_eq!(set.len(), 2);
}

#[test]
fn empty_sets() {
    let set: HashSet<i32> = HashSet::new();
    assert!(set.is_empty());
    assert_eq!(set.len(), 0);
    assert_eq!(set.capacity(), 4);
    assert!(set.iter().is_empty());
    let set: HashSet<i32> = HashSet::default();
    assert!(set.is_empty());
    let mut set: HashSet<u64> = HashSet::with_capacity(2);
    assert_eq!(set.capacity(), 2);
    set.insert(1);
    assert!(!set.is_empty());
    set.remove(&1);
    assert!(set.is_empty());
}

#[test]
fn set_laws_on_values() {
    let a = set_of(&[1, 2, 3]);
    let b = set_of(&[1, 2, 3, 4]);
    assert!(a.is_subset(&a));
    assert!(a == a);
    assert!(a.is_subset(&b));
    assert!(b.is_superset(&a));
    assert!(a != b);
    assert!(!b.is_subset(&a));
    let c = set_of(&[3, 2, 1]);
    assert!(a.is_subset(&c) && c.is_subset(&a));
    assert!(a == c);
}

#[test]
fn order_is_inclusion() {
    let a = set_of(&[1, 2, 3]);
    let b = set_of(&[1, 2, 3, 4]);
    let c = set_of(&[1, 2, 5]);
    assert!(a < b);
    assert!(a <= b);
    assert!(b > a);
    assert!(a <= a);
    assert!(a >= a);
    assert_eq!(a.partial_cmp(&b), Some(std::cmp::Ordering::Less));
    assert_eq!(b.partial_cmp(&a), Some(std::cmp::Ordering::Greater));
    assert_eq!(a.partial_cmp(&a), Some(std::cmp::Ordering::Equal));
    assert_eq!(a.partial_cmp(&c), None);
    assert!(!(a < c) && !(a > c) && a != c);
}

#[test]
fn disjoint_sets() {
    assert!(set_of(&[1, 2]).is_disjoint(&set_of(&[3, 4])));
    assert!(!set_of(&[1, 2]).is_disjoint(&set_of(&[2, 3])));
    assert!(set_of(&[]).is_disjoint(&set_of(&[2, 3])));
    assert!(set_of(&[1]).is_disjoint(&set_of(&[])));
}

#[test]
fn iter_yields_every_element_once() {
    let set = set_of(&[5, 1, 4, 1, 5]);
    assert_eq!(set.len(), 3);
    assert_eq!(sorted(set.iter()), vec![1, 4, 5]);
}

#[test]
fn intersection_yields_every_element_of_either_set() {
    let a = set_of(&[1, 2, 3]);
    let b = set_of(&[3, 4]);
    let items = a.intersection(&b);
    assert_eq!(values(items.clone())[..3], values(a.iter())[..]);
    assert_eq!(sorted(items), vec![1, 2, 3, 4]);
}

#[test]
fn difference_yields_the_common_elements() {
    let a = set_of(&[1, 2, 3]);
    let b = set_of(&[3, 4, 2]);
    assert_eq!(sorted(a.difference(&b)), vec![2, 3]);
    assert_eq!(sorted(a.difference(&set_of(&[7]))), Vec::<i32>::new());
}

#[test]
fn union_yields_common_elements_twice() {
    let a = set_of(&[1, 2, 3]);
    let b = set_of(&[3, 4]);
    let items = a.union(&b);
    assert_eq!(values(items.clone())[..3], values(a.iter())[..]);
    assert_eq!(sorted(items), vec![1, 2, 3, 3]);
}

#[test]
fn symmetric_difference_yields_common_elements_twice() {
    let a = set_of(&[1, 2, 3]);
    let b = set_of(&[3, 4, 2]);
    assert_eq!(sorted(a.symmetric_difference(&b)), vec![2, 2, 3, 3]);
}

#[test]
fn combined_sets() {
    let a = set_of(&[1, 2, 3]);
    let b = set_of(&[3, 4]);
    assert!(a.bitor(&b) == a);
    assert!(a.bitand(&b) == set_of(&[1, 2, 3, 4]));
    assert!(a.sub(&b) == set_of(&[3]));
    assert!(a.bitxor(&b) == set_of(&[3]));
}

#[test]
fn clone_is_an_equal_set_of_its_own() {
    let a = set_of(&[1, 2, 3]);
    let mut b = a.clone();
    assert!(a == b);
    assert_eq!(values(a.iter()), values(b.iter()));
    b.insert(4);
    assert!(a != b);
    assert_eq!(a.len(), 3);
    let names = HashSet::from_iter(vec!["x".to_owned(), "y".to_owned()]);
    assert!(names.clone() == names);
}

#[test]
fn from_iter_drops_repetitions() {
    let set = HashSet::from_iter(vec![7u64, 7, 8, 9, 8]);
    assert_eq!(set.len(), 3);
    assert!(set.contains(&7) && set.contains(&8) && set.contains(&9));
    let set = HashSet::from_iter(Vec::<u64>::new());
    assert!(set.is_empty());
}

#[test]
fn set_grows_like_its_table() {
    let mut set: HashSet<i32> = HashSet::new();
    for k in 0..4 {
        set.insert(k);
    }
    assert_eq!(set.capacity(), 4);
    set.insert(4);
    assert_eq!(set.capacity(), 8);
    for k in 0..100 {
        set.insert(k);
    }
    assert_eq!(set.len(), 100);
    assert!((0..100).all(|k| set.contains(&k)));
    assert!(!set.contains(&100));
}

#[test]
fn text_has_one_line_for_each_element() {
    let mut set: HashSet<String> = HashSet::new();
    assert_eq!(set.to_text(), "");
    set.insert("a".to_owned());
    assert_eq!(set.to_text(), "\"a\"\n");
    let set = set_of(&[1, 2, 3]);
    let text = set.to_text();
    let mut lines: Vec<&str> = text.lines().collect();
    lines.sort();
    assert_eq!(lines, vec!["1", "2", "3"]);
    assert!(text.ends_with('\n'));
}
