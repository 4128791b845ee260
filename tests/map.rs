use treap::map::{IntoIter, Iter, OrderedIter};
use treap::{TreapMap, TreapSet};

fn ordered_pairs<K: Clone, V: Clone>(t: &TreapMap<K, V>) -> Vec<(K, V)>
where
    K: Ord,
{
    let mut it: OrderedIter<K, V> = t.iter_ordered();
    let mut out = Vec::new();
    while let Some((k, v)) = it.next() {
        out.push((k.clone(), v.clone()));
    }
    out
}

fn unordered_pairs<K: Clone + Ord, V: Clone>(t: &TreapMap<K, V>) -> Vec<(K, V)> {
    let mut it: Iter<K, V> = t.iter();
    let mut out = Vec::new();
    while let Some((k, v)) = it.next() {
        out.push((k.clone(), v.clone()));
    }
    out
}

fn owned_pairs<K: Ord, V>(t: TreapMap<K, V>) -> Vec<(K, V)> {
    let mut it: IntoIter<K, V> = t.into_iter();
    let mut out = Vec::new();
    while let Some(e) = it.next() {
        out.push(e);
    }
    out
}

#[test]
fn test_len() {
    let mut t = TreapMap::new();
    assert_eq!(t.len(), 0);
    t.insert(1, 1);
    assert_eq!(t.len(), 1);
    t.insert(1, 2);
    assert_eq!(t.len(), 1);
    t.insert(2, 2);
    t.insert(3, 3);
    assert_eq!(t.len(), 3);
    t.remove(&2);
    assert_eq!(t.len(), 2);
}

#[test]
fn example_scenario() {
    let mut t: TreapMap<i32, &str> = TreapMap::new();
    t.insert(5, "hej");
    t.insert(10, "foo");
    t.insert(2, "bar");
    t.insert(8, "trolol");
    t.insert(11, "fisk");
    assert_eq!(t.remove(&8), Some("trolol"));
    let keys: Vec<i32> = ordered_pairs(&t).into_iter().map(|(k, _)| k).collect();
    assert_eq!(keys, vec![2, 5, 10, 11]);
    assert_eq!(t.insert(2, "bar2"), Some("bar"));
    assert_eq!(t.get(&3), None);
    assert_eq!(t.len(), 4);
}

#[test]
fn get_finds_inserted_values() {
    let mut t = TreapMap::new();
    t.insert(5, "yellow");
    t.insert(3, "blue");
    t.insert(8, "green");
    assert_eq!(t.get(&5), Some(&"yellow"));
    assert_eq!(t.get(&10), None);
}

#[test]
fn get_mut_changes_the_value() {
    let mut t = TreapMap::new();
    t.insert(5, "yellow");
    match t.get_mut(&5) {
        Some(x) => *x = "blue",
        None => (),
    }
    assert_eq!(t.get(&5), Some(&"blue"));
    assert!(t.get_mut(&6).is_none());
}

#[test]
fn contains_key_reports_presence() {
    let mut t = TreapMap::new();
    t.insert(5, "yellow");
    assert_eq!(t.contains_key(&5), true);
    assert_eq!(t.contains_key(&8), false);
}

#[test]
fn insert_returns_previous_value() {
    let mut t = TreapMap::new();
    assert_eq!(t.insert(5, "yellow"), None);
    assert_eq!(t.insert(5, "blue"), Some("yellow"));
}

#[test]
fn remove_returns_value() {
    let mut t = TreapMap::new();
    t.insert(5, "blue");
    assert_eq!(t.remove(&5), Some("blue"));
    assert_eq!(t.remove(&10), None);
}

#[test]
fn clear_and_is_empty() {
    let mut t = TreapMap::new();
    assert!(t.is_empty());
    t.insert(5, 1);
    assert!(!t.is_empty());
    t.clear();
    assert!(t.is_empty());
    assert_eq!(t.len(), 0);
    assert_eq!(t.get(&5), None);
}

#[test]
fn extend_then_ordered_keys() {
    let mut t = TreapMap::new();
    t.extend((1..10).map(|x| (x, "a")).collect());
    let keys: Vec<i32> = ordered_pairs(&t).into_iter().map(|(k, _)| k).collect();
    assert_eq!(keys, vec![1, 2, 3, 4, 5, 6, 7, 8, 9]);
}

#[test]
fn extend_later_pair_wins() {
    let mut t = TreapMap::new();
    t.extend(vec![(1, "a"), (2, "b"), (1, "c")]);
    assert_eq!(t.len(), 2);
    assert_eq!(t.get(&1), Some(&"c"));
}

#[test]
fn from_iter_and_default() {
    let t = TreapMap::from_iter(vec![(3, 30), (1, 10), (2, 20)]);
    assert_eq!(ordered_pairs(&t), vec![(1, 10), (2, 20), (3, 30)]);
    let d: TreapMap<i32, i32> = Default::default();
    assert!(d.is_empty());
}

#[test]
fn borrowed_iteration_sums() {
    let mut t = TreapMap::new();
    t.extend(vec![(1, 200), (2, 120), (3, 330)]);
    let sum = unordered_pairs(&t).into_iter().fold(0, |s, (k, v)| s + k + v);
    assert_eq!(sum, 656);
}

#[test]
fn owning_iteration_yields_everything() {
    let mut t = TreapMap::new();
    t.extend(vec![(1, "red"), (2, "blue"), (3, "green")]);
    let mut all = owned_pairs(t);
    all.sort();
    assert_eq!(all, vec![(1, "red"), (2, "blue"), (3, "green")]);
}

#[test]
fn index_reads_and_writes() {
    let mut t = TreapMap::new();
    t.insert(4, 40);
    assert_eq!(*t.index(&4), 40);
    *t.index_mut(&4) += 2;
    assert_eq!(t.get(&4), Some(&42));
}

#[test]
fn priorities_given_by_caller() {
    let mut t = TreapMap::new();
    for (i, k) in [5, 1, 9, 3, 7].iter().enumerate() {
        assert_eq!(t.insert_with_priority(*k, i, (i as u64) * 7 % 5), None);
    }
    assert_eq!(t.insert_with_priority(3, 100, 0), Some(3));
    let keys: Vec<i32> = ordered_pairs(&t).into_iter().map(|(k, _)| k).collect();
    assert_eq!(keys, vec![1, 3, 5, 7, 9]);
    assert_eq!(t.remove(&5), Some(0));
    assert_eq!(t.remove(&1), Some(1));
    assert_eq!(ordered_pairs(&t), vec![(3, 100), (7, 4), (9, 2)]);
}

#[test]
fn len_matches_every_iterator() {
    let mut t = TreapMap::new();
    for k in 0..50 {
        t.insert((k * 37) % 101, k);
    }
    for k in 0..20 {
        t.remove(&((k * 37) % 101));
    }
    assert_eq!(t.len(), 30);
    assert_eq!(ordered_pairs(&t).len(), 30);
    assert_eq!(unordered_pairs(&t).len(), 30);
    let n = t.len();
    assert_eq!(owned_pairs(t).len(), n);
}

#[test]
fn insert_then_get_round_trip() {
    let mut t = TreapMap::new();
    for k in 0..30 {
        t.insert(k, k * 2);
    }
    t.insert(7, 99);
    assert_eq!(t.get(&7), Some(&99));
    assert_eq!(t.get(&8), Some(&16));
}

#[test]
fn same_pair_twice_keeps_len() {
    let mut t = TreapMap::new();
    assert_eq!(t.insert(4, "x"), None);
    let n = t.len();
    assert_eq!(t.insert(4, "x"), Some("x"));
    assert_eq!(t.len(), n);
    assert_eq!(t.get(&4), Some(&"x"));
}

#[test]
fn remove_twice_finds_nothing() {
    let mut t = TreapMap::new();
    t.extend(vec![(1, 'a'), (2, 'b'), (3, 'c')]);
    assert_eq!(t.remove(&2), Some('b'));
    assert_eq!(t.get(&2), None);
    assert_eq!(t.remove(&2), None);
    assert_eq!(t.len(), 2);
}

#[test]
fn remove_from_empty() {
    let mut t: TreapMap<u8, u8> = TreapMap::new();
    assert_eq!(t.remove(&0), None);
    assert_eq!(t.len(), 0);
}

#[test]
fn ordered_keys_strictly_increase() {
    let mut t = TreapMap::new();
    for k in [50, -3, 17, 17, 8, 99, 0, -40, 23] {
        t.insert(k, ());
    }
    let keys: Vec<i32> = ordered_pairs(&t).into_iter().map(|(k, _)| k).collect();
    assert_eq!(keys, vec![-40, -3, 0, 8, 17, 23, 50, 99]);
    for w in keys.windows(2) {
        assert!(w[0] < w[1]);
    }
}

#[test]
fn unordered_iteration_same_pairs() {
    let mut t = TreapMap::new();
    for k in 0..40u32 {
        t.insert((k * 13) % 41, k);
    }
    let ordered = ordered_pairs(&t);
    let mut unordered = unordered_pairs(&t);
    unordered.sort();
    assert_eq!(unordered, ordered);
}

#[test]
fn set_operations() {
    let mut s = TreapSet::new();
    assert_eq!(s.len(), 0);
    assert!(s.is_empty());
    assert!(s.insert(5));
    assert!(!s.insert(5));
    assert!(s.insert(3));
    assert!(s.contains(&5));
    assert!(!s.contains(&4));
    assert_eq!(s.len(), 2);
    assert!(s.remove(&5));
    assert!(!s.remove(&5));
    assert_eq!(s.len(), 1);
    s.clean();
    assert!(s.is_empty());
    assert!(s.insert_with_priority(9, 1));
    assert!(s.contains(&9));
}

#[test]
fn mutable_iteration_updates_values() {
    let mut t = TreapMap::new();
    t.extend(vec![(1, 200), (2, 120), (3, 330)]);
    let mut it = t.iter_mut();
    let mut seen = 0;
    while let Some((k, v)) = it.next() {
        *v += *k;
        seen += 1;
    }
    assert_eq!(seen, 3);
    assert_eq!(t.get(&2), Some(&122));
    assert_eq!(t.get(&1), Some(&201));
    assert_eq!(t.get(&3), Some(&333));
}

#[test]
fn reinsert_raises_priority_to_the_larger() {
    let mut t = TreapMap::new();
    t.insert_with_priority(1, "a", 5);
    t.insert_with_priority(2, "b", 3);
    let keys: Vec<i32> = unordered_pairs(&t).into_iter().map(|(k, _)| k).collect();
    assert_eq!(keys, vec![1, 2]);
    assert_eq!(t.insert_with_priority(2, "c", 10), Some("b"));
    let keys: Vec<i32> = unordered_pairs(&t).into_iter().map(|(k, _)| k).collect();
    assert_eq!(keys, vec![2, 1]);
    assert_eq!(t.insert_with_priority(2, "d", 0), Some("c"));
    let keys: Vec<i32> = unordered_pairs(&t).into_iter().map(|(k, _)| k).collect();
    assert_eq!(keys, vec![2, 1]);
}

#[test]
fn removal_rotates_right_on_a_tie() {
    let mut t = TreapMap::new();
    t.insert_with_priority(2, 'b', 9);
    t.insert_with_priority(1, 'a', 4);
    t.insert_with_priority(3, 'c', 4);
    assert_eq!(t.remove(&2), Some('b'));
    let keys: Vec<i32> = unordered_pairs(&t).into_iter().map(|(k, _)| k).collect();
    assert_eq!(keys, vec![1, 3]);
}

#[test]
fn removal_rotates_towards_higher_priority() {
    let mut t = TreapMap::new();
    t.insert_with_priority(2, 'b', 9);
    t.insert_with_priority(1, 'a', 4);
    t.insert_with_priority(3, 'c', 6);
    assert_eq!(t.remove(&2), Some('b'));
    let keys: Vec<i32> = unordered_pairs(&t).into_iter().map(|(k, _)| k).collect();
    assert_eq!(keys, vec![3, 1]);
}

#[test]
fn removing_a_missing_key_changes_nothing() {
    let mut t = TreapMap::new();
    t.insert_with_priority(2, 'b', 9);
    t.insert_with_priority(1, 'a', 4);
    let before = unordered_pairs(&t);
    assert_eq!(t.remove(&7), None);
    assert_eq!(unordered_pairs(&t), before);
    assert_eq!(t.len(), 2);
}

#[test]
fn debug_print_of_the_map() {
    let mut t = TreapMap::new();
    t.insert_with_priority(1, 'a', 4);
    let text = format!("{:?}", t);
    assert!(text.contains("size: 1"));
}

#[test]
fn shape_does_not_depend_on_insertion_order() {
    let pairs = [(4, 17u64), (1, 3), (9, 40), (6, 25), (2, 8), (7, 1)];
    let mut a = TreapMap::new();
    for (k, p) in pairs.iter() {
        a.insert_with_priority(*k, *k * 10, *p);
    }
    let mut b = TreapMap::new();
    for (k, p) in pairs.iter().rev() {
        b.insert_with_priority(*k, *k * 10, *p);
    }
    assert_eq!(unordered_pairs(&a), unordered_pairs(&b));
    assert_eq!(unordered_pairs(&a)[0], (9, 90));
}
