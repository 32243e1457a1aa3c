use small_ord_set::KeyValuePair;
use small_ord_set::SmallOrdSet;

#[test]
fn insert_twice_same_element() {
    let mut set = SmallOrdSet::<u32>::new();
    assert_eq!(set.insert(2), true);
    assert_eq!(set.insert(2), false);
    assert_eq!(set.len(), 1);
}

#[test]
fn replace_twice_same_element() {
    let mut set = SmallOrdSet::<u32>::new();
    assert_eq!(set.replace(2), None);
    assert_eq!(set.replace(2), Some(2));
    assert_eq!(set.len(), 1);
}

#[test]
fn from_buf_contains() {
    let set = SmallOrdSet::from_buf(vec![1u32, 2, 3]);
    assert_eq!(set.contains(&1), true);
    assert_eq!(set.contains(&4), false);
}

#[test]
fn insert_keeps_slice_sorted_and_unique() {
    let mut set = SmallOrdSet::<u32>::new();
    for x in [5u32, 3, 9, 3, 1, 9, 7, 5, 2] {
        set.insert(x);
    }
    let s = set.as_slice();
    assert_eq!(s, &[1, 2, 3, 5, 7, 9]);
    for w in s.windows(2) {
        assert!(w[0] < w[1]);
    }
}

#[test]
fn insert_absent_grows_by_one_present_retains() {
    let mut map = SmallOrdSet::<KeyValuePair<u32, &'static str>>::new();
    assert!(map.insert_value(1, "first"));
    assert_eq!(map.len(), 1);
    // a pair with an equal key is dropped; the stored pair is retained
    assert!(!map.insert_value(1, "second"));
    assert_eq!(map.len(), 1);
    assert_eq!(map.get_value(&1), Some(&"first"));
}

#[test]
fn replace_stores_the_new_element() {
    let mut map = SmallOrdSet::<KeyValuePair<u32, &'static str>>::new();
    assert_eq!(map.replace_value(1, "first"), None);
    assert_eq!(map.replace_value(1, "second"), Some("first"));
    assert_eq!(map.get_value(&1), Some(&"second"));
    assert_eq!(map.len(), 1);
}

#[test]
fn remove_present_and_absent() {
    let mut set = SmallOrdSet::from_buf(vec![4u32, 8, 15]);
    assert_eq!(set.remove(&8), Some(8));
    assert_eq!(set.len(), 2);
    assert_eq!(set.remove(&8), None);
    assert_eq!(set.len(), 2);
    assert_eq!(set.as_slice(), &[4, 15]);
}

#[test]
fn from_vec_sorts_and_deduplicates() {
    let set = SmallOrdSet::from_vec(vec![5u32, 3, 5, 1, 3, 1, 1]);
    assert_eq!(set.as_slice(), &[1, 3, 5]);
}

#[test]
fn from_vec_first_encountered_wins() {
    let set = SmallOrdSet::from_vec(vec![
        KeyValuePair { key: 3u32, value: "x" },
        KeyValuePair { key: 1, value: "y" },
        KeyValuePair { key: 3, value: "z" },
    ]);
    assert_eq!(set.len(), 2);
    assert_eq!(set.get_value(&3), Some(&"x"));
    assert_eq!(set.get_value(&1), Some(&"y"));
}

#[test]
fn first_and_last() {
    let mut set = SmallOrdSet::<i64>::new();
    assert_eq!(set.first(), None);
    assert_eq!(set.last(), None);
    set.insert(10);
    set.insert(-4);
    set.insert(7);
    assert_eq!(set.first(), Some(&-4));
    assert_eq!(set.last(), Some(&10));
}

#[test]
fn drain_removes_range_eagerly() {
    let mut set = SmallOrdSet::from_buf(vec![1u32, 2, 3, 4, 5]);
    let drained = set.drain(1, 3);
    assert_eq!(drained, vec![2, 3]);
    assert_eq!(set.as_slice(), &[1, 4, 5]);
    let nothing = set.drain(0, 0);
    assert_eq!(nothing, Vec::<u32>::new());
    assert_eq!(set.len(), 3);
}

#[test]
fn append_moves_and_prefers_existing() {
    let mut a = SmallOrdSet::from_buf(vec![
        KeyValuePair { key: 1u32, value: "a1" },
        KeyValuePair { key: 2, value: "a2" },
    ]);
    let mut b = SmallOrdSet::from_buf(vec![
        KeyValuePair { key: 2u32, value: "b2" },
        KeyValuePair { key: 3, value: "b3" },
    ]);
    a.append(&mut b);
    assert!(b.is_empty());
    assert_eq!(a.len(), 3);
    // the element already in `a` wins over the incoming equal one
    assert_eq!(a.get_value(&2), Some(&"a2"));
    assert_eq!(a.get_value(&3), Some(&"b3"));
}

#[test]
fn extend_resorts_and_deduplicates() {
    let mut set = SmallOrdSet::from_buf(vec![2u32, 6]);
    set.extend(vec![9, 1, 6, 2, 4]);
    assert_eq!(set.as_slice(), &[1, 2, 4, 6, 9]);
}

#[test]
fn retain_keeps_matching_in_order() {
    let mut set = SmallOrdSet::from_buf(vec![1u32, 2, 3, 4, 5, 6, 7, 8]);
    set.retain(|x| x % 2 == 0);
    assert_eq!(set.as_slice(), &[2, 4, 6, 8]);
}

#[test]
fn clear_empties() {
    let mut set = SmallOrdSet::from_buf(vec![1u32, 2, 3]);
    set.clear();
    assert!(set.is_empty());
    assert_eq!(set.len(), 0);
}

#[test]
fn get_and_get_mut() {
    let mut map = SmallOrdSet::<KeyValuePair<u32, u32>>::new();
    map.insert_value(7, 70);
    let probe = KeyValuePair { key: 7u32, value: 0 };
    assert_eq!(map.get(&probe).map(|p| p.value), Some(70));
    if let Some(p) = map.get_mut(&probe) {
        // changing the value part keeps the order intact
        p.value = 71;
    }
    assert_eq!(map.get_value(&7), Some(&71));
    let missing = KeyValuePair { key: 9u32, value: 0 };
    assert!(map.get(&missing).is_none());
    assert!(map.get_mut(&missing).is_none());
}

#[test]
fn capacity_inline_size_grow_reserve() {
    let mut set = SmallOrdSet::<u64>::new();
    assert_eq!(set.inline_size(), 8);
    assert!(set.capacity() >= set.len());
    for x in 0..20u64 {
        set.insert(x);
    }
    assert_eq!(set.len(), 20);
    assert!(set.capacity() >= 20);
    set.grow(64);
    assert!(set.capacity() >= 64);
    set.reserve(100);
    set.reserve_exact(10);
    assert_eq!(set.len(), 20);
    assert_eq!(set.first(), Some(&0));
    assert_eq!(set.last(), Some(&19));
}

#[test]
fn into_vec_and_from_vec_unchecked() {
    let set = SmallOrdSet::from_vec(vec![3u32, 1, 2]);
    let v = set.into_vec();
    assert_eq!(v, vec![1, 2, 3]);
    let set2 = SmallOrdSet::from_vec_unchecked(v);
    assert_eq!(set2.as_slice(), &[1, 2, 3]);
    assert_eq!(set2.contains(&2), true);
}

#[test]
fn get_at_indexes_sorted_order() {
    let set = SmallOrdSet::from_vec(vec![30u32, 10, 20]);
    assert_eq!(*set.get_at(0), 10);
    assert_eq!(*set.get_at(1), 20);
    assert_eq!(*set.get_at(2), 30);
}

#[test]
fn default_is_empty() {
    let set: SmallOrdSet<u32> = Default::default();
    assert!(set.is_empty());
}

#[test]
fn zero_sized_elements_report_all_ones_inline_size() {
    // a zero-sized element type never spills: the backing vector
    // reports the all-ones inline capacity, not the array size
    let mut set = SmallOrdSet::<()>::new();
    assert_eq!(set.inline_size(), usize::MAX);
    assert!(set.insert(()));
    assert!(!set.insert(()));
    assert_eq!(set.len(), 1);
    assert!(set.contains(&()));
}

#[test]
fn spill_past_inline_capacity_keeps_contents() {
    // more elements than the inline capacity: storage moves to the heap
    let mut set = SmallOrdSet::<u32>::new();
    for x in (0..100u32).rev() {
        assert!(set.insert(x));
    }
    assert_eq!(set.len(), 100);
    for x in 0..100u32 {
        assert!(set.contains(&x));
        assert_eq!(*set.get_at(x as usize), x);
    }
}
