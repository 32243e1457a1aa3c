use small_ord_set::Entry;
use small_ord_set::KeyValuePair;
use small_ord_set::SmallOrdSet;

#[test]
fn letter_counts_via_entry_or_insert() {
    let mut letters = SmallOrdSet::<KeyValuePair<char, u32>>::new();
    for ch in "a short treatise on fungi".chars() {
        let e = letters.entry(ch);
        let counter = e.or_insert(&mut letters, 0);
        *counter += 1;
    }
    assert_eq!(letters.get_value(&'s'), Some(&2));
    assert_eq!(letters.get_value(&'t'), Some(&3));
    assert_eq!(letters.get_value(&'u'), Some(&1));
    assert_eq!(letters.get_value(&'y'), None);
}

#[test]
fn map_insert_get_remove_round_trip() {
    let mut map = SmallOrdSet::<KeyValuePair<u32, u32>>::new();
    assert!(map.insert_value(5, 50));
    assert_eq!(map.get_value(&5), Some(&50));
    assert_eq!(map.remove_value(&5), Some(50));
    assert_eq!(map.get_value(&5), None);
    assert_eq!(map.remove_value(&5), None);
}

#[test]
fn or_insert_is_idempotent() {
    let mut map = SmallOrdSet::<KeyValuePair<u32, u32>>::new();
    let e = map.entry(3);
    let v1 = *e.or_insert(&mut map, 11);
    let len1 = map.len();
    let e = map.entry(3);
    let v2 = *e.or_insert(&mut map, 11);
    assert_eq!(v1, 11);
    assert_eq!(v2, 11);
    assert_eq!(map.len(), len1);
}

#[test]
fn or_insert_with_called_only_when_vacant() {
    let mut map = SmallOrdSet::<KeyValuePair<u32, u32>>::new();
    let e = map.entry(1);
    let v = e.or_insert_with(&mut map, || 41 + 1);
    assert_eq!(*v, 42);
    let e = map.entry(1);
    let v = e.or_insert_with(&mut map, || 0);
    assert_eq!(*v, 42);
}

#[test]
fn and_modify_touches_only_occupied() {
    let mut map = SmallOrdSet::<KeyValuePair<u32, u32>>::new();
    // vacant: and_modify is a no-op, or_insert then inserts the default
    let e = map.entry(9);
    let e = e.and_modify(&mut map, |v| v + 1);
    let v = e.or_insert(&mut map, 100);
    assert_eq!(*v, 100);
    // occupied: and_modify applies, or_insert keeps the stored value
    let e = map.entry(9);
    let e = e.and_modify(&mut map, |v| v + 1);
    let v = e.or_insert(&mut map, 0);
    assert_eq!(*v, 101);
}

#[test]
fn entry_key_and_vacant_into_key() {
    let mut map = SmallOrdSet::<KeyValuePair<u32, u32>>::new();
    map.insert_value(4, 40);
    let e = map.entry(4);
    assert_eq!(*e.key(&map), 4);
    let e = map.entry(6);
    assert_eq!(*e.key(&map), 6);
    match e {
        Entry::Vacant(v) => {
            assert_eq!(*v.key(), 6);
            assert_eq!(v.into_key(), 6);
        }
        Entry::Occupied(_) => panic!("key 6 was never inserted"),
    }
    assert_eq!(map.len(), 1);
}

#[test]
fn occupied_entry_accessors_and_removal() {
    let mut map = SmallOrdSet::<KeyValuePair<u32, u32>>::new();
    map.insert_value(2, 20);
    map.insert_value(8, 80);
    match map.entry(8) {
        Entry::Occupied(o) => {
            assert_eq!(o.get_entry(&map).key, 8);
            assert_eq!(*o.key(&map), 8);
            assert_eq!(*o.get(&map), 80);
            *o.get_mut(&mut map) += 1;
            assert_eq!(*o.get(&map), 81);
            let removed = o.remove_entry(&mut map);
            assert_eq!(removed.key, 8);
            assert_eq!(removed.value, 81);
        }
        Entry::Vacant(_) => panic!("key 8 was inserted"),
    }
    assert_eq!(map.len(), 1);
    assert_eq!(map.get_value(&8), None);
}

#[test]
fn occupied_into_mut_keeps_order() {
    let mut map = SmallOrdSet::<KeyValuePair<u32, u32>>::new();
    map.insert_value(1, 10);
    match map.entry(1) {
        Entry::Occupied(o) => {
            let v = o.into_mut(&mut map);
            *v = 12;
        }
        Entry::Vacant(_) => panic!("key 1 was inserted"),
    }
    assert_eq!(map.get_value(&1), Some(&12));
}

#[test]
fn vacant_insert_and_insert_with() {
    let mut map = SmallOrdSet::<KeyValuePair<u32, u32>>::new();
    map.insert_value(5, 50);
    match map.entry(3) {
        Entry::Vacant(v) => {
            let val = v.insert(&mut map, 30);
            assert_eq!(*val, 30);
        }
        Entry::Occupied(_) => panic!("key 3 was never inserted"),
    }
    match map.entry(7) {
        Entry::Vacant(v) => {
            let pair = v.insert_with(&mut map, |key| KeyValuePair { key, value: 70 });
            assert_eq!(pair.key, 7);
            assert_eq!(pair.value, 70);
        }
        Entry::Occupied(_) => panic!("key 7 was never inserted"),
    }
    assert_eq!(map.keys(), vec![3, 5, 7]);
    assert_eq!(map.values(), vec![30, 50, 70]);
}

#[test]
fn get_value_mut_changes_only_the_value() {
    let mut map = SmallOrdSet::<KeyValuePair<u32, u32>>::new();
    map.insert_value(1, 10);
    map.insert_value(2, 20);
    if let Some(v) = map.get_value_mut(&1) {
        *v = 11;
    }
    assert!(map.get_value_mut(&3).is_none());
    assert_eq!(map.get_value(&1), Some(&11));
    assert_eq!(map.keys(), vec![1, 2]);
}

#[test]
fn keys_and_values_in_key_order() {
    let mut map = SmallOrdSet::<KeyValuePair<char, u32>>::new();
    map.insert_value('c', 3);
    map.insert_value('a', 1);
    map.insert_value('b', 2);
    assert_eq!(map.keys(), vec!['a', 'b', 'c']);
    assert_eq!(map.values(), vec![1, 2, 3]);
}

#[test]
fn pair_ordering_ignores_value() {
    let mut set = SmallOrdSet::<KeyValuePair<u32, &'static str>>::new();
    assert!(set.insert(KeyValuePair { key: 1, value: "kept" }));
    assert!(!set.insert(KeyValuePair { key: 1, value: "dropped" }));
    assert_eq!(set.len(), 1);
    assert_eq!(set.get_value(&1), Some(&"kept"));
    let old = set.replace(KeyValuePair { key: 1, value: "swapped in" });
    assert_eq!(old.map(|p| p.value), Some("kept"));
    assert_eq!(set.get_value(&1), Some(&"swapped in"));
}
