use based_num::{TinyMap, TinyMapEntry};

fn lookup(map: &mut TinyMap, key: usize) -> Option<u32> {
    match map.entry(key) {
        TinyMapEntry::Occupied(slot) => Some(slot.1),
        TinyMapEntry::Vacant { .. } => None,
    }
}

fn keys_upto(map: &mut TinyMap, bound: usize) -> Vec<usize> {
    let mut keys = Vec::new();
    for k in 0..=bound {
        if lookup(map, k).is_some() {
            keys.push(k);
        }
    }
    keys
}

#[test]
fn new_map_is_empty() {
    let map = TinyMap::new();
    assert_eq!(map.len(), 0);
    assert!(map.is_empty());
    assert_eq!(map.values(), Vec::<u32>::new());
    assert!(map.capacity() >= 3);
}

#[test]
fn default_map_is_empty() {
    let map = TinyMap::default();
    assert!(map.is_empty());
    assert_eq!(map.len(), 0);
}

#[test]
fn insert_returns_previous_value() {
    let mut map = TinyMap::new();
    assert_eq!(map.insert(7, 1), None);
    assert_eq!(map.insert(7, 5), Some(1));
    assert_eq!(map.insert(7, 9), Some(5));
    assert_eq!(map.len(), 1);
    assert_eq!(map.values(), vec![9]);
}

#[test]
fn insert_keeps_keys_sorted() {
    let mut map = TinyMap::new();
    for (k, v) in [(50usize, 5u32), (10, 1), (40, 4), (20, 2), (30, 3)] {
        assert_eq!(map.insert(k, v), None);
    }
    assert_eq!(map.len(), 5);
    assert_eq!(map.values(), vec![1, 2, 3, 4, 5]);
    assert_eq!(keys_upto(&mut map, 60), vec![10, 20, 30, 40, 50]);
}

#[test]
fn insert_never_duplicates_keys() {
    let mut map = TinyMap::new();
    for k in [3usize, 1, 3, 2, 1, 2, 3] {
        map.insert(k, k as u32 * 10);
    }
    assert_eq!(map.len(), 3);
    assert_eq!(map.values(), vec![10, 20, 30]);
}

#[test]
fn vacant_entry_gives_insertion_index() {
    let mut map = TinyMap::new();
    map.insert(10, 1);
    map.insert(30, 3);
    match map.entry(20) {
        TinyMapEntry::Vacant { key, idx, .. } => {
            assert_eq!(key, 20);
            assert_eq!(idx, 1);
        }
        TinyMapEntry::Occupied(_) => panic!("key 20 is absent"),
    }
    match map.entry(5) {
        TinyMapEntry::Vacant { idx, .. } => assert_eq!(idx, 0),
        TinyMapEntry::Occupied(_) => panic!("key 5 is absent"),
    }
    match map.entry(31) {
        TinyMapEntry::Vacant { idx, .. } => assert_eq!(idx, 2),
        TinyMapEntry::Occupied(_) => panic!("key 31 is absent"),
    }
    assert_eq!(map.len(), 2);
    assert_eq!(map.values(), vec![1, 3]);
}

#[test]
fn occupied_entry_holds_the_pair() {
    let mut map = TinyMap::new();
    map.insert(10, 1);
    map.insert(30, 3);
    match map.entry(30) {
        TinyMapEntry::Occupied(slot) => assert_eq!(*slot, (30, 3)),
        TinyMapEntry::Vacant { .. } => panic!("key 30 is present"),
    }
}

#[test]
fn or_insert_on_vacant_inserts_default() {
    let mut map = TinyMap::new();
    map.insert(2, 7);
    map.insert(9, 8);
    let v = map.entry(5).or_insert(42);
    assert_eq!(*v, 42);
    assert_eq!(map.len(), 3);
    assert_eq!(map.values(), vec![7, 42, 8]);
}

#[test]
fn or_insert_on_occupied_keeps_value() {
    let mut map = TinyMap::new();
    map.insert(2, 7);
    let v = map.entry(2).or_insert(42);
    assert_eq!(*v, 7);
    assert_eq!(map.len(), 1);
    assert_eq!(map.values(), vec![7]);
}

#[test]
fn or_insert_reference_writes_through() {
    let mut map = TinyMap::new();
    *map.entry(4).or_insert(1) = 11;
    *map.entry(4).or_insert(1) += 1;
    assert_eq!(map.values(), vec![12]);
}

#[test]
fn and_modify_changes_only_occupied() {
    let mut map = TinyMap::new();
    map.entry(3).and_modify(|k| k + 1).or_insert(1);
    assert_eq!(map.values(), vec![1]);
    map.entry(3).and_modify(|k| k + 1).or_insert(1);
    assert_eq!(map.values(), vec![2]);
    map.entry(2).and_modify(|k| k + 100).or_insert(1);
    assert_eq!(map.values(), vec![1, 2]);
    assert_eq!(map.len(), 2);
}

#[test]
fn and_modify_on_vacant_stays_vacant() {
    let mut map = TinyMap::new();
    map.insert(1, 1);
    match map.entry(2).and_modify(|k| k + 1) {
        TinyMapEntry::Vacant { key, idx, .. } => {
            assert_eq!(key, 2);
            assert_eq!(idx, 1);
        }
        TinyMapEntry::Occupied(_) => panic!("key 2 is absent"),
    }
    assert_eq!(map.values(), vec![1]);
}

#[test]
fn extend_behaves_as_repeated_insert() {
    let mut map = TinyMap::new();
    map.insert(5, 50);
    map.extend(vec![(9, 90), (1, 10), (5, 55), (3, 30), (9, 99)]);
    assert_eq!(map.len(), 4);
    assert_eq!(map.values(), vec![10, 30, 55, 99]);
    assert_eq!(keys_upto(&mut map, 10), vec![1, 3, 5, 9]);

    let mut other = TinyMap::new();
    other.insert(5, 50);
    for (k, v) in [(9usize, 90u32), (1, 10), (5, 55), (3, 30), (9, 99)] {
        other.insert(k, v);
    }
    assert_eq!(other.values(), map.values());
}

#[test]
fn extend_with_nothing_changes_nothing() {
    let mut map = TinyMap::new();
    map.insert(1, 2);
    map.extend(Vec::new());
    assert_eq!(map.values(), vec![2]);
}

#[test]
fn clear_removes_everything() {
    let mut map = TinyMap::new();
    for k in 0..8usize {
        map.insert(k, 1);
    }
    let cap = map.capacity();
    map.clear();
    assert!(map.is_empty());
    assert_eq!(map.len(), 0);
    assert_eq!(map.capacity(), cap);
    assert_eq!(map.insert(3, 4), None);
}

#[test]
fn shrink_to_fit_keeps_contents() {
    let mut map = TinyMap::new();
    for k in [8usize, 6, 4, 2] {
        map.insert(k, k as u32);
    }
    assert!(map.capacity() >= 4);
    map.shrink_to_fit();
    assert_eq!(map.values(), vec![2, 4, 6, 8]);
    assert!(map.capacity() >= map.len());

    let mut small = TinyMap::new();
    small.insert(1, 1);
    small.shrink_to_fit();
    assert_eq!(small.capacity(), 3);
    assert_eq!(small.values(), vec![1]);
}

#[test]
fn growth_past_inline_capacity_keeps_order() {
    let mut map = TinyMap::new();
    let keys = [13usize, 2, 11, 3, 7, 5, 17, 19, 23, 29];
    for (n, k) in keys.iter().enumerate() {
        map.insert(*k, n as u32);
        assert_eq!(map.len(), n + 1);
    }
    assert_eq!(keys_upto(&mut map, 30), vec![2, 3, 5, 7, 11, 13, 17, 19, 23, 29]);
    assert_eq!(map.values(), vec![1, 3, 5, 4, 2, 0, 6, 7, 8, 9]);
}

#[test]
fn clone_is_independent() {
    let mut map = TinyMap::new();
    map.insert(2, 1);
    let mut copy = map.clone();
    copy.insert(3, 1);
    copy.insert(2, 9);
    assert_eq!(map.values(), vec![1]);
    assert_eq!(copy.values(), vec![9, 1]);
}

#[test]
fn shrink_to_fit_goes_back_inline_when_entries_fit() {
    let mut map = TinyMap::new();
    assert_eq!(map.capacity(), 3);
    for k in 0..8usize {
        map.insert(k, 1);
    }
    assert!(map.capacity() >= 8);
    map.clear();
    assert!(map.capacity() >= 8);
    map.insert(4, 40);
    map.insert(2, 20);
    map.insert(6, 60);
    map.shrink_to_fit();
    assert_eq!(map.capacity(), 3);
    assert_eq!(map.values(), vec![20, 40, 60]);
}

#[test]
fn shrink_to_fit_stays_allocated_when_entries_do_not_fit() {
    let mut map = TinyMap::new();
    for k in 0..4usize {
        map.insert(k, k as u32);
    }
    map.shrink_to_fit();
    assert!(map.capacity() >= 4);
    assert_eq!(map.len(), 4);
    assert_eq!(map.values(), vec![0, 1, 2, 3]);
}
