use genbench::unique::UniqueNaiveSlotMap;

struct Marker;

#[test]
fn unique_add_get() {
    let mut map = UniqueNaiveSlotMap::<Marker, usize>::new();
    let first = map.insert(0);
    let second = map.insert(1);
    assert_eq!(map.get(first), Some(&0));
    assert_eq!(map.get(second), Some(&1));
    assert_eq!(map.len(), 2);
}

#[test]
fn unique_with_capacity_starts_empty() {
    let mut map = UniqueNaiveSlotMap::<Marker, usize>::with_capacity(4);
    assert_eq!(map.len(), 0);
    assert_eq!(map.iter().count(), 0);
    let key = map.insert(3);
    assert_eq!(map.get(key), Some(&3));
}

#[test]
fn unique_remove_invalidates() {
    let mut map = UniqueNaiveSlotMap::<Marker, usize>::new();
    let key = map.insert(5);
    assert_eq!(map.remove(key), Some(5));
    assert_eq!(map.get(key), None);
    assert_eq!(map.remove(key), None);
    assert_eq!(map.len(), 0);
}

#[test]
fn unique_generation_advances_by_one_on_removal() {
    let mut map = UniqueNaiveSlotMap::<Marker, usize>::new();
    let mut keys = vec![map.insert(0)];
    // Each round vacates the one slot and reuses it: all keys differ, and only the
    // newest is live.
    for round in 1..200usize {
        let last = *keys.last().unwrap();
        assert_eq!(map.remove(last), Some(round - 1));
        let key = map.insert(round);
        for old in &keys {
            assert_ne!(*old, key);
            assert_eq!(map.get(*old), None);
        }
        assert_eq!(map.get(key), Some(&round));
        keys.push(key);
    }
    assert_eq!(map.len(), 1);
}

#[test]
fn unique_generation_wraps_after_65536_removals() {
    let mut map = UniqueNaiveSlotMap::<Marker, usize>::new();
    let first = map.insert(0);
    let mut key = first;
    for round in 0..65536usize {
        assert_eq!(map.remove(key), Some(round));
        key = map.insert(round + 1);
        if round < 65535 {
            assert_ne!(key, first);
        }
    }
    assert_eq!(key, first);
    assert_eq!(map.get(first), Some(&65536));
}

#[test]
fn unique_get_with_unknown_slot_is_absent() {
    let mut big = UniqueNaiveSlotMap::<Marker, usize>::new();
    let _ = big.insert(0);
    let far = big.insert(1);
    let mut small = UniqueNaiveSlotMap::<Marker, usize>::new();
    assert_eq!(small.get(far), None);
    assert_eq!(small.remove(far), None);
    let _ = small.insert(9);
    assert_eq!(small.get(far), None);
    assert!(small.get_mut(far).is_none());
}

#[test]
fn unique_swap_removal_preserves_siblings() {
    let mut map = UniqueNaiveSlotMap::<Marker, usize>::new();
    let h1 = map.insert(10);
    let h2 = map.insert(20);
    let h3 = map.insert(30);
    assert_eq!(map.remove(h1), Some(10));
    assert_eq!(map.get(h2), Some(&20));
    assert_eq!(map.get(h3), Some(&30));
    assert_eq!(map.iter().copied().collect::<Vec<usize>>(), vec![30, 20]);
    assert_eq!(map.remove(h3), Some(30));
    assert_eq!(map.get(h2), Some(&20));
    assert_eq!(map.iter().copied().collect::<Vec<usize>>(), vec![20]);
}

#[test]
fn unique_mixed_use() {
    let mut map = UniqueNaiveSlotMap::<Marker, usize>::new();
    let first = map.insert(0);
    let second = map.insert(1);
    map.remove(first);
    assert_eq!(map.get(first), None);
    assert_eq!(map.get(second), Some(&1));
    let third = map.insert(2);
    let forth = map.insert(3);
    assert_eq!(map.len(), 3);
    map.remove(second);
    map.remove(third);
    assert_eq!(map.get(second), None);
    assert_eq!(map.get(third), None);
    assert_eq!(map.get(forth), Some(&3));
    assert_eq!(map.len(), 1);
    let keys: Vec<_> = (0..4).map(|v| map.insert(v)).collect();
    for (v, key) in keys.iter().enumerate() {
        assert_eq!(map.get(*key), Some(&v));
    }
    assert_eq!(map.len(), 5);
}

#[test]
fn unique_clear_invalidates_all() {
    let mut map = UniqueNaiveSlotMap::<Marker, usize>::new();
    let keys: Vec<_> = (0..8).map(|v| map.insert(v)).collect();
    map.remove(keys[5]);
    map.clear();
    assert_eq!(map.len(), 0);
    assert_eq!(map.iter().count(), 0);
    for key in &keys {
        assert_eq!(map.get(*key), None);
        assert_eq!(map.remove(*key), None);
    }
    let fresh: Vec<_> = (0..8).map(|v| map.insert(v + 100)).collect();
    for (i, key) in fresh.iter().enumerate() {
        assert_eq!(map.get(*key), Some(&(i + 100)));
        assert_ne!(*key, keys[i]);
    }
    assert_eq!(map.len(), 8);
}

#[test]
fn unique_get_mut_and_unchecked() {
    let mut map = UniqueNaiveSlotMap::<Marker, usize>::new();
    let a = map.insert(1);
    let b = map.insert(2);
    *map.get_mut(a).unwrap() = 11;
    *map.get_unchecked_mut(b).unwrap() = 22;
    assert_eq!(map.get(a), Some(&11));
    assert_eq!(map.get_unchecked(b), Some(&22));
    map.remove(a);
    assert_eq!(map.get_unchecked(a), None);
    assert!(map.get_unchecked_mut(a).is_none());
}

#[test]
fn unique_iter_mut_overwrites_values_and_keeps_keys() {
    let mut map = UniqueNaiveSlotMap::<Marker, usize>::new();
    let a = map.insert(1);
    let b = map.insert(2);
    for value in map.iter_mut() {
        *value += 100;
    }
    assert_eq!(map.get(a), Some(&101));
    assert_eq!(map.get(b), Some(&102));
    assert_eq!(map.len(), 2);
}

#[test]
fn unique_clone_is_independent() {
    let mut map = UniqueNaiveSlotMap::<Marker, usize>::new();
    let a = map.insert(1);
    let b = map.insert(2);
    let mut copy = map.clone();
    copy.remove(a);
    assert_eq!(map.get(a), Some(&1));
    assert_eq!(copy.get(a), None);
    assert_eq!(copy.get(b), Some(&2));
    assert_eq!(map.len(), 2);
    assert_eq!(copy.len(), 1);
}

#[test]
fn unique_index_reads_and_writes() {
    let mut map = UniqueNaiveSlotMap::<Marker, usize>::new();
    let a = map.insert(1);
    let b = map.insert(2);
    assert_eq!(map[a], 1);
    map[b] = 20;
    assert_eq!(map[b], 20);
    assert_eq!(map.get(a), Some(&1));
}

#[test]
fn unique_for_loops_over_references() {
    let mut map = UniqueNaiveSlotMap::<Marker, usize>::new();
    for v in 0..5 {
        map.insert(v);
    }
    for value in &mut map {
        *value *= 2;
    }
    let mut sum = 0;
    for value in &map {
        sum += *value;
    }
    assert_eq!(sum, 20);
}
