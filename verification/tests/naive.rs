use genbench::naive::NaiveSlotMap;

#[test]
fn add_get() {
    let mut map = NaiveSlotMap::<usize>::new();
    let first = map.insert(0);

    assert_eq!(map.get(first), Some(&0));
    assert_eq!(map.len(), 1);
}

#[test]
fn add_clear() {
    let mut map = NaiveSlotMap::<usize>::new();
    let _first = map.insert(0);
    map.clear();

    assert_eq!(map.len(), 0);
}

#[test]
fn add_twice_get_second() {
    let mut map = NaiveSlotMap::<usize>::new();
    let _first = map.insert(0);
    let second = map.insert(1);

    assert_eq!(map.get(second), Some(&1));
    assert_eq!(map.len(), 2);
}

#[test]
fn add_twice_get_first() {
    let mut map = NaiveSlotMap::<usize>::new();
    let first = map.insert(0);
    let _second = map.insert(1);

    assert_eq!(map.get(first), Some(&0));
    assert_eq!(map.len(), 2);
}

#[test]
fn add_remove() {
    let mut map = NaiveSlotMap::<usize>::new();
    let first = map.insert(0);
    let index = map.remove(first);

    assert_eq!(index, Some(0));
    assert_eq!(map.len(), 0);
}

#[test]
fn add_remove_old_key() {
    let mut map = NaiveSlotMap::<usize>::new();
    let first = map.insert(0);
    map.remove(first);

    assert_eq!(map.len(), 0);
    assert_eq!(map.remove(first), None);
}

#[test]
fn add_get_old_key() {
    let mut map = NaiveSlotMap::<usize>::new();
    let first = map.insert(0);
    map.remove(first);

    assert_eq!(map.len(), 0);
    assert_eq!(map.get(first), None);
}

#[test]
fn add_twice_remove_second() {
    let mut map = NaiveSlotMap::<usize>::new();
    let _first = map.insert(0);
    let second = map.insert(1);
    let index = map.remove(second);

    assert_eq!(index, Some(1));
    assert_eq!(map.len(), 1);
}

#[test]
fn add_twice_remove_first() {
    let mut map = NaiveSlotMap::<usize>::new();
    let first = map.insert(0);
    let _second = map.insert(1);
    let index = map.remove(first);

    assert_eq!(index, Some(0));
    assert_eq!(map.len(), 1);
}

#[test]
fn add_twice_remove_first_swaps() {
    let mut map = NaiveSlotMap::<usize>::new();
    let first = map.insert(0);
    let second = map.insert(1);
    map.remove(first);

    assert_eq!(map.get(second), Some(&1));
    assert_eq!(map.len(), 1);
}

#[test]
fn add_thrice_remove_first_swaps_ignores_second() {
    let mut map = NaiveSlotMap::<usize>::new();
    let first = map.insert(0);
    let second = map.insert(1);
    let _third = map.insert(2);
    map.remove(first);

    assert_eq!(map.get(second), Some(&1));
    assert_eq!(map.len(), 2);
}

#[test]
fn complex() {
    let mut map = NaiveSlotMap::<usize>::new();
    let first = map.insert(0);
    let second = map.insert(1);

    assert_eq!(map.get(first), Some(&0));
    assert_eq!(map.get(second), Some(&1));
    assert_eq!(map.len(), 2);

    map.remove(first);

    assert_eq!(map.get(first), None);
    assert_eq!(map.get(second), Some(&1));
    assert_eq!(map.len(), 1);

    let third = map.insert(2);

    assert_eq!(map.get(third), Some(&2));
    assert_eq!(map.len(), 2);

    let forth = map.insert(3);

    assert_eq!(map.get(forth), Some(&3));
    assert_eq!(map.len(), 3);

    map.remove(second);
    map.remove(third);

    assert_eq!(map.get(second), None);
    assert_eq!(map.get(third), None);
    assert_eq!(map.get(forth), Some(&3));
    assert_eq!(map.len(), 1);

    let first = map.insert(0);
    let second = map.insert(1);
    let third = map.insert(2);
    let forth = map.insert(3);

    assert_eq!(map.get(first), Some(&0));
    assert_eq!(map.get(second), Some(&1));
    assert_eq!(map.get(third), Some(&2));
    assert_eq!(map.get(forth), Some(&3));
    assert_eq!(map.len(), 5);

    map.clear();
    let first = map.insert(0);
    let second = map.insert(1);
    let third = map.insert(2);
    let forth = map.insert(3);

    assert_eq!(map.get(first), Some(&0));
    assert_eq!(map.get(second), Some(&1));
    assert_eq!(map.get(third), Some(&2));
    assert_eq!(map.get(forth), Some(&3));
    assert_eq!(map.len(), 4);
}

#[test]
fn naive_with_capacity_starts_empty() {
    let mut map = NaiveSlotMap::<usize>::with_capacity(16);
    assert_eq!(map.len(), 0);
    assert_eq!(map.iter().count(), 0);
    let key = map.insert(7);
    assert_eq!(map.get(key), Some(&7));
}

#[test]
fn naive_round_trip() {
    let mut map = NaiveSlotMap::<String>::new();
    let key = map.insert(String::from("value"));
    assert_eq!(map.get(key), Some(&String::from("value")));
}

#[test]
fn naive_remove_invalidates() {
    let mut map = NaiveSlotMap::<usize>::new();
    let key = map.insert(5);
    assert_eq!(map.remove(key), Some(5));
    assert_eq!(map.get(key), None);
    assert_eq!(map.remove(key), None);
    assert_eq!(map.len(), 0);
}

#[test]
fn naive_generation_isolation() {
    let mut map = NaiveSlotMap::<usize>::new();
    let old = map.insert(1);
    map.remove(old);
    let new = map.insert(2);
    assert_ne!(old, new);
    assert_eq!(map.get(old), None);
    assert_eq!(map.get(new), Some(&2));
    assert_eq!(map.len(), 1);
    // The slot was reused: a third value needs a second slot, and its key differs
    // from both.
    let third = map.insert(3);
    assert_ne!(third, new);
    assert_ne!(third, old);
}

#[test]
fn naive_freed_slots_are_reused_most_recent_first() {
    let mut map = NaiveSlotMap::<usize>::new();
    let a = map.insert(0);
    let b = map.insert(1);
    let c = map.insert(2);
    map.remove(a);
    map.remove(c);
    // The slot of `c` was vacated last and is reused first; both keys are new.
    let d = map.insert(3);
    let e = map.insert(4);
    assert_eq!(map.get(d), Some(&3));
    assert_eq!(map.get(e), Some(&4));
    assert_eq!(map.get(a), None);
    assert_eq!(map.get(c), None);
    assert_eq!(map.get(b), Some(&1));
    // Removing `d` and inserting again hands out the slot of `d`, one generation on.
    map.remove(d);
    let f = map.insert(5);
    assert_ne!(f, d);
    assert_ne!(f, c);
    assert_eq!(map.get(f), Some(&5));
    assert_eq!(map.get(d), None);
    assert_eq!(map.len(), 3);
}

#[test]
fn naive_swap_removal_preserves_siblings() {
    let mut map = NaiveSlotMap::<usize>::new();
    let h1 = map.insert(10);
    let h2 = map.insert(20);
    let h3 = map.insert(30);
    assert_eq!(map.remove(h1), Some(10));
    assert_eq!(map.get(h2), Some(&20));
    assert_eq!(map.get(h3), Some(&30));
    assert_eq!(map.remove(h2), Some(20));
    assert_eq!(map.get(h3), Some(&30));
}

#[test]
fn naive_iteration_is_in_dense_order() {
    let mut map = NaiveSlotMap::<usize>::new();
    let a = map.insert(10);
    let _b = map.insert(20);
    let _c = map.insert(30);
    assert_eq!(map.iter().copied().collect::<Vec<usize>>(), vec![10, 20, 30]);
    // The last value moves into the place of the removed one.
    map.remove(a);
    assert_eq!(map.iter().copied().collect::<Vec<usize>>(), vec![30, 20]);
    map.insert(40);
    assert_eq!(map.iter().copied().collect::<Vec<usize>>(), vec![30, 20, 40]);
}

#[test]
fn naive_iteration_yields_the_live_values() {
    let mut map = NaiveSlotMap::<usize>::new();
    let keys: Vec<_> = (0..20).map(|v| map.insert(v)).collect();
    for i in [3, 0, 19, 7, 8] {
        map.remove(keys[i]);
    }
    let mut seen: Vec<usize> = map.iter().copied().collect();
    seen.sort();
    let mut live: Vec<usize> = keys.iter().filter_map(|k| map.get(*k).copied()).collect();
    live.sort();
    assert_eq!(seen, live);
    assert_eq!(seen.len(), 15);
    assert_eq!(map.len(), 15);
}

#[test]
fn naive_length_counts_inserts_and_removes() {
    let mut map = NaiveSlotMap::<usize>::new();
    let a = map.insert(0);
    assert_eq!(map.len(), 1);
    let b = map.insert(1);
    assert_eq!(map.len(), 2);
    assert_eq!(map.remove(a), Some(0));
    assert_eq!(map.len(), 1);
    // A removal that finds nothing does not count.
    assert_eq!(map.remove(a), None);
    assert_eq!(map.len(), 1);
    let _c = map.insert(2);
    assert_eq!(map.len(), 2);
    assert_eq!(map.remove(b), Some(1));
    assert_eq!(map.len(), 1);
}

#[test]
fn naive_clear_invalidates_all() {
    let mut map = NaiveSlotMap::<usize>::new();
    let keys: Vec<_> = (0..8).map(|v| map.insert(v)).collect();
    map.remove(keys[2]);
    map.clear();
    assert_eq!(map.len(), 0);
    assert_eq!(map.iter().count(), 0);
    for key in &keys {
        assert_eq!(map.get(*key), None);
        assert_eq!(map.remove(*key), None);
    }
    // Slots are reused in ascending order, each one generation on.
    let fresh: Vec<_> = (0..8).map(|v| map.insert(v + 100)).collect();
    for (i, key) in fresh.iter().enumerate() {
        assert_eq!(map.get(*key), Some(&(i + 100)));
        assert_ne!(*key, keys[i]);
    }
    for key in &keys {
        assert_eq!(map.get(*key), None);
    }
}

#[test]
fn naive_clear_of_empty_map() {
    let mut map = NaiveSlotMap::<usize>::new();
    map.clear();
    assert_eq!(map.len(), 0);
    let key = map.insert(1);
    assert_eq!(map.get(key), Some(&1));
}

#[test]
fn naive_key_of_another_map_with_unknown_slot() {
    let mut big = NaiveSlotMap::<usize>::new();
    let _ = big.insert(0);
    let far = big.insert(1);
    let mut small = NaiveSlotMap::<usize>::new();
    let _ = small.insert(9);
    // `far` names a slot that `small` does not have.
    assert_eq!(small.get(far), None);
    assert_eq!(small.get_mut(far), None);
    assert_eq!(small.remove(far), None);
    assert_eq!(small.len(), 1);
}

#[test]
fn naive_get_mut_writes_one_value() {
    let mut map = NaiveSlotMap::<usize>::new();
    let a = map.insert(1);
    let b = map.insert(2);
    *map.get_mut(a).unwrap() = 11;
    assert_eq!(map.get(a), Some(&11));
    assert_eq!(map.get(b), Some(&2));
    map.remove(a);
    assert!(map.get_mut(a).is_none());
    assert_eq!(map.get(b), Some(&2));
}

#[test]
fn naive_get_unchecked_agrees_with_get() {
    let mut map = NaiveSlotMap::<usize>::new();
    let a = map.insert(1);
    let b = map.insert(2);
    assert_eq!(map.get_unchecked(a), Some(&1));
    map.remove(a);
    assert_eq!(map.get_unchecked(a), None);
    *map.get_unchecked_mut(b).unwrap() = 22;
    assert_eq!(map.get(b), Some(&22));
    assert!(map.get_unchecked_mut(a).is_none());
}

#[test]
fn naive_iter_mut_overwrites_values_and_keeps_keys() {
    let mut map = NaiveSlotMap::<usize>::new();
    let a = map.insert(1);
    let b = map.insert(2);
    let c = map.insert(3);
    map.remove(b);
    for value in map.iter_mut() {
        *value *= 10;
    }
    assert_eq!(map.get(a), Some(&10));
    assert_eq!(map.get(c), Some(&30));
    assert_eq!(map.get(b), None);
    assert_eq!(map.len(), 2);
}

#[test]
fn naive_clone_is_independent() {
    let mut map = NaiveSlotMap::<String>::new();
    let a = map.insert(String::from("a"));
    let b = map.insert(String::from("b"));
    map.remove(a);
    let mut copy = map.clone();
    assert_eq!(copy.get(b), Some(&String::from("b")));
    assert_eq!(copy.get(a), None);
    assert_eq!(copy.len(), 1);
    // The clone reuses the same slot as `map` does.
    let in_copy = copy.insert(String::from("c"));
    let in_map = map.insert(String::from("d"));
    assert_eq!(in_copy, in_map);
    assert_eq!(copy.get(in_copy), Some(&String::from("c")));
    assert_eq!(map.get(in_map), Some(&String::from("d")));
}

#[test]
fn naive_generation_wraps_after_65536_removals() {
    let mut map = NaiveSlotMap::<usize>::new();
    let first = map.insert(0);
    let mut key = first;
    for round in 0..65536usize {
        assert_eq!(map.remove(key), Some(round));
        key = map.insert(round + 1);
        if round < 65535 {
            assert_ne!(key, first);
            assert_eq!(map.get(first), None);
        }
    }
    // The counter has sixteen bits: the slot is back in the generation of `first`.
    assert_eq!(key, first);
    assert_eq!(map.get(first), Some(&65536));
}

#[test]
fn naive_index_reads_and_writes() {
    let mut map = NaiveSlotMap::<usize>::new();
    let a = map.insert(1);
    let b = map.insert(2);
    assert_eq!(map[a], 1);
    map[b] = 20;
    assert_eq!(map[b], 20);
    assert_eq!(map.get(a), Some(&1));
}

#[test]
fn naive_for_loops_over_references() {
    let mut map = NaiveSlotMap::<usize>::new();
    for v in 0..5 {
        map.insert(v);
    }
    for value in &mut map {
        *value += 1;
    }
    let mut sum = 0;
    for value in &map {
        sum += *value;
    }
    assert_eq!(sum, 15);
}
