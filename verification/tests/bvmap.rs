use genbench::bvmap::{BvMap, MAX_CELLS};
use std::rc::Rc;

#[test]
fn basic() {
    let mut bvmap: BvMap<usize, usize> = BvMap::new();
    let a1 = bvmap.insert(11);
    let a2 = bvmap.insert(12);
    assert_eq!(bvmap.get(a1), Some(&11));
    assert_eq!(bvmap.get(34), None);
    assert_eq!(bvmap.remove(a2), Some(12));
    assert_eq!(bvmap.get(a2), None);
}

#[test]
fn bvmap_keys_are_cell_indices() {
    let mut map: BvMap<usize, &str> = BvMap::new();
    assert_eq!(map.insert("a"), 0);
    assert_eq!(map.insert("b"), 1);
    assert_eq!(map.insert("c"), 2);
    assert_eq!(map.cell_count(), 3);
    assert_eq!(map.get_index(1), Some(&"b"));
    assert_eq!(map.get(3), None);
}

#[test]
fn bvmap_holes_are_refilled_most_recent_first() {
    let mut map: BvMap<usize, usize> = BvMap::new();
    for v in 0..5 {
        map.insert(v);
    }
    assert_eq!(map.remove(1), Some(1));
    assert_eq!(map.remove(3), Some(3));
    assert_eq!(map.remove(0), Some(0));
    assert_eq!(map.insert(10), 0);
    assert_eq!(map.insert(11), 3);
    assert_eq!(map.insert(12), 1);
    // No hole is left: the next value gets a new cell.
    assert_eq!(map.insert(13), 5);
    assert_eq!(map.cell_count(), 6);
    assert_eq!(map.iter().copied().collect::<Vec<usize>>(), vec![10, 12, 2, 11, 4, 13]);
}

#[test]
fn bvmap_remove_invalidates() {
    let mut map: BvMap<usize, usize> = BvMap::new();
    let key = map.insert(7);
    assert_eq!(map.remove(key), Some(7));
    assert_eq!(map.get(key), None);
    assert_eq!(map.remove(key), None);
    assert_eq!(map.iter().count(), 0);
    // The cell stays allocated as a hole.
    assert_eq!(map.cell_count(), 1);
}

#[test]
fn bvmap_remove_out_of_range_is_absent() {
    let mut map: BvMap<usize, usize> = BvMap::new();
    assert_eq!(map.remove(0), None);
    map.insert(1);
    assert_eq!(map.remove(1), None);
    assert_eq!(map.remove(usize::MAX), None);
    assert_eq!(map.get(usize::MAX), None);
    assert_eq!(map.get(0), Some(&1));
}

#[test]
fn bvmap_stale_index_resolves_to_the_new_value() {
    let mut map: BvMap<usize, usize> = BvMap::new();
    let old = map.insert(1);
    map.remove(old);
    let new = map.insert(2);
    assert_eq!(old, new);
    assert_eq!(map.get(old), Some(&2));
}

#[test]
fn bvmap_removal_preserves_siblings() {
    let mut map: BvMap<usize, usize> = BvMap::new();
    let h1 = map.insert(10);
    let h2 = map.insert(20);
    let h3 = map.insert(30);
    assert_eq!(map.remove(h1), Some(10));
    assert_eq!(map.get(h2), Some(&20));
    assert_eq!(map.get(h3), Some(&30));
}

#[test]
fn bvmap_iteration_skips_holes_in_ascending_order() {
    let mut map: BvMap<usize, usize> = BvMap::new();
    assert_eq!(map.iter().count(), 0);
    for v in 0..6 {
        map.insert(v * 10);
    }
    map.remove(0);
    map.remove(4);
    assert_eq!(map.iter().copied().collect::<Vec<usize>>(), vec![10, 20, 30, 50]);
    // Iteration can be started again and yields the same.
    assert_eq!(map.iter().copied().collect::<Vec<usize>>(), vec![10, 20, 30, 50]);
    map.remove(5);
    assert_eq!(map.iter().copied().collect::<Vec<usize>>(), vec![10, 20, 30]);
}

#[test]
fn bvmap_iteration_yields_the_live_values() {
    let mut map: BvMap<usize, usize> = BvMap::new();
    let keys: Vec<usize> = (0..50).map(|v| map.insert(v % 7)).collect();
    for i in (0..50).step_by(3) {
        map.remove(keys[i]);
    }
    let mut seen: Vec<usize> = map.iter().copied().collect();
    seen.sort();
    let mut live: Vec<usize> = keys.iter().filter_map(|k| map.get(*k).copied()).collect();
    live.sort();
    assert_eq!(seen, live);
    assert_eq!(seen.len(), 33);
}

#[test]
fn bvmap_index_operations_agree_with_keys() {
    let mut map: BvMap<usize, usize> = BvMap::new();
    let a = map.insert_index(1);
    let b = map.insert(2);
    assert_eq!(a, 0);
    assert_eq!(b, 1);
    assert_eq!(map.get_index(b), Some(&2));
    assert_eq!(map.remove_index(a), Some(1));
    assert_eq!(map.get(a), None);
    assert_eq!(map.remove_index(a), None);
    assert_eq!(map.insert_index(3), 0);
}

#[test]
fn bvmap_grows_past_the_inline_bits() {
    // The bit vector keeps up to 62 bits in one word and then moves to the heap.
    let mut map: BvMap<usize, usize> = BvMap::new();
    for v in 0..1000 {
        assert_eq!(map.insert(v), v);
    }
    for v in (0..1000).step_by(2) {
        assert_eq!(map.remove(v), Some(v));
    }
    for v in 0..1000 {
        assert_eq!(map.get(v), if v % 2 == 1 { Some(&v) } else { None });
    }
    assert_eq!(map.iter().count(), 500);
    assert_eq!(map.cell_count(), 1000);
}

#[test]
fn bvmap_clone_is_independent() {
    let mut map: BvMap<usize, String> = BvMap::new();
    let a = map.insert(String::from("a"));
    let b = map.insert(String::from("b"));
    let c = map.insert(String::from("c"));
    map.remove(b);
    let mut copy = map.clone();
    assert_eq!(copy.get(a), Some(&String::from("a")));
    assert_eq!(copy.get(b), None);
    assert_eq!(copy.get(c), Some(&String::from("c")));
    // The clone refills the same hole, and `map` does not see it.
    assert_eq!(copy.insert(String::from("d")), b);
    assert_eq!(map.get(b), None);
    copy.remove(a);
    assert_eq!(map.get(a), Some(&String::from("a")));
    assert_eq!(map.iter().count(), 2);
    assert_eq!(copy.iter().count(), 2);
}

#[test]
fn bvmap_default_is_empty() {
    let mut map: BvMap<usize, usize> = BvMap::default();
    assert_eq!(map.cell_count(), 0);
    assert_eq!(map.get(0), None);
    assert_eq!(map.insert(4), 0);
}

#[test]
fn bvmap_values_are_dropped_once() {
    let witness = Rc::new(());
    {
        let mut map: BvMap<usize, Rc<()>> = BvMap::new();
        let a = map.insert(witness.clone());
        let _b = map.insert(witness.clone());
        let _c = map.insert(witness.clone());
        assert_eq!(Rc::strong_count(&witness), 4);
        let taken = map.remove(a);
        assert_eq!(Rc::strong_count(&witness), 4);
        drop(taken);
        assert_eq!(Rc::strong_count(&witness), 3);
    }
    // The map is gone: the two values it still held were dropped, the hole was not.
    assert_eq!(Rc::strong_count(&witness), 1);
}

#[test]
fn bvmap_limit_is_below_half_of_usize() {
    assert_eq!(MAX_CELLS, (usize::MAX - 64) / 2);
    assert!(MAX_CELLS > 10_000);
}
