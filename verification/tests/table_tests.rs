use perfect_hash::construct::ConstructionError;
use perfect_hash::table::{BackupMap, HashMap};

fn key(s: &str) -> Vec<u8> {
    s.as_bytes().to_vec()
}

fn abc_table() -> HashMap<i64> {
    // Displacement tables chosen by hand: with t1 = [1], t2 = [2] and
    // n = 2*3 + 3/12 = 6 the keys "a", "b", "c" (bytes 97, 98, 99) hash to
    // the edges (1,2), (2,4), (3,0), a forest with three distinct edges.
    let keys = vec![key("a"), key("b"), key("c")];
    HashMap::<i64>::build_with_tables(&keys, vec![1], vec![2])
        .expect("this trial is collision free")
}

#[test]
fn scenario_known_keys_abc() {
    let keys = vec![key("a"), key("b"), key("c")];
    let mut h = HashMap::<i64>::new(keys, 1000).expect("three one-byte keys should construct");
    assert_eq!(h.len(), 0);
    assert_eq!(h.get(&key("a")), None);
    assert_eq!(h.get(&key("b")), None);
    assert_eq!(h.get(&key("c")), None);
    assert_eq!(h.get(&key("z")), None);
    assert_eq!(h.insert(key("z"), 5), None);
    assert_eq!(h.get(&key("z")), Some(&5));
    assert_eq!(h.remove(&key("a")), None);
    assert_eq!(h.get(&key("a")), None);
    assert_eq!(h.get(&key("b")), None);
    assert_eq!(h.get(&key("c")), None);
    assert_eq!(h.get(&key("z")), Some(&5));
    assert_eq!(h.len(), 1);
}

#[test]
fn known_keys_round_trip() {
    let mut h = abc_table();
    assert_eq!(h.insert(key("a"), 1), None);
    assert_eq!(h.insert(key("b"), 2), None);
    assert_eq!(h.insert(key("c"), 3), None);
    assert_eq!(h.len(), 3);
    assert_eq!(h.get(&key("a")), Some(&1));
    assert_eq!(h.get(&key("b")), Some(&2));
    assert_eq!(h.get(&key("c")), Some(&3));
    assert!(h.contains_key(&key("a")));
    assert_eq!(h.insert(key("a"), 10), Some(1));
    assert_eq!(h.get(&key("a")), Some(&10));
    assert_eq!(h.remove(&key("b")), Some(2));
    assert_eq!(h.get(&key("b")), None);
    assert!(!h.contains_key(&key("b")));
    assert_eq!(h.len(), 2);
    assert_eq!(h.remove(&key("b")), None);
}

#[test]
fn removed_known_key_reinserts_through_backup() {
    let mut h = abc_table();
    assert_eq!(h.insert(key("c"), 30), None);
    assert_eq!(h.remove(&key("c")), Some(30));
    assert_eq!(h.get(&key("c")), None);
    // The cleared slot stays unused for good; the key still round-trips.
    assert_eq!(h.insert(key("c"), 31), None);
    assert_eq!(h.get(&key("c")), Some(&31));
    assert_eq!(h.remove(&key("c")), Some(31));
    assert_eq!(h.get(&key("c")), None);
}

#[test]
fn unknown_keys_round_trip() {
    let mut h = abc_table();
    assert_eq!(h.insert(key("zebra"), 42), None);
    assert_eq!(h.get(&key("zebra")), Some(&42));
    assert_eq!(h.insert(key("zebra"), 43), Some(42));
    assert_eq!(h.get(&key("zebra")), Some(&43));
    assert_eq!(h.remove(&key("zebra")), Some(43));
    assert_eq!(h.get(&key("zebra")), None);
    assert_eq!(h.remove(&key("zebra")), None);
}

#[test]
fn empty_known_set_routes_through_backup() {
    let mut h = HashMap::<i64>::new(Vec::new(), 0).expect("no keys, nothing to construct");
    assert_eq!(h.len(), 0);
    assert_eq!(h.get(&key("anything")), None);
    assert_eq!(h.insert(key("anything"), 7), None);
    assert_eq!(h.get(&key("anything")), Some(&7));
    assert_eq!(h.len(), 1);
    assert_eq!(h.remove(&key("anything")), Some(7));
    assert_eq!(h.len(), 0);
}

#[test]
fn construction_exhausted_on_duplicate_keys() {
    // Two equal keys always collide, so every trial is rejected.
    let keys = vec![key("a"), key("a")];
    let r = HashMap::<i64>::new(keys, 20);
    match r {
        Ok(_) => panic!("construction cannot succeed with duplicate keys"),
        Err(e) => assert_eq!(e, ConstructionError::ConstructionExhausted),
    }
}

#[test]
fn construction_exhausted_on_single_empty_key() {
    // An empty key hashes both buckets to zero: a self edge, never valid.
    let keys = vec![Vec::new()];
    let r = HashMap::<i64>::new(keys, 20);
    match r {
        Ok(_) => panic!("construction cannot succeed for one empty key"),
        Err(e) => assert_eq!(e, ConstructionError::ConstructionExhausted),
    }
}

#[test]
fn single_key_trial_success_condition() {
    // One key, two buckets: the trial succeeds exactly when the key's two
    // hashes differ.  Byte 97 under [1] and [2] gives buckets 1 and 0.
    let keys = vec![key("a")];
    let built = HashMap::<i64>::build_with_tables(&keys, vec![1], vec![2]);
    let mut h = built.expect("distinct buckets make a one-edge forest");
    assert_eq!(h.insert(key("a"), 4), None);
    assert_eq!(h.get(&key("a")), Some(&4));
    // Equal tables hash both buckets to the same index: a self edge.
    let rejected = HashMap::<i64>::build_with_tables(&keys, vec![1], vec![1]);
    assert!(rejected.is_none());
}

#[test]
fn deterministic_construction_repeats() {
    let mut h1 = abc_table();
    let mut h2 = abc_table();
    for name in ["a", "b", "c", "q"] {
        assert_eq!(h1.insert(key(name), 9), h2.insert(key(name), 9));
        assert_eq!(h1.get(&key(name)), h2.get(&key(name)));
    }
}

#[test]
fn backup_map_direct_operations() {
    let mut b = BackupMap::<u32>::new();
    assert_eq!(b.len(), 0);
    assert_eq!(b.get(&key("x")), None);
    assert_eq!(b.insert(key("x"), 1), None);
    assert_eq!(b.insert(key("y"), 2), None);
    assert_eq!(b.insert(key("x"), 3), Some(1));
    assert_eq!(b.len(), 2);
    assert_eq!(b.get(&key("x")), Some(&3));
    assert_eq!(b.remove(&key("x")), Some(3));
    assert_eq!(b.get(&key("x")), None);
    assert_eq!(b.len(), 1);
    assert_eq!(b.remove(&key("x")), None);
}

#[test]
fn bytes_eq_compares_contents() {
    assert!(perfect_hash::table::bytes_eq(&key("abc"), &key("abc")));
    assert!(!perfect_hash::table::bytes_eq(&key("abc"), &key("abd")));
    assert!(!perfect_hash::table::bytes_eq(&key("abc"), &key("ab")));
    assert!(perfect_hash::table::bytes_eq(&Vec::new(), &Vec::new()));
}
