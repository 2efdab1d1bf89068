use perfect_hash::hashing::{gen_table, ByteCounter, PerfectHashState};
use perfect_hash::keygraph::{
    assign_displacements, check_slots_assigned, compute_slots, graph_is_valid,
};

#[test]
fn accumulator_exact_values() {
    let t1 = [3usize, 5];
    let t2 = [2usize, 7];
    let mut state = PerfectHashState::new(&t1, &t2, 10, 3);
    state.write(&[2, 4]);
    // u = (3*2 + 5*4) mod 10 = 26 mod 10; v = (2*2 + 7*4) mod 10 = 32 mod 10.
    assert_eq!(state.get_u(), 6);
    assert_eq!(state.get_v(), 2);
}

#[test]
fn accumulator_truncates_past_table_length() {
    let t1 = [3usize];
    let t2 = [2usize];
    let mut state = PerfectHashState::new(&t1, &t2, 10, 3);
    state.write(&[2, 4, 9]);
    // Only the first byte contributes: u = 6, v = 4.
    assert_eq!(state.get_u(), 6);
    assert_eq!(state.get_v(), 4);
}

#[test]
fn accumulator_split_writes_agree() {
    let t1 = [3usize, 5];
    let t2 = [2usize, 7];
    let mut whole = PerfectHashState::new(&t1, &t2, 10, 3);
    whole.write(&[2, 4]);
    let mut split = PerfectHashState::new(&t1, &t2, 10, 3);
    split.write(&[2]);
    split.write(&[4]);
    assert_eq!(whole.get_u(), split.get_u());
    assert_eq!(whole.get_v(), split.get_v());
}

#[test]
fn byte_counter_counts() {
    let mut c = ByteCounter::new();
    assert_eq!(c.get_count(), 0);
    c.write(&[1, 2, 3]);
    c.write(&[4, 5]);
    assert_eq!(c.get_count(), 5);
}

#[test]
fn gen_table_values_in_range() {
    let t = gen_table(5, 64);
    assert_eq!(t.len(), 64);
    for x in t {
        assert!(x < 5);
    }
}

#[test]
fn graph_validity_forest_accepted() {
    assert!(graph_is_valid(&vec![(1, 2), (2, 4), (3, 0)], 6));
}

#[test]
fn graph_validity_rejects_cycle_duplicate_and_self_edge() {
    assert!(!graph_is_valid(&vec![(0, 1), (1, 2), (2, 0)], 3));
    assert!(!graph_is_valid(&vec![(0, 1), (1, 0)], 3));
    assert!(!graph_is_valid(&vec![(2, 2)], 3));
}

#[test]
fn displacement_assignment_on_forest() {
    let edges = vec![(1, 2), (2, 4), (3, 0)];
    let g = assign_displacements(&edges, 6, 3);
    assert_eq!(g.len(), 6);
    for &x in &g {
        assert!(x < 3);
    }
    let slots = compute_slots(&edges, &g, 3);
    // Each edge's two displacements sum to its key index modulo 3.
    for (j, &(a, b)) in edges.iter().enumerate() {
        assert_eq!((g[a] + g[b]) % 3, j % 3);
        assert_eq!(slots[j], j % 3);
    }
    assert!(check_slots_assigned(&slots));
}

#[test]
fn slot_assignment_check() {
    assert!(check_slots_assigned(&vec![0, 1, 2]));
    assert!(!check_slots_assigned(&vec![0, 2, 1]));
    assert!(!check_slots_assigned(&vec![0, 1, 0]));
    assert!(check_slots_assigned(&Vec::new()));
}
