use pma::pma::PackedMemoryArray;
use pma::util::{ceil_div, ceil_hyper, ceil_log2, floor_log2, MAX_SPARSENESS};

fn occupied_keys(p: &PackedMemoryArray) -> Vec<i32> {
    let mut out = Vec::new();
    for slot in &p.data {
        if let Some(k) = slot {
            out.push(*k);
        }
    }
    out
}

#[test]
fn scenario_insert_then_lookup() {
    let mut p = PackedMemoryArray::new();
    for k in [5, 3, 8, 1] {
        assert!(p.insert(k));
    }
    assert!(p.contains(3));
    assert!(!p.contains(4));
    assert_eq!(occupied_keys(&p), vec![1, 3, 5, 8]);
    assert_eq!(p.keys(), vec![1, 3, 5, 8]);
}

#[test]
fn scenario_delete_and_reinsert() {
    let mut p = PackedMemoryArray::new();
    for k in [5, 3, 8, 1] {
        assert!(p.insert(k));
    }
    assert!(p.delete(3));
    assert!(!p.contains(3));
    assert!(p.insert(3));
    assert!(p.contains(3));
    assert_eq!(p.keys(), vec![1, 3, 5, 8]);
}

#[test]
fn scenario_thousand_sequential_inserts() {
    let mut p = PackedMemoryArray::new();
    for k in 1..=1000i32 {
        assert!(p.insert(k));
    }
    assert_eq!(p.len, 1000);
    // the planner formulas for n = 1000
    let n: usize = 1000;
    let e = ceil_log2(n);
    let ns = ceil_hyper(ceil_div(n, e));
    let ss = ceil_div(n, ns) * MAX_SPARSENESS;
    let cap = ss * ns * MAX_SPARSENESS;
    assert_eq!(p.num_segments, ns);
    assert_eq!(p.segment_size, ss);
    assert_eq!(p.capacity, cap);
    for k in 1..=1000i32 {
        assert!(p.contains(k));
    }
    assert!(!p.contains(0));
    assert!(!p.contains(1001));
}

#[test]
fn scenario_duplicate_insert() {
    let mut p = PackedMemoryArray::new();
    assert!(p.insert(7));
    let len_after_first = p.len;
    assert!(!p.insert(7));
    assert_eq!(p.len, len_after_first);
    assert_eq!(p.len, 1);
}

#[test]
fn empty_array_queries() {
    let mut p = PackedMemoryArray::new();
    assert_eq!(p.len, 0);
    assert!(!p.contains(0));
    assert!(!p.contains(i32::MIN));
    assert!(!p.delete(42));
    assert_eq!(p.keys(), Vec::<i32>::new());
}

#[test]
fn zero_is_an_ordinary_key() {
    // a gap is Option::None, so the key 0 must work like any other
    let mut p = PackedMemoryArray::new();
    assert!(p.insert(0));
    assert!(p.contains(0));
    assert!(p.insert(-1));
    assert!(p.insert(1));
    assert_eq!(p.keys(), vec![-1, 0, 1]);
    assert!(p.delete(0));
    assert!(!p.contains(0));
    assert_eq!(p.keys(), vec![-1, 1]);
}

#[test]
fn extreme_keys() {
    let mut p = PackedMemoryArray::new();
    assert!(p.insert(i32::MAX));
    assert!(p.insert(i32::MIN));
    assert!(p.insert(0));
    assert_eq!(p.keys(), vec![i32::MIN, 0, i32::MAX]);
    assert!(p.delete(i32::MIN));
    assert_eq!(p.keys(), vec![0, i32::MAX]);
}

#[test]
fn descending_and_interleaved_inserts_stay_sorted() {
    let mut p = PackedMemoryArray::new();
    for k in (0..200i32).rev() {
        assert!(p.insert(k));
    }
    for k in (200..400i32).step_by(2) {
        assert!(p.insert(k));
    }
    let keys = p.keys();
    for w in keys.windows(2) {
        assert!(w[0] < w[1]);
    }
    assert_eq!(p.len, 300);
}

#[test]
fn round_trip_many() {
    let mut p = PackedMemoryArray::new();
    for k in 0..300i32 {
        let v = (k * 37) % 1000;
        p.insert(v);
        assert!(p.contains(v));
    }
    for k in 0..300i32 {
        let v = (k * 37) % 1000;
        if p.contains(v) {
            assert!(p.delete(v));
            assert!(!p.contains(v));
        }
    }
    assert_eq!(p.len, 0);
}

#[test]
fn even_spacing_after_a_resize() {
    // a resize packs every key and spreads it across the whole new buffer,
    // so right after the capacity changes, consecutive occupied slots sit
    // one ideal stride apart, give or take one slot
    let mut p = PackedMemoryArray::new();
    let mut cap = p.capacity;
    let mut grew = false;
    for k in 1..=200i32 {
        p.insert(k);
        if p.capacity != cap {
            grew = true;
            let positions: Vec<usize> = p
                .data
                .iter()
                .enumerate()
                .filter(|(_, s)| s.is_some())
                .map(|(i, _)| i)
                .collect();
            assert_eq!(positions.len(), p.len);
            let ideal = p.capacity / p.len;
            for w in positions.windows(2) {
                let gap = w[1] - w[0];
                assert!(gap == ideal || gap == ideal + 1, "gap {} ideal {}", gap, ideal);
            }
            cap = p.capacity;
        }
    }
    assert!(grew);
}

#[test]
fn capacity_only_takes_planner_values() {
    // whenever an insert changes the capacity, the new sizes are exactly
    // what the planner derives for the new count of keys
    let mut p = PackedMemoryArray::new();
    let mut cap = p.capacity;
    for k in 1..=2000i32 {
        p.insert(k);
        if p.capacity != cap {
            let n = p.len;
            let e = if n <= 2 { 1 } else { ceil_log2(n) };
            let ns = ceil_hyper(ceil_div(n, e));
            let ss = ceil_div(n, ns) * MAX_SPARSENESS;
            assert_eq!(p.num_segments, ns);
            assert_eq!(p.segment_size, ss);
            assert_eq!(p.capacity, ss * ns * MAX_SPARSENESS);
            cap = p.capacity;
        }
    }
}

#[test]
fn util_exact_values() {
    assert_eq!(ceil_div(1, 1), 1);
    assert_eq!(ceil_div(7, 2), 4);
    assert_eq!(ceil_div(8, 2), 4);
    assert_eq!(ceil_div(9, 2), 5);
    assert_eq!(ceil_log2(1), 0);
    assert_eq!(ceil_log2(2), 1);
    assert_eq!(ceil_log2(3), 2);
    assert_eq!(ceil_log2(1000), 10);
    assert_eq!(ceil_log2(1024), 10);
    assert_eq!(floor_log2(1), 0);
    assert_eq!(floor_log2(2), 1);
    assert_eq!(floor_log2(3), 1);
    assert_eq!(floor_log2(1024), 10);
    assert_eq!(floor_log2(1000), 9);
    assert_eq!(ceil_hyper(1), 1);
    assert_eq!(ceil_hyper(3), 4);
    assert_eq!(ceil_hyper(100), 128);
    assert_eq!(ceil_hyper(128), 128);
}

#[test]
fn new_array_geometry() {
    let p = PackedMemoryArray::new();
    assert_eq!(p.capacity, 16);
    assert_eq!(p.segment_size, 4);
    assert_eq!(p.num_segments, 1);
    assert_eq!(p.height, 1);
    assert_eq!(p.capacity, p.segment_size * p.num_segments * MAX_SPARSENESS);
}

#[test]
fn mass_delete_keeps_the_set_consistent() {
    let mut p = PackedMemoryArray::new();
    for k in 1..=500i32 {
        assert!(p.insert(k));
    }
    for k in 1..=490i32 {
        assert!(p.delete(k));
        assert!(!p.contains(k));
    }
    assert_eq!(p.len, 10);
    assert_eq!(p.keys(), (491..=500).collect::<Vec<i32>>());
    for k in 491..=500i32 {
        assert!(p.contains(k));
    }
    // geometry stays coherent through every rebalance and resize
    assert_eq!(p.capacity, p.segment_size * p.num_segments * MAX_SPARSENESS);
    assert!(p.len < p.capacity);
}

#[test]
fn delete_everything_then_reuse() {
    let mut p = PackedMemoryArray::new();
    for k in [4, 2, 9] {
        assert!(p.insert(k));
    }
    for k in [2, 4, 9] {
        assert!(p.delete(k));
    }
    assert_eq!(p.len, 0);
    assert_eq!(p.keys(), Vec::<i32>::new());
    assert!(p.insert(7));
    assert_eq!(p.keys(), vec![7]);
}
