use dsa_rs::Heap;
use dsa_rs::I32Ascending;
use dsa_rs::I32Descending;

#[test]
fn test_extract_root_on_empty_heap() {
    let mut heap = Heap::new(I32Ascending, None);
    heap.clear();
    let root = heap.extract_root();
    assert_eq!(root, None);
}

#[test]
fn test_min_heap() {
    // `I32Descending` ranks smaller numbers higher, so the root is the
    // minimum and the lowest-priority leaf is the maximum.
    let mut heap = Heap::new(I32Descending, None);
    let mut values = vec![50, 80, 30, 90, 60, 40, 20];

    // Test insert
    for &value in values.iter() {
        heap.insert(value);
    }
    assert_eq!(
        values.len(),
        heap.size(),
        "expected values.len ({}) to == heap.size() ({})",
        values.len(),
        heap.size()
    );

    // Test sort
    let sorted = heap.to_sorted();
    let sorted_vals: Vec<i32> = sorted.clone();
    assert_eq!(
        sorted,
        heap.clone_heap_data(),
        "sorting did not change nodes! expected={sorted:?} | got={:?}",
        heap.clone_heap_data()
    );
    values.sort();
    values.reverse();
    assert_eq!(
        sorted_vals, values,
        "expected sorted heap to equal sorted values!\n\theap = {sorted_vals:?}\n\tvalues = {values:?}"
    );

    // Test fix after sort
    assert!(!heap.is_valid());
    heap.fix();
    assert!(
        heap.is_valid(),
        "heap is not valid after fix! {:?}",
        heap.clone_heap_data()
    );
    assert_eq!(
        heap.leaf().expect("to exist"),
        90,
        "expected leaf id to be 90! got {:?}",
        heap.leaf().expect("exist")
    );

    // Test root value
    let root_node = heap.root().expect("exist");
    assert_eq!(root_node, 20);

    // Test leaf value
    let leaf_node = heap.leaf().expect("some");
    assert_eq!(leaf_node, 90);

    // Test size
    assert_eq!(heap.size(), values.len());

    // Test is_empty
    assert!(!heap.is_empty());

    // Test clone
    let heap_clone = heap.clone();
    assert!(heap.eq(&heap_clone));

    // Test immutable iteration
    let mut collected: Vec<i32> = vec![];
    for &el in heap.iter() {
        collected.push(el);
    }
    assert_eq!(heap.clone_heap_data(), collected);
    collected.sort();
    let mut collected_vals = values.clone();
    collected_vals.sort();
    assert_eq!(collected, collected_vals);

    // Test mutable iteration.
    let multiplyer = 10;
    let mut heap_clone_for_mut_iter = heap.clone();
    let mut vals_clone: Vec<i32> = values.clone().iter().map(|&v| v * multiplyer).collect();
    heap_clone_for_mut_iter.for_each_mut(|el| el * multiplyer);
    vals_clone.sort();
    let mut heap_nodes_vec = heap_clone_for_mut_iter.clone_heap_data();
    heap_nodes_vec.sort();
    assert_eq!(vals_clone, heap_nodes_vec);

    // Test copying out the whole contents.
    let heap_consume_clone = heap.clone();
    let mut consumed: Vec<i32> = heap_consume_clone.clone_heap_data();
    consumed.sort();
    let mut consumed_vals: Vec<i32> = values.clone();
    consumed_vals.sort();
    assert_eq!(consumed, consumed_vals);

    // Test extract_root
    assert_eq!(heap.extract_root().expect("exist"), 20);
    assert_eq!(heap.extract_root().expect("exist"), 30);
    assert_eq!(heap.extract_root().expect("exist"), 40);
    assert_eq!(heap.extract_root().expect("exist"), 50);
    assert_eq!(heap.extract_root().expect("exist"), 60);
    assert_eq!(heap.extract_root().expect("exist"), 80);
    assert_eq!(heap.extract_root().expect("exist"), 90);
    assert!(heap.is_empty());
}

#[test]
fn test_max_heap_scenario() {
    // A max-heap over integers: the documented concrete scenario.
    let mut heap = Heap::new(I32Ascending, None);
    for v in [50, 80, 30, 90, 60, 40, 20] {
        heap.insert(v);
    }
    assert_eq!(heap.root(), Some(90));
    assert_eq!(heap.leaf(), Some(20));
    let mut drained = vec![];
    while let Some(v) = heap.extract_root() {
        drained.push(v);
    }
    assert_eq!(drained, vec![90, 80, 60, 50, 40, 30, 20]);
    assert!(heap.is_empty());
}

#[test]
fn test_heap_stays_valid_through_inserts_and_extracts() {
    let mut heap = Heap::new(I32Ascending, None);
    for v in [5, 1, 9, 3, 9, -2, 7, 0] {
        heap.insert(v);
        assert!(heap.is_valid());
    }
    for _ in 0..4 {
        heap.extract_root();
        assert!(heap.is_valid());
    }
    assert_eq!(heap.size(), 4);
}

#[test]
fn test_size_round_trip() {
    let mut heap = Heap::new(I32Ascending, None);
    for v in [4, 2, 6, 1, 8] {
        heap.insert(v);
    }
    assert_eq!(heap.size(), 5);
    for _ in 0..3 {
        heap.extract_root();
    }
    assert_eq!(heap.size(), 2);
    // over-extraction clamps at zero
    for _ in 0..5 {
        heap.extract_root();
    }
    assert_eq!(heap.size(), 0);
}

#[test]
fn test_empty_heap_safety() {
    let mut heap = Heap::new(I32Descending, Some(vec![3, 1, 2]));
    heap.clear();
    assert_eq!(heap.extract_root(), None);
    assert_eq!(heap.root(), None);
    assert_eq!(heap.leaf(), None);
}

#[test]
fn test_fix_is_idempotent() {
    let mut heap = Heap::new(I32Ascending, Some(vec![7, 3, 9, 1, 9, 4]));
    heap.sort();
    heap.fix();
    let first = heap.clone_heap_data();
    heap.fix();
    let second = heap.clone_heap_data();
    assert_eq!(first, second);
}

#[test]
fn test_new_with_values_builds_valid_heap() {
    let heap = Heap::new(I32Ascending, Some(vec![50, 80, 30, 90, 60, 40, 20]));
    assert!(heap.is_valid());
    assert_eq!(heap.root(), Some(90));
    assert_eq!(heap.size(), 7);
}

#[test]
fn test_sort_is_idempotent() {
    let mut heap = Heap::new(I32Ascending, Some(vec![5, 2, 8, 6, 1]));
    let first = heap.to_sorted();
    let second = heap.to_sorted();
    assert_eq!(first, vec![1, 2, 5, 6, 8]);
    assert_eq!(first, second);
}
