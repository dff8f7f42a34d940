use fatass::FileData;
use fatass::TopKTracker;
use fatass::reverse_binary_search_insert_index;
use fatass::sort_by_size_desc;

fn entry(name: &str, size: u64) -> FileData {
    FileData::new(name.to_string(), size)
}

fn result_sizes(entries: &[FileData]) -> Vec<u64> {
    entries.iter().map(|fd| fd.size).collect()
}

#[test]
fn top_k_basic_scenario() {
    let mut t = TopKTracker::new(3);
    for (i, size) in [10u64, 50, 20, 5, 100, 30].iter().enumerate() {
        t.offer(entry(&format!("f{}", i), *size));
    }
    let r = t.into_top_list();
    assert_eq!(result_sizes(&r), vec![100, 50, 30]);
}

#[test]
fn fewer_than_capacity_needs_explicit_sort() {
    let mut t = TopKTracker::new(3);
    t.offer(entry("a", 10));
    t.offer(entry("b", 50));
    // Still filling: the snapshot is in arrival order, unsorted.
    assert_eq!(result_sizes(t.snapshot()), vec![10, 50]);
    // The caller owes the sort below capacity.
    let mut partial: Vec<FileData> = Vec::new();
    partial.push(entry("a", 10));
    partial.push(entry("b", 50));
    sort_by_size_desc(&mut partial);
    assert_eq!(result_sizes(&partial), vec![50, 10]);
}

#[test]
fn fewer_than_capacity_via_top_list() {
    let mut t = TopKTracker::new(3);
    t.offer(entry("a", 10));
    t.offer(entry("b", 50));
    let r = t.into_top_list();
    assert_eq!(result_sizes(&r), vec![50, 10]);
}

#[test]
fn zero_capacity_always_empty() {
    let mut t = TopKTracker::new(0);
    t.offer(entry("a", 10));
    t.offer(entry("b", 50));
    assert_eq!(t.len(), 0);
    let r = t.into_top_list();
    assert!(r.is_empty());
}

#[test]
fn snapshot_is_idempotent() {
    let mut t = TopKTracker::new(2);
    t.offer(entry("a", 10));
    t.offer(entry("b", 50));
    t.offer(entry("c", 20));
    let first: Vec<(String, u64)> =
        t.snapshot().iter().map(|fd| (fd.path.clone(), fd.size)).collect();
    let second: Vec<(String, u64)> =
        t.snapshot().iter().map(|fd| (fd.path.clone(), fd.size)).collect();
    assert_eq!(first, second);
}

#[test]
fn reaching_capacity_triggers_the_one_time_sort() {
    let mut t = TopKTracker::new(2);
    t.offer(entry("a", 10));
    assert_eq!(result_sizes(t.snapshot()), vec![10]);
    t.offer(entry("b", 50));
    // The offer that fills the tracker sorts it.
    assert_eq!(result_sizes(t.snapshot()), vec![50, 10]);
}

#[test]
fn new_maximum_lands_at_index_zero() {
    let mut t = TopKTracker::new(3);
    for (i, size) in [10u64, 50, 20].iter().enumerate() {
        t.offer(entry(&format!("f{}", i), *size));
    }
    t.offer(entry("big", 99));
    let snap = t.snapshot();
    assert_eq!(snap[0].size, 99);
    assert_eq!(snap[0].path, "big");
    assert_eq!(result_sizes(snap), vec![99, 50, 20]);
}

#[test]
fn below_minimum_leaves_tracker_unchanged() {
    let mut t = TopKTracker::new(3);
    for (i, size) in [10u64, 50, 20].iter().enumerate() {
        t.offer(entry(&format!("f{}", i), *size));
    }
    let before: Vec<(String, u64)> =
        t.snapshot().iter().map(|fd| (fd.path.clone(), fd.size)).collect();
    t.offer(entry("tiny", 3));
    let after: Vec<(String, u64)> =
        t.snapshot().iter().map(|fd| (fd.path.clone(), fd.size)).collect();
    assert_eq!(before, after);
}

#[test]
fn equal_sizes_are_counted_up_to_capacity() {
    let mut t = TopKTracker::new(3);
    for (i, size) in [7u64, 7, 5, 7, 7].iter().enumerate() {
        t.offer(entry(&format!("f{}", i), *size));
    }
    let r = t.into_top_list();
    let sevens = r.iter().filter(|fd| fd.size == 7).count();
    // Four sevens were offered, but only three fit.
    assert_eq!(sevens, 3);
    assert_eq!(result_sizes(&r), vec![7, 7, 7]);
}

#[test]
fn top_k_with_duplicates_across_the_cut() {
    let mut t = TopKTracker::new(2);
    for (i, size) in [5u64, 9, 5, 9, 1].iter().enumerate() {
        t.offer(entry(&format!("f{}", i), *size));
    }
    let r = t.into_top_list();
    assert_eq!(result_sizes(&r), vec![9, 9]);
}

#[test]
fn binary_search_rejects_below_minimum() {
    let arr = vec![entry("a", 50), entry("b", 30), entry("c", 10)];
    assert_eq!(reverse_binary_search_insert_index(&arr, &5), None);
}

#[test]
fn binary_search_finds_splice_points() {
    let arr = vec![entry("a", 50), entry("b", 30), entry("c", 10)];
    let probe = |target: u64| reverse_binary_search_insert_index(&arr, &target);
    let check = |target: u64| {
        let i = probe(target).expect("at or above the minimum");
        assert!(i <= arr.len());
        assert!(arr[..i].iter().all(|fd| fd.size >= target));
        assert!(arr[i..].iter().all(|fd| fd.size <= target));
    };
    check(60);
    check(40);
    check(30);
    check(20);
    check(10);
    assert_eq!(probe(60), Some(0));
    assert_eq!(probe(10), Some(2));
}

#[test]
fn sort_descending_handles_edges() {
    let mut empty: Vec<FileData> = Vec::new();
    sort_by_size_desc(&mut empty);
    assert!(empty.is_empty());

    let mut mixed = vec![entry("a", 3), entry("b", 9), entry("c", 3), entry("d", 12)];
    sort_by_size_desc(&mut mixed);
    assert_eq!(result_sizes(&mixed), vec![12, 9, 3, 3]);
}
