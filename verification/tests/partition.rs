use cpr::types::{CopyInfo, SplitCopyInfo};
use cpr::util::balanced_split;

fn task(name: &str, size: u64) -> CopyInfo {
    CopyInfo {
        src_path: format!("/src/{}", name),
        dst_path: format!("/dst/{}", name),
        is_symlink: false,
        size,
    }
}

#[test]
fn greedy_order_is_deterministic() {
    // Manifest order [10, 20, 30] with two buckets: 10 joins bucket 0 (tie
    // breaks to the first bucket), 20 joins bucket 1 (0 < 10), 30 joins
    // bucket 0 again (10 < 20).
    let manifest = vec![task("a", 10), task("b", 20), task("c", 30)];
    let buckets = balanced_split(manifest, 2);
    assert_eq!(buckets.len(), 2);
    assert_eq!(buckets[0].size, 40);
    assert_eq!(buckets[1].size, 20);
    assert_eq!(buckets[0].copy_info_list.len(), 2);
    assert_eq!(buckets[0].copy_info_list[0].src_path, "/src/a");
    assert_eq!(buckets[0].copy_info_list[1].src_path, "/src/c");
    assert_eq!(buckets[1].copy_info_list.len(), 1);
    assert_eq!(buckets[1].copy_info_list[0].src_path, "/src/b");
}

#[test]
fn bucket_totals_sum_to_manifest_total() {
    let sizes: [u64; 7] = [5, 1, 9, 2, 2, 8, 3];
    let manifest: Vec<CopyInfo> = sizes
        .iter()
        .enumerate()
        .map(|(i, s)| task(&format!("f{}", i), *s))
        .collect();
    let total: u64 = sizes.iter().sum();
    let buckets = balanced_split(manifest, 3);
    assert_eq!(buckets.len(), 3);
    let bucket_total: u64 = buckets.iter().map(|b| b.size).sum();
    assert_eq!(bucket_total, total);
    let task_count: usize = buckets.iter().map(|b| b.copy_info_list.len()).sum();
    assert_eq!(task_count, sizes.len());
    for b in &buckets {
        let listed: u64 = b.copy_info_list.iter().map(|c| c.size).sum();
        assert_eq!(listed, b.size);
    }
}

#[test]
fn fewer_tasks_than_buckets_leaves_empty_buckets() {
    let manifest = vec![task("only", 42)];
    let buckets = balanced_split(manifest, 4);
    assert_eq!(buckets.len(), 4);
    assert_eq!(buckets[0].size, 42);
    assert_eq!(buckets[0].copy_info_list.len(), 1);
    for b in &buckets[1..] {
        assert_eq!(b.size, 0);
        assert!(b.copy_info_list.is_empty());
    }
}

#[test]
fn empty_manifest_gives_all_empty_buckets() {
    let buckets = balanced_split(Vec::new(), 50);
    assert_eq!(buckets.len(), 50);
    for b in &buckets {
        assert_eq!(b.size, 0);
        assert!(b.copy_info_list.is_empty());
    }
}

#[test]
fn new_bucket_is_empty() {
    let b = SplitCopyInfo::new();
    assert_eq!(b.size, 0);
    assert!(b.copy_info_list.is_empty());
}
