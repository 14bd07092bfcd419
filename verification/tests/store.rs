use snapstore::snapshot::{build_snapshots, BinSet, FolderData};
use snapstore::store::{dedup_by_timestamp, Storage};

fn folder(name: &str, data: &[u8]) -> FolderData {
    FolderData {
        name: String::from(name),
        files: Some(vec![data.to_vec()]),
    }
}

fn snap(timestamp: u64, size: u64) -> BinSet {
    BinSet {
        timestamp,
        size,
        document_count: 1,
        data_hash: [0u8; 32],
    }
}

#[test]
fn new_store_is_empty() {
    let store = Storage::new(1000);
    assert!(store.dump().is_empty());
}

#[test]
fn dump_is_sorted_ascending_without_duplicates() {
    let folders = vec![
        folder("1700000300", b"ccc"),
        folder("1700000100", b"a"),
        folder("1700000200", b"bb"),
    ];
    let mut store = Storage::new(1_000_000);
    store.rescan(build_snapshots(&folders));
    let stamps: Vec<u64> = store.dump().iter().map(|s| s.timestamp).collect();
    assert_eq!(stamps, vec![1700000100, 1700000200, 1700000300]);
    for w in store.dump().windows(2) {
        assert!(w[0].timestamp < w[1].timestamp);
    }
}

#[test]
fn rescan_of_unchanged_tree_is_identical() {
    let folders = vec![
        folder("1700000300", b"ccc"),
        folder("1700000100", b"a"),
        folder("1700000200", b"bb"),
    ];
    let mut first = Storage::new(1_000_000);
    first.rescan(build_snapshots(&folders));
    let mut second = Storage::new(1_000_000);
    second.rescan(build_snapshots(&folders));
    assert_eq!(first.dump(), second.dump());

    let before = first.dump().clone();
    first.rescan(build_snapshots(&folders));
    assert_eq!(first.dump(), &before);
}

#[test]
fn invalid_folder_is_skipped_but_others_appear() {
    let folders = vec![
        folder("1700000100", b"a"),
        folder("not-a-number", b"ignored"),
        folder("1700000200", b"bb"),
    ];
    let mut store = Storage::new(1_000_000);
    store.rescan(build_snapshots(&folders));
    let stamps: Vec<u64> = store.dump().iter().map(|s| s.timestamp).collect();
    assert_eq!(stamps, vec![1700000100, 1700000200]);
}

#[test]
fn repeated_timestamps_collapse_to_the_first_spelling() {
    let folders = vec![
        folder("01", b"first"),
        folder("2", b"other"),
        folder("1", b"second"),
    ];
    let snaps = dedup_by_timestamp(build_snapshots(&folders));
    assert_eq!(snaps.len(), 2);
    assert_eq!(snaps[0].timestamp, 1);
    assert_eq!(snaps[0].size, 5);
    assert_eq!(snaps[1].timestamp, 2);

    let already_distinct = vec![snap(10, 1), snap(5, 2), snap(7, 3)];
    assert_eq!(
        dedup_by_timestamp(already_distinct.clone()),
        already_distinct
    );
}

#[test]
fn eviction_removes_oldest_first_until_under_budget() {
    let mut store = Storage::new(100);
    let snaps: Vec<BinSet> = (0..8).map(|i| snap(1000 + i, 30)).collect();
    store.rescan(snaps);
    let evicted = store.enforce_retention();
    assert_eq!(evicted, vec![1000, 1001, 1002, 1003, 1004]);
    let stamps: Vec<u64> = store.dump().iter().map(|s| s.timestamp).collect();
    assert_eq!(stamps, vec![1005, 1006, 1007]);
    let total: u64 = store.dump().iter().map(|s| s.size).sum();
    assert!(total <= 100);
}

#[test]
fn eviction_waits_for_eight_snapshots() {
    let mut store = Storage::new(10);
    let snaps: Vec<BinSet> = (0..7).map(|i| snap(2000 + i, 50)).collect();
    store.rescan(snaps);
    let evicted = store.enforce_retention();
    assert!(evicted.is_empty());
    assert_eq!(store.dump().len(), 7);
}

#[test]
fn eviction_leaves_a_store_within_budget_alone() {
    let mut store = Storage::new(1000);
    let snaps: Vec<BinSet> = (0..9).map(|i| snap(3000 + i, 100)).collect();
    store.rescan(snaps);
    let evicted = store.enforce_retention();
    assert!(evicted.is_empty());
    assert_eq!(store.dump().len(), 9);
}
