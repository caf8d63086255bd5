use trine_kv::options::IndexSearchPolicy;
use trine_kv::search::{advance_to, partition_point_by, seek_ge, seek_gt, seek_le};

#[test]
fn sorted_search_boundaries_are_stable() {
    let items = [1, 3, 5, 7];

    assert_eq!(seek_ge(&items, 0), Some(0));
    assert_eq!(seek_ge(&items, 4), Some(2));
    assert_eq!(seek_ge(&items, 8), None);

    assert_eq!(seek_gt(&items, 5), Some(3));
    assert_eq!(seek_gt(&items, 7), None);

    assert_eq!(seek_le(&items, 0), None);
    assert_eq!(seek_le(&items, 6), Some(2));

    assert_eq!(advance_to(&items, 1, 6), Some(3));
}

#[test]
fn partition_point_policy_dispatch_keeps_sorted_boundaries() {
    let items = [1, 3, 5, 7, 9, 11, 13, 15, 17];

    for policy in [
        IndexSearchPolicy::Linear,
        IndexSearchPolicy::Binary,
        IndexSearchPolicy::Auto,
        IndexSearchPolicy::Eytzinger,
        IndexSearchPolicy::GallopingWithHint,
    ] {
        let index = partition_point_by(items.len(), policy, |index| items[index] <= 10);
        assert_eq!(index, 5, "policy {policy:?} changed the boundary");
    }
}

#[test]
fn seek_on_empty_and_duplicate_items() {
    let empty: [u64; 0] = [];
    assert_eq!(seek_ge(&empty, 1), None);
    assert_eq!(seek_le(&empty, 1), None);
    let items = [2, 2, 2, 4];
    assert_eq!(seek_ge(&items, 2), Some(0));
    assert_eq!(seek_gt(&items, 2), Some(3));
    assert_eq!(seek_le(&items, 2), Some(2));
    assert_eq!(advance_to(&items, 4, 0), None);
    assert_eq!(advance_to(&items, 1, 2), Some(1));
}

#[test]
fn partition_point_on_short_and_empty_ranges() {
    let items = [1, 2, 3];
    assert_eq!(partition_point_by(0, IndexSearchPolicy::Auto, |_| true), 0);
    assert_eq!(partition_point_by(items.len(), IndexSearchPolicy::Auto, |i| items[i] < 10), 3);
    assert_eq!(partition_point_by(items.len(), IndexSearchPolicy::Binary, |i| items[i] < 1), 0);
}
