use trine_kv::blob::ValueRef;
use trine_kv::internal_key::{InternalKey, ValueKind};
use trine_kv::lsm::compact::{cleanup_point_tombstones, cleanup_range_tombstones, compact_point_records};
use trine_kv::table::TableRangeTombstone;
use trine_kv::types::{KeyRange, Sequence};

fn record(key: &str, sequence: u64) -> (InternalKey, Option<ValueRef>) {
    (
        InternalKey::new(key.as_bytes().to_vec(), Sequence::new(sequence), ValueKind::Put, 0),
        Some(ValueRef::Inline(format!("{key}-{sequence}").into_bytes())),
    )
}

fn tombstone(key: &str, sequence: u64) -> (InternalKey, Option<ValueRef>) {
    (
        InternalKey::new(key.as_bytes().to_vec(), Sequence::new(sequence), ValueKind::PointDelete, 0),
        None,
    )
}

fn range_tombstone(start: &str, end: &str, sequence: u64) -> TableRangeTombstone {
    TableRangeTombstone {
        range: KeyRange::half_open(start.as_bytes(), end.as_bytes()),
        sequence: Sequence::new(sequence),
        batch_index: 0,
    }
}

fn record_sequences(records: &[(InternalKey, Option<ValueRef>)]) -> Vec<(&str, u64)> {
    records
        .iter()
        .map(|(internal_key, _)| {
            (
                std::str::from_utf8(internal_key.user_key()).expect("test key is UTF-8"),
                internal_key.sequence().get(),
            )
        })
        .collect()
}

#[test]
fn compaction_keeps_newer_versions_and_snapshot_floor() {
    let compacted = compact_point_records(
        vec![record("a", 1), record("a", 3), record("a", 2), record("b", 1), record("b", 2)],
        Sequence::new(2),
    );

    assert_eq!(record_sequences(&compacted), vec![("a", 3), ("a", 2), ("b", 2)]);
}

#[test]
fn compaction_without_old_snapshot_keeps_only_newest_record_per_key() {
    let compacted = compact_point_records(
        vec![record("a", 1), record("a", 4), record("a", 3), tombstone("b", 2), record("b", 1)],
        Sequence::new(4),
    );

    assert_eq!(record_sequences(&compacted), vec![("a", 4), ("b", 2)]);
    assert!(matches!(compacted[1].0.kind(), ValueKind::PointDelete));
}

#[test]
fn point_tombstone_cleanup_drops_delete_after_older_records_are_removed() {
    let compacted = compact_point_records(vec![tombstone("a", 2), record("a", 1)], Sequence::new(2));

    assert!(cleanup_point_tombstones(&compacted).is_empty());
}

#[test]
fn point_tombstone_cleanup_keeps_delete_while_older_record_remains() {
    let compacted = compact_point_records(vec![tombstone("a", 3), record("a", 1)], Sequence::new(1));

    assert_eq!(record_sequences(&cleanup_point_tombstones(&compacted)), vec![("a", 3), ("a", 1)]);
}

#[test]
fn range_tombstone_cleanup_keeps_tombstone_covering_remaining_put() {
    let tombstones = cleanup_range_tombstones(vec![range_tombstone("a", "c", 2)], &[record("b", 1)], true);

    assert_eq!(tombstones.len(), 1);
}

#[test]
fn range_tombstone_cleanup_drops_tombstone_without_remaining_put() {
    let tombstones = cleanup_range_tombstones(
        vec![range_tombstone("a", "c", 2)],
        &[record("b", 3), record("z", 1)],
        true,
    );

    assert!(tombstones.is_empty());
}

#[test]
fn range_tombstone_cleanup_keeps_tombstone_for_partial_compaction() {
    let tombstones = cleanup_range_tombstones(vec![range_tombstone("a", "c", 2)], &[], false);

    assert_eq!(tombstones.len(), 1);
}

#[test]
fn compaction_output_is_sorted_and_keeps_values() {
    let compacted = compact_point_records(vec![record("b", 1), record("a", 1)], Sequence::new(0));
    assert_eq!(record_sequences(&compacted), vec![("a", 1), ("b", 1)]);
    assert_eq!(compacted[0].1, Some(ValueRef::Inline(b"a-1".to_vec())));
}
