use trine_kv::blob::{TableEntry, ValueRef};
use trine_kv::internal_key::{InternalKey, ValueKind};
use trine_kv::iterator::ScanRangeTombstone;
use trine_kv::point_read::{keep_newer_point_candidate, table_may_have_newer_point_record, visible_point_record};
use trine_kv::range_tombstone::RangeTombstoneIndex;
use trine_kv::types::{KeyRange, Sequence};

fn entry(sequence: u64, kind: ValueKind, value: &str) -> TableEntry {
    (
        InternalKey::new(b"k".to_vec(), Sequence::new(sequence), kind, 0),
        Some(ValueRef::Inline(value.as_bytes().to_vec())),
    )
}

#[test]
fn only_tables_at_least_as_new_as_the_candidate_are_searched() {
    assert!(table_may_have_newer_point_record(Sequence::new(1), None));
    assert!(table_may_have_newer_point_record(Sequence::new(5), Some(Sequence::new(5))));
    assert!(!table_may_have_newer_point_record(Sequence::new(4), Some(Sequence::new(5))));
}

#[test]
fn the_newer_record_wins_the_candidate() {
    let mut candidate = None;
    keep_newer_point_candidate(&mut candidate, entry(3, ValueKind::Put, "old"));
    assert_eq!(candidate.as_ref().unwrap().0.sequence().get(), 3);
    keep_newer_point_candidate(&mut candidate, entry(7, ValueKind::Put, "new"));
    assert_eq!(candidate.as_ref().unwrap().0.sequence().get(), 7);
    keep_newer_point_candidate(&mut candidate, entry(5, ValueKind::Put, "middle"));
    assert_eq!(candidate.as_ref().unwrap().0.sequence().get(), 7);
}

#[test]
fn a_point_read_returns_the_newest_put_unless_deleted_or_hidden() {
    let none: RangeTombstoneIndex<ScanRangeTombstone> = RangeTombstoneIndex::new(Vec::new());
    let seen = visible_point_record(
        Some(entry(4, ValueKind::Put, "memtable")),
        vec![entry(2, ValueKind::Put, "l0"), entry(6, ValueKind::Put, "l1")],
        &none,
        Sequence::new(10),
    );
    assert_eq!(seen, Some(entry(6, ValueKind::Put, "l1")));

    let deleted = visible_point_record(
        Some(entry(8, ValueKind::PointDelete, "")),
        vec![entry(6, ValueKind::Put, "l1")],
        &none,
        Sequence::new(10),
    );
    assert_eq!(deleted, None);

    let hiding = RangeTombstoneIndex::new(vec![ScanRangeTombstone::new(KeyRange::all(), Sequence::new(7), 0)]);
    let hidden = visible_point_record(None, vec![entry(6, ValueKind::Put, "l1")], &hiding, Sequence::new(10));
    assert_eq!(hidden, None);
    assert_eq!(visible_point_record(None, Vec::new(), &none, Sequence::new(10)), None);
}
