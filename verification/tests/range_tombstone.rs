use trine_kv::range_tombstone::{key_is_in_range, range_intersection, ranges_overlap, RangeTombstoneIndex};
use trine_kv::table::TableRangeTombstone;
use trine_kv::types::{Bound, KeyRange, Sequence};

const NAMES: [&str; 8] = ["late", "hit", "early", "left", "right", "a", "b", "c"];

fn tombstone(name: &'static str, start: &[u8], end: &[u8]) -> TableRangeTombstone {
    let index = NAMES.iter().position(|n| *n == name).expect("known name");
    TableRangeTombstone {
        range: KeyRange::half_open(start, end),
        sequence: Sequence::new(0),
        batch_index: index as u32,
    }
}

fn name_of(tombstone: &TableRangeTombstone) -> &'static str {
    NAMES[tombstone.batch_index as usize]
}

#[test]
fn covering_key_returns_only_possible_covering_tombstones() {
    let index = RangeTombstoneIndex::new(vec![
        tombstone("late", b"m", b"z"),
        tombstone("hit", b"b", b"d"),
        tombstone("early", b"a", b"b"),
    ]);

    let names = index
        .covering_key(b"c")
        .into_iter()
        .map(name_of)
        .collect::<Vec<_>>();

    assert_eq!(names, vec!["hit"]);
}

#[test]
fn overlapping_range_returns_only_intersecting_tombstones() {
    let index = RangeTombstoneIndex::new(vec![
        tombstone("left", b"a", b"b"),
        tombstone("hit", b"c", b"f"),
        tombstone("right", b"z", b"zz"),
    ]);

    let names = index
        .overlapping_range(&KeyRange::half_open(b"d", b"e"))
        .into_iter()
        .map(name_of)
        .collect::<Vec<_>>();

    assert_eq!(names, vec!["hit"]);
}

#[test]
fn index_sorts_by_start_then_end() {
    let index = RangeTombstoneIndex::new(vec![
        tombstone("c", b"b", b"z"),
        tombstone("b", b"a", b"z"),
        tombstone("a", b"a", b"c"),
    ]);
    let names = index.all().iter().map(name_of).collect::<Vec<_>>();
    assert_eq!(names, vec!["a", "b", "c"]);
}

#[test]
fn half_open_ranges_exclude_their_end() {
    let range = KeyRange::half_open(b"b", b"d");
    assert!(!key_is_in_range(b"a", &range));
    assert!(key_is_in_range(b"b", &range));
    assert!(key_is_in_range(b"c", &range));
    assert!(!key_is_in_range(b"d", &range));
    assert!(key_is_in_range(b"anything", &KeyRange::all()));
}

#[test]
fn touching_half_open_ranges_do_not_overlap() {
    let left = KeyRange::half_open(b"a", b"c");
    let right = KeyRange::half_open(b"c", b"e");
    assert!(!ranges_overlap(&left, &right));
    assert!(range_intersection(&left, &right).is_none());
    let inclusive = KeyRange::inclusive(b"a", b"c");
    assert!(ranges_overlap(&inclusive, &right));
}

#[test]
fn intersection_takes_the_later_start_and_earlier_end() {
    let left = KeyRange::half_open(b"a", b"m");
    let right = KeyRange::inclusive(b"c", b"z");
    let both = range_intersection(&left, &right).expect("ranges overlap");
    assert_eq!(both.start, Bound::Included(b"c".to_vec()));
    assert_eq!(both.end, Bound::Excluded(b"m".to_vec()));
}
