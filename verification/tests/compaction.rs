use trine_kv::compaction::{plan_compaction, CompactionOptions, CompactionTable};
use trine_kv::table::{TableId, TableLevel};
use trine_kv::types::{KeyRange, Sequence};

fn table(id: u64, level: u32, smallest: &[u8], largest: &[u8]) -> CompactionTable {
    table_with_bytes(id, level, smallest, largest, 1)
}

fn table_with_bytes(id: u64, level: u32, smallest: &[u8], largest: &[u8], bytes: u64) -> CompactionTable {
    CompactionTable::new(TableId(id), TableLevel(level), bytes, smallest.to_vec(), largest.to_vec())
}

fn options() -> CompactionOptions {
    CompactionOptions { target_table_bytes: 100, level_size_multiplier: 10, max_l0_files: 8 }
}

#[test]
fn l0_plan_expands_overlapping_l0_group_and_lower_level_tables() {
    let tables = vec![
        table(1, 0, b"a", b"d"),
        table(2, 0, b"c", b"f"),
        table(3, 1, b"b", b"e"),
        table(4, 1, b"x", b"z"),
    ];

    let plan = plan_compaction("default", &tables, &KeyRange::half_open(b"b", b"c"), Sequence::new(7), options())
        .expect("planning succeeds")
        .expect("plan exists");

    assert_eq!(plan.input_tables, vec![TableId(1), TableId(2), TableId(3)]);
    assert_eq!(plan.output_level, TableLevel(1));
    assert_eq!(plan.oldest_active_snapshot, Sequence::new(7));
}

#[test]
fn single_l0_with_lower_overlap_is_planned() {
    let tables = vec![table(1, 0, b"a", b"c"), table(2, 1, b"b", b"d")];

    let plan = plan_compaction("default", &tables, &KeyRange::all(), Sequence::new(0), options())
        .expect("planning succeeds")
        .expect("plan exists");

    assert_eq!(plan.input_tables, vec![TableId(1), TableId(2)]);
    assert_eq!(plan.output_level, TableLevel(1));
}

#[test]
fn single_l0_without_lower_overlap_is_skipped() {
    let tables = vec![table(1, 0, b"a", b"c"), table(2, 1, b"x", b"z")];

    let plan = plan_compaction("default", &tables, &KeyRange::half_open(b"a", b"b"), Sequence::new(0), options())
        .expect("planning succeeds");

    assert!(plan.is_none());
}

#[test]
fn no_l0_fallback_moves_shallowest_overlapping_level_down() {
    let tables = vec![table(1, 1, b"a", b"b"), table(2, 1, b"c", b"d"), table(3, 2, b"a", b"d")];

    let plan = plan_compaction("default", &tables, &KeyRange::all(), Sequence::new(0), options())
        .expect("planning succeeds")
        .expect("plan exists");

    assert_eq!(plan.input_tables, vec![TableId(1), TableId(2), TableId(3)]);
    assert_eq!(plan.output_level, TableLevel(2));
}

#[test]
fn overfull_level_score_picks_largest_pressure_ratio() {
    let tables = vec![
        table_with_bytes(1, 1, b"a", b"b", 90),
        table_with_bytes(2, 2, b"a", b"b", 1_500),
        table_with_bytes(3, 3, b"a", b"b", 2_000),
    ];

    let plan = plan_compaction("default", &tables, &KeyRange::all(), Sequence::new(0), options())
        .expect("planning succeeds")
        .expect("plan exists");

    assert_eq!(plan.input_tables, vec![TableId(2), TableId(3)]);
    assert_eq!(plan.output_level, TableLevel(3));
}

#[test]
fn nothing_to_plan_without_tables() {
    let plan = plan_compaction("default", &[], &KeyRange::all(), Sequence::new(0), options())
        .expect("planning succeeds");
    assert!(plan.is_none());
}
