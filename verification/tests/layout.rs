use trine_kv::blob::{BlobIndex, ValueRef};
use trine_kv::table_block::TablePointRecord;
use trine_kv::error::Error;
use trine_kv::blob_accounting::{
    blob_reference_bytes, input_blob_bytes_by_file, payload_blob_bytes_by_file,
    payloads_have_blob_references, should_rewrite_blob_indexes_for_compaction,
};
use trine_kv::blob_gc::{plan_blob_gc_rewrite, sort_rewrite_records, BlobGcRewriteRecord, BlobGcTableInput, BlobGcRewriteTarget, apply_blob_gc_indexes, BlobGcRewritePosition, BlobGcRewriteTable, blob_gc_accounting, choose_blob_gc_candidates, live_blob_bytes_by_file, BlobFileUsage, BlobGcCandidate};
use trine_kv::codec::CodecId;
use trine_kv::compaction_cleanup::{deletable_blob_files, deletable_table_files, obsolete_blob_ids_for_compaction, obsolete_table_ids};
use trine_kv::internal_key::{InternalKey, ValueKind};
use trine_kv::lsm::output::{
    build_compaction_payloads, chunk_range, cleanup_range_tombstones_by_coverage,
    compaction_payloads_from_chunks, compaction_record_bytes, mark_tombstones_covering_records,
    next_compaction_user_key, push_compaction_records_to_chunks, range_is_all, range_tombstone_bytes,
    tombstone_for_output_span, CompactionChunk, CompactionTablePayload,
};
use trine_kv::options::{BlobGcRatio, BlobLevelMergePolicy, BucketOptions, DbOptions, FilterPolicy};
use trine_kv::table::{TableBlobReference, TableId, TableLevel, TableProperties, TableRangeTombstone};
use trine_kv::types::{Bound, KeyRange, Sequence};
use trine_kv::validation::{compaction_options, validate_batch_len, validate_bucket_options, validate_options};

fn put(key: &str, sequence: u64, value: &str) -> (InternalKey, Option<ValueRef>) {
    (
        InternalKey::new(key.as_bytes().to_vec(), Sequence::new(sequence), ValueKind::Put, 0),
        Some(ValueRef::Inline(value.as_bytes().to_vec())),
    )
}

fn delete(key: &str, sequence: u64) -> (InternalKey, Option<ValueRef>) {
    (
        InternalKey::new(key.as_bytes().to_vec(), Sequence::new(sequence), ValueKind::PointDelete, 0),
        None,
    )
}

fn tombstone(start: &str, end: &str, sequence: u64) -> TableRangeTombstone {
    TableRangeTombstone {
        range: KeyRange::half_open(start.as_bytes(), end.as_bytes()),
        sequence: Sequence::new(sequence),
        batch_index: 0,
    }
}

fn keys(records: &[(InternalKey, Option<ValueRef>)]) -> Vec<(String, u64)> {
    records
        .iter()
        .map(|(key, _)| (String::from_utf8(key.user_key().to_vec()).unwrap(), key.sequence().get()))
        .collect()
}

fn blob_index(file_id: u64, encoded_len: u64) -> BlobIndex {
    BlobIndex {
        file_id,
        offset: 0,
        encoded_len,
        value_len: encoded_len,
        value_checksum: 0,
        record_checksum: 0,
        compression: CodecId::Uncompressed,
    }
}

#[test]
fn default_options_are_valid() {
    assert!(validate_bucket_options(&BucketOptions::default()).is_ok());
    assert!(validate_options(&DbOptions::default()).is_ok());
}

#[test]
fn invalid_options_name_the_first_broken_rule() {
    let mut bucket = BucketOptions::default();
    bucket.block_bytes = 0;
    bucket.blob_threshold_bytes = 0;
    let error = validate_bucket_options(&bucket).unwrap_err();
    assert_eq!(error.describe(), "invalid options: block size must be non-zero");

    let mut bucket = BucketOptions::default();
    bucket.filter_policy = FilterPolicy::Bloom { bits_per_key: 0 };
    let error = validate_bucket_options(&bucket).unwrap_err();
    assert_eq!(error.describe(), "invalid options: bits_per_key must be non-zero for Bloom filters");

    let mut options = DbOptions::default();
    options.level_size_multiplier = 1;
    let error = validate_options(&options).unwrap_err();
    assert_eq!(error.describe(), "invalid options: level size multiplier must be >= 2");

    let mut options = DbOptions::default();
    options.default_bucket_options.blob_threshold_bytes = 0;
    options.write_buffer_bytes = 0;
    let error = validate_options(&options).unwrap_err();
    assert_eq!(error.describe(), "invalid options: blob threshold must be non-zero");

    let mut options = DbOptions::default();
    options.blob_gc_min_file_bytes = 0;
    let error = validate_options(&options).unwrap_err();
    assert_eq!(error.describe(), "invalid options: blob GC minimum file size must be non-zero");
    options.blob_gc_enabled = false;
    assert!(validate_options(&options).is_ok());
}

#[test]
fn batch_length_must_fit_in_u32() {
    assert!(validate_batch_len(7).is_ok());
    assert!(validate_batch_len(u32::MAX as usize).is_ok());
    if usize::BITS > 32 {
        let error = validate_batch_len(u32::MAX as usize + 1).unwrap_err();
        assert_eq!(error.describe(), "invalid options: write batch operation count exceeds u32::MAX");
    }
}

#[test]
fn compaction_options_follow_database_options() {
    let options = DbOptions::default();
    let compaction = compaction_options(&options);
    assert_eq!(compaction.target_table_bytes, options.target_table_bytes as u64);
    assert_eq!(compaction.level_size_multiplier, 10);
    assert_eq!(compaction.max_l0_files, 8);
}

#[test]
fn estimated_sizes_count_keys_values_and_overhead() {
    assert_eq!(compaction_record_bytes(&put("abc", 1, "hello")), 3 + 5 + 32);
    assert_eq!(compaction_record_bytes(&delete("abcd", 1)), 4 + 32);
    assert_eq!(range_tombstone_bytes(&tombstone("a", "bcd", 1)), 1 + 3 + 8 + 4);
    let unbounded = TableRangeTombstone { range: KeyRange::all(), sequence: Sequence::new(1), batch_index: 0 };
    assert_eq!(range_tombstone_bytes(&unbounded), 12);
    assert!(range_is_all(&KeyRange::all()));
    assert!(!range_is_all(&KeyRange::half_open(b"a", b"b")));
}

#[test]
fn chunk_range_spans_first_and_last_user_key() {
    assert!(chunk_range(&[]).is_none());
    let range = chunk_range(&[put("b", 2, "x"), put("d", 1, "y")]).unwrap();
    assert_eq!(range, KeyRange::inclusive(b"b", b"d"));
}

#[test]
fn output_span_cuts_tombstones_only_in_full_compactions() {
    let span = KeyRange::inclusive(b"c", b"f");
    let wide = tombstone("a", "z", 9);
    let cut = tombstone_for_output_span(&wide, &span, true).unwrap();
    assert_eq!(cut.range, KeyRange { start: Bound::Included(b"c".to_vec()), end: Bound::Included(b"f".to_vec()) });
    assert_eq!(cut.sequence.get(), 9);
    let whole = tombstone_for_output_span(&wide, &span, false).unwrap();
    assert_eq!(whole.range, wide.range);
    assert!(tombstone_for_output_span(&tombstone("g", "h", 9), &span, true).is_none());
}

#[test]
fn records_fill_chunks_up_to_the_target() {
    let mut chunks = Vec::new();
    let mut current = CompactionChunk { point_records: Vec::new(), estimated_bytes: 0 };
    push_compaction_records_to_chunks(&mut chunks, &mut current, vec![put("a", 1, "1234")], 80);
    assert_eq!(current.estimated_bytes, 37);
    assert!(chunks.is_empty());
    push_compaction_records_to_chunks(&mut chunks, &mut current, vec![put("b", 1, "1234")], 80);
    assert_eq!(current.estimated_bytes, 74);
    assert!(chunks.is_empty());
    push_compaction_records_to_chunks(&mut chunks, &mut current, vec![put("c", 1, "1234")], 80);
    assert_eq!(chunks.len(), 1);
    assert_eq!(keys(&chunks[0].point_records), vec![("a".to_string(), 1), ("b".to_string(), 1)]);
    assert_eq!(keys(&current.point_records), vec![("c".to_string(), 1)]);
    assert_eq!(current.estimated_bytes, 37);
}

#[test]
fn tombstone_marks_follow_remaining_puts() {
    let tombstones = vec![tombstone("a", "c", 5), tombstone("x", "z", 5)];
    let mut marks = vec![false, false];
    mark_tombstones_covering_records(&tombstones, &mut marks, &[put("b", 3, "v")]);
    assert_eq!(marks, vec![true, false]);
    let kept = cleanup_range_tombstones_by_coverage(tombstones.clone(), marks.clone(), true);
    assert_eq!(kept, vec![tombstone("a", "c", 5)]);
    let all = cleanup_range_tombstones_by_coverage(tombstones.clone(), marks, false);
    assert_eq!(all, tombstones);
}

#[test]
fn next_compaction_key_is_the_smallest_current_key() {
    let keys = vec![Some(b"m".to_vec()), None, Some(b"c".to_vec()), Some(b"x".to_vec())];
    assert_eq!(next_compaction_user_key(&keys), Some(b"c".to_vec()));
    assert_eq!(next_compaction_user_key(&[None, None]), None);
}

#[test]
fn payloads_give_each_chunk_its_tombstones_and_group_the_rest() {
    let chunks = vec![
        CompactionChunk { point_records: vec![put("b", 1, "x"), put("c", 1, "y")], estimated_bytes: 70 },
        CompactionChunk { point_records: Vec::new(), estimated_bytes: 0 },
        CompactionChunk { point_records: vec![put("m", 1, "z")], estimated_bytes: 34 },
    ];
    let tombstones = vec![tombstone("a", "bb", 4), tombstone("d", "e", 4), tombstone("f", "g", 4), tombstone("l", "n", 4)];
    let payloads = compaction_payloads_from_chunks(chunks, &tombstones, false, 20);
    assert_eq!(payloads.len(), 4);
    assert_eq!(keys(&payloads[0].point_records), vec![("b".to_string(), 1), ("c".to_string(), 1)]);
    assert_eq!(payloads[0].range_tombstones, vec![tombstone("a", "bb", 4)]);
    assert_eq!(keys(&payloads[1].point_records), vec![("m".to_string(), 1)]);
    assert_eq!(payloads[1].range_tombstones, vec![tombstone("l", "n", 4)]);
    // Each unassigned tombstone is 14 bytes, so a 20-byte target holds one.
    assert!(payloads[2].point_records.is_empty());
    assert_eq!(payloads[2].range_tombstones, vec![tombstone("d", "e", 4)]);
    assert_eq!(payloads[3].range_tombstones, vec![tombstone("f", "g", 4)]);
}

#[test]
fn full_compaction_payloads_drop_spent_tombstones_and_old_versions() {
    let groups = vec![
        vec![put("a", 5, "new"), put("a", 3, "old")],
        vec![delete("b", 6)],
        vec![put("c", 2, "kept")],
    ];
    let tombstones = vec![tombstone("a", "b", 6), tombstone("c", "d", 1)];
    let payloads = build_compaction_payloads(groups, tombstones, &KeyRange::all(), Sequence::new(10), 1 << 20);
    assert_eq!(payloads.len(), 1);
    assert_eq!(keys(&payloads[0].point_records), vec![("a".to_string(), 5), ("c".to_string(), 2)]);
    // Only the tombstone that still hides a put remains, cut to the output span.
    assert_eq!(payloads[0].range_tombstones.len(), 1);
    assert_eq!(payloads[0].range_tombstones[0].range, KeyRange { start: Bound::Included(b"a".to_vec()), end: Bound::Excluded(b"b".to_vec()) });
}

#[test]
fn blob_accounting_counts_referenced_bytes_per_file() {
    let blob = (
        InternalKey::new(b"k".to_vec(), Sequence::new(1), ValueKind::Put, 0),
        Some(ValueRef::BlobIndex(blob_index(7, 100))),
    );
    let direct = (
        InternalKey::new(b"l".to_vec(), Sequence::new(1), ValueKind::Put, 0),
        Some(ValueRef::Blob { file_id: 7, offset: 0, len: 20, checksum: 0 }),
    );
    assert_eq!(blob_reference_bytes(blob.1.as_ref()), Some((7, 100)));
    assert_eq!(blob_reference_bytes(None), None);
    let payloads = vec![CompactionTablePayload { point_records: vec![blob, direct, put("m", 1, "x")], range_tombstones: Vec::new() }];
    assert!(payloads_have_blob_references(&payloads));
    let bytes = payload_blob_bytes_by_file(&payloads);
    assert_eq!(bytes.get(&7), Some(&120));
    assert_eq!(bytes.len(), 1);

    let plain = vec![CompactionTablePayload { point_records: vec![put("m", 1, "x")], range_tombstones: Vec::new() }];
    assert!(!payloads_have_blob_references(&plain));

    let input = vec![table_properties(1, vec![reference(7, 150)]), table_properties(2, vec![reference(7, 50), reference(8, 5)])];
    let input_bytes = input_blob_bytes_by_file(&input);
    assert_eq!(input_bytes.get(&7), Some(&200));
    assert_eq!(input_bytes.get(&8), Some(&5));

    assert!(!should_rewrite_blob_indexes_for_compaction(&input, &payloads, BlobLevelMergePolicy::Disabled));
    assert!(should_rewrite_blob_indexes_for_compaction(&input, &payloads, BlobLevelMergePolicy::Always));
    assert!(!should_rewrite_blob_indexes_for_compaction(&input, &plain, BlobLevelMergePolicy::Always));
    // The input refers to more of file 7 than the output does.
    assert!(should_rewrite_blob_indexes_for_compaction(&input, &payloads, BlobLevelMergePolicy::Auto));
    let same = vec![table_properties(1, vec![reference(7, 120)])];
    assert!(!should_rewrite_blob_indexes_for_compaction(&same, &payloads, BlobLevelMergePolicy::Auto));
}

fn reference(file_id: u64, referenced_bytes: u64) -> TableBlobReference {
    TableBlobReference {
        file_id,
        referenced_bytes,
        referenced_record_count: 1,
        smallest_internal_key: InternalKey::new(b"a".to_vec(), Sequence::new(1), ValueKind::Put, 0),
        largest_internal_key: InternalKey::new(b"z".to_vec(), Sequence::new(1), ValueKind::Put, 0),
    }
}

fn table_properties(id: u64, blob_references: Vec<TableBlobReference>) -> TableProperties {
    TableProperties {
        id: TableId(id),
        level: TableLevel(1),
        smallest_user_key: b"a".to_vec(),
        largest_user_key: b"z".to_vec(),
        smallest_sequence: Sequence::new(1),
        largest_sequence: Sequence::new(1),
        codec: CodecId::Uncompressed,
        blob_file_ids: blob_references.iter().map(|r| r.file_id).collect(),
        blob_references,
    }
}

#[test]
fn every_compacted_record_lands_in_one_output_table_in_order() {
    let groups = vec![
        vec![put("a", 5, "1234567890"), put("a", 3, "old")],
        vec![put("b", 4, "1234567890")],
        vec![delete("c", 2)],
        vec![put("d", 1, "1234567890")],
    ];
    let payloads = build_compaction_payloads(groups, Vec::new(), &KeyRange::all(), Sequence::new(10), 50);
    let all = payloads.iter().flat_map(|p| keys(&p.point_records)).collect::<Vec<_>>();
    assert_eq!(all, vec![("a".to_string(), 5), ("b".to_string(), 4), ("d".to_string(), 1)]);
    assert_eq!(payloads.len(), 3);
}

fn usage(file_id: u64, live_bytes: u64, total_bytes: u64) -> BlobFileUsage {
    BlobFileUsage { file_id, live_bytes, total_bytes }
}

#[test]
fn blob_gc_picks_files_over_the_ratio_most_discardable_first() {
    let files = vec![
        usage(1, 90, 100),  // 10% discardable: under the ratio
        usage(2, 40, 100),  // 60 discardable
        usage(3, 0, 50),    // 50 discardable, but smaller than the minimum
        usage(4, 10, 200),  // 190 discardable
        usage(5, 100, 100), // nothing discardable
        usage(6, 40, 100),  // 60 discardable, after file 2
    ];
    let candidates = choose_blob_gc_candidates(&files, 64, BlobGcRatio::from_millionths(500_000));
    let ids = candidates.iter().map(|c| c.file_id).collect::<Vec<_>>();
    assert_eq!(ids, vec![4, 2, 6]);
    assert_eq!(candidates[0], BlobGcCandidate { file_id: 4, total_bytes: 200, live_bytes: 10 });
}

#[test]
fn blob_gc_accounting_sums_read_and_dropped_bytes() {
    let candidates = vec![
        BlobGcCandidate { file_id: 4, total_bytes: 200, live_bytes: 10 },
        BlobGcCandidate { file_id: 2, total_bytes: 100, live_bytes: 40 },
        BlobGcCandidate { file_id: 9, total_bytes: u64::MAX, live_bytes: 0 },
    ];
    assert_eq!(blob_gc_accounting(&candidates[..2]), (300, 250, vec![4, 2]));
    assert_eq!(blob_gc_accounting(&candidates), (u64::MAX, u64::MAX, vec![4, 2, 9]));
}

#[test]
fn live_blob_bytes_add_up_every_reference() {
    let tables = vec![
        table_properties(1, vec![reference(7, 10), reference(8, 5)]),
        table_properties(2, vec![reference(7, 20)]),
    ];
    let live = live_blob_bytes_by_file(&tables);
    assert_eq!(live.into_iter().collect::<Vec<_>>(), vec![(7, 30), (8, 5)]);
}

#[test]
fn compaction_leaves_moved_tables_and_shared_blob_files() {
    assert_eq!(
        obsolete_table_ids(&[TableId(1), TableId(2), TableId(3)], &[TableId(2), TableId(9)]),
        vec![TableId(1), TableId(3)]
    );
    let inputs = vec![
        table_properties(1, vec![reference(30, 1), reference(10, 1)]),
        table_properties(2, vec![reference(20, 1), reference(40, 1)]),
    ];
    let outputs = vec![table_properties(9, vec![reference(20, 1)])];
    let live = vec![
        inputs[0].clone(),
        inputs[1].clone(),
        table_properties(5, vec![reference(40, 1)]),
    ];
    let obsolete = obsolete_blob_ids_for_compaction(&[TableId(1), TableId(2)], &inputs, &outputs, &live);
    assert_eq!(obsolete, vec![10, 30]);
}

fn gc_table(keys: &[&str]) -> BlobGcRewriteTable {
    BlobGcRewriteTable {
        input_table_id: TableId(1),
        output_table_id: TableId(2),
        level: TableLevel(1),
        point_records: keys
            .iter()
            .map(|k| TablePointRecord {
                internal_key: InternalKey::new(k.as_bytes().to_vec(), Sequence::new(1), ValueKind::Put, 0),
                value: Some(ValueRef::Inline(b"x".to_vec())),
            })
            .collect(),
        range_tombstones: Vec::new(),
    }
}

fn gc_index(offset: u64, encoded_len: u64) -> BlobIndex {
    BlobIndex { file_id: 9, offset, encoded_len, value_len: encoded_len, value_checksum: 0, record_checksum: 0, compression: CodecId::Uncompressed }
}

#[test]
fn blob_gc_indexes_replace_exactly_the_named_records() {
    let mut tables = vec![gc_table(&["a", "b"]), gc_table(&["c"])];
    let positions = [
        BlobGcRewritePosition { table_index: 1, record_index: 0 },
        BlobGcRewritePosition { table_index: 0, record_index: 1 },
    ];
    let indexes = [gc_index(0, 10), gc_index(10, 5)];
    assert_eq!(apply_blob_gc_indexes(&mut tables, &positions, &indexes), Ok(15));
    assert_eq!(tables[0].point_records[0].value, Some(ValueRef::Inline(b"x".to_vec())));
    assert_eq!(tables[0].point_records[1].value, Some(ValueRef::BlobIndex(gc_index(10, 5))));
    assert_eq!(tables[1].point_records[0].value, Some(ValueRef::BlobIndex(gc_index(0, 10))));

    let mut unchanged = vec![gc_table(&["a"])];
    assert_eq!(
        apply_blob_gc_indexes(&mut unchanged, &positions, &indexes[..1]),
        Err(Error::Corruption { message: "blob GC rewrite record count does not match blob indexes".to_string() })
    );
    assert_eq!(
        apply_blob_gc_indexes(&mut unchanged, &positions[..1], &indexes[..1]),
        Err(Error::Corruption { message: "blob GC rewrite record position is invalid".to_string() })
    );
}

fn gc_input(blob_file_ids: Vec<u64>, values: Vec<Option<ValueRef>>) -> BlobGcTableInput {
    BlobGcTableInput {
        blob_file_ids,
        point_records: values
            .into_iter()
            .enumerate()
            .map(|(i, value)| TablePointRecord {
                internal_key: InternalKey::new(vec![b'a' + i as u8], Sequence::new(1), ValueKind::Put, 0),
                value,
            })
            .collect(),
    }
}

fn blob_at(file_id: u64, offset: u64) -> BlobIndex {
    BlobIndex { file_id, offset, encoded_len: 4, value_len: 4, value_checksum: 0, record_checksum: 0, compression: CodecId::Uncompressed }
}

#[test]
fn blob_gc_plan_picks_tables_and_records_of_candidate_files() {
    let tables = vec![
        gc_input(vec![7], vec![Some(ValueRef::BlobIndex(blob_at(7, 0)))]),
        gc_input(vec![3, 5], vec![
            Some(ValueRef::Inline(b"x".to_vec())),
            Some(ValueRef::BlobIndex(blob_at(3, 8))),
            Some(ValueRef::BlobIndex(blob_at(5, 0))),
            None,
        ]),
        gc_input(vec![5], vec![Some(ValueRef::BlobIndex(blob_at(5, 4)))]),
    ];
    let plan = plan_blob_gc_rewrite(&tables, &[5, 9], TableId(40)).unwrap().unwrap();
    assert_eq!(plan.new_blob_file_id, 40);
    assert_eq!(plan.chosen_tables, vec![1, 2]);
    assert_eq!(plan.output_table_ids, vec![TableId(40), TableId(41)]);
    assert_eq!(
        plan.targets,
        vec![
            BlobGcRewriteTarget { position: BlobGcRewritePosition { table_index: 0, record_index: 2 }, index: blob_at(5, 0) },
            BlobGcRewriteTarget { position: BlobGcRewritePosition { table_index: 1, record_index: 0 }, index: blob_at(5, 4) },
        ]
    );
    assert!(plan_blob_gc_rewrite(&tables, &[9], TableId(40)).unwrap().is_none());
    assert_eq!(
        plan_blob_gc_rewrite(&tables, &[5], TableId(u64::MAX)).err(),
        Some(Error::Corruption { message: "table id counter overflow".to_string() })
    );
}

#[test]
fn blob_gc_records_are_sorted_by_internal_key() {
    let record = |key: &str, sequence: u64| BlobGcRewriteRecord {
        internal_key: InternalKey::new(key.as_bytes().to_vec(), Sequence::new(sequence), ValueKind::Put, 0),
        value: key.as_bytes().to_vec(),
        compression: CodecId::Uncompressed,
        table_index: 0,
        record_index: 0,
    };
    let sorted = sort_rewrite_records(vec![record("b", 1), record("a", 1), record("a", 5)]);
    let keys = sorted.iter().map(|r| (r.value.clone(), r.internal_key.sequence().get())).collect::<Vec<_>>();
    assert_eq!(keys, vec![(b"a".to_vec(), 5), (b"a".to_vec(), 1), (b"b".to_vec(), 1)]);
}

#[test]
fn obsolete_files_wait_for_snapshots_and_stay_while_referenced() {
    assert_eq!(deletable_blob_files(1, &[3, 4], &[]), Vec::<u64>::new());
    assert_eq!(deletable_blob_files(0, &[3, 4, 5], &[4]), vec![3, 5]);
    assert_eq!(deletable_table_files(2, &[TableId(1)]), Vec::<TableId>::new());
    assert_eq!(deletable_table_files(0, &[TableId(1), TableId(7)]), vec![TableId(1), TableId(7)]);
}
