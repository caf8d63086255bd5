use trine_kv::blob::ValueRef;
use trine_kv::codec::CodecId;
use trine_kv::error::Error;
use trine_kv::filter::PointKeyFilter;
use trine_kv::internal_key::{InternalKey, ValueKind};
use trine_kv::options::IndexSearchPolicy;
use trine_kv::table::{TableBlobReference, TableId, TableLevel, TableProperties, TableRangeTombstone};
use trine_kv::table_block::{
    data_block_has_point_key, data_block_newest_visible_point_record_for_key, data_block_point_records_for_key,
    decode_data_block, encode_data_block, put_table_key, put_value_ref, DecodedDataBlock, TablePointRecord,
};
use trine_kv::table_format::{
    decode_filter_block, decode_index_block, decode_properties_block, decode_range_tombstone_block,
    encode_filter_block, encode_index_block, encode_properties_block, encode_range_tombstone_block,
    BlockHandle, DataBlockIndexEntry,
};
use trine_kv::types::{Bound, KeyRange, Sequence};

const POINT_KEY_FILTER_ABSENT: u8 = 0;
const POINT_KEY_FILTER_PRESENT: u8 = 1;
const PREFIX_FILTER_PRESENT: u8 = 1;
const PREFIX_EXTRACTOR_DISABLED: u8 = 0;

fn test_point_record(key: &[u8], sequence: u64, value: &[u8]) -> TablePointRecord {
    TablePointRecord {
        internal_key: InternalKey::new(key.to_vec(), Sequence::new(sequence), ValueKind::Put, 0),
        value: Some(ValueRef::Inline(value.to_vec())),
    }
}

fn count_block(count: u32) -> Vec<u8> {
    count.to_le_bytes().to_vec()
}

fn assert_invalid_table_message(error: &Error, expected: &str) {
    assert!(error.describe().contains(expected), "unexpected error: {error:?}");
}

fn put_u8(bytes: &mut Vec<u8>, value: u8) {
    bytes.push(value);
}

fn put_u32(bytes: &mut Vec<u8>, value: u32) {
    bytes.extend_from_slice(&value.to_le_bytes());
}

fn put_u64(bytes: &mut Vec<u8>, value: u64) {
    bytes.extend_from_slice(&value.to_le_bytes());
}

fn put_bytes(bytes: &mut Vec<u8>, value: &[u8]) {
    put_u32(bytes, u32::try_from(value.len()).expect("test field fits"));
    bytes.extend_from_slice(value);
}

#[test]
fn data_block_point_lookup_uses_hash_index() {
    let block = DecodedDataBlock::new(
        vec![
            test_point_record(b"a", 10, b"a1"),
            test_point_record(b"target", 9, b"newer"),
            test_point_record(b"target", 7, b"older"),
            test_point_record(b"z", 1, b"z1"),
        ],
        vec![0],
    );
    assert_eq!(block.point_lookup_range(b"target".as_slice()), Some((1, 3)));

    let records = data_block_point_records_for_key(&block, b"target", IndexSearchPolicy::Binary);
    assert_eq!(records.len(), 2);
    assert_eq!(records[0].internal_key.sequence(), Sequence::new(9));
    assert_eq!(records[1].internal_key.sequence(), Sequence::new(7));

    let visible =
        data_block_newest_visible_point_record_for_key(&block, b"target", Sequence::new(8), IndexSearchPolicy::Binary)
            .expect("older target version is visible");
    assert_eq!(visible.internal_key.sequence(), Sequence::new(7));

    assert!(data_block_point_records_for_key(&block, b"missing", IndexSearchPolicy::Binary).is_empty());
}

#[test]
fn table_decode_rejects_index_entry_count_before_large_allocation() {
    let error = decode_index_block(&count_block(u32::MAX)).expect_err("impossible index count should fail");
    assert_invalid_table_message(&error, "index entry count exceeds block bytes");
}

#[test]
fn table_decode_rejects_data_record_count_before_large_allocation() {
    let error = decode_data_block(&count_block(u32::MAX)).expect_err("impossible data record count should fail");
    assert_invalid_table_message(&error, "data record count exceeds block bytes");
}

#[test]
fn table_decode_rejects_restart_count_before_large_allocation() {
    let mut bytes = Vec::new();
    put_u32(&mut bytes, 1);
    put_table_key(&mut bytes, &InternalKey::new(Vec::new(), Sequence::new(1), ValueKind::Put, 0))
        .expect("internal key encodes");
    put_value_ref(&mut bytes, &None).expect("value reference encodes");
    put_u32(&mut bytes, u32::MAX);

    let error = decode_data_block(&bytes).expect_err("impossible restart count should fail");
    assert_invalid_table_message(&error, "data block restart count exceeds block bytes");
}

#[test]
fn table_decode_rejects_range_tombstone_count_before_large_allocation() {
    let error =
        decode_range_tombstone_block(&count_block(u32::MAX)).expect_err("impossible tombstone count should fail");
    assert_invalid_table_message(&error, "range tombstone count exceeds block bytes");
}

#[test]
fn table_decode_rejects_malformed_bloom_filters() {
    let mut point_bytes = Vec::new();
    put_u8(&mut point_bytes, POINT_KEY_FILTER_PRESENT);
    put_u64(&mut point_bytes, 16);
    put_u8(&mut point_bytes, 1);
    put_bytes(&mut point_bytes, &[0]);
    let error = decode_filter_block(&point_bytes).expect_err("short point-key bitset should fail");
    assert!(error.describe().contains("byte length"));

    let mut prefix_bytes = Vec::new();
    put_u8(&mut prefix_bytes, POINT_KEY_FILTER_ABSENT);
    put_u8(&mut prefix_bytes, PREFIX_FILTER_PRESENT);
    put_u8(&mut prefix_bytes, PREFIX_EXTRACTOR_DISABLED);
    put_u64(&mut prefix_bytes, 16);
    put_u8(&mut prefix_bytes, 0);
    put_bytes(&mut prefix_bytes, &[0, 0]);
    let error = decode_filter_block(&prefix_bytes).expect_err("invalid prefix hash count should fail");
    assert!(error.describe().contains("hash count"));
}

fn numbered_records(count: usize) -> Vec<TablePointRecord> {
    (0..count)
        .map(|index| {
            let key = format!("key-{index:03}").into_bytes();
            let value = format!("value-{index:03}").into_bytes();
            TablePointRecord {
                internal_key: InternalKey::new(key, Sequence::new(index as u64 + 1), ValueKind::Put, 0),
                value: Some(ValueRef::Inline(value)),
            }
        })
        .collect()
}

#[test]
fn data_block_round_trips_with_restart_points() {
    let records = numbered_records(40);
    let bytes = encode_data_block(&records).expect("block encodes");
    let block = decode_data_block(&bytes).expect("block decodes");
    assert_eq!(block.records(), records.as_slice());
    assert_eq!(block.restart_indices(), &[0, 16, 32]);
    assert!(data_block_has_point_key(&block, b"key-017", IndexSearchPolicy::Auto));
    assert!(!data_block_has_point_key(&block, b"key-999", IndexSearchPolicy::Auto));
}

#[test]
fn empty_data_block_has_no_restarts() {
    let bytes = encode_data_block(&[]).expect("empty block encodes");
    assert_eq!(bytes, vec![0, 0, 0, 0, 0, 0, 0, 0]);
    let block = decode_data_block(&bytes).expect("empty block decodes");
    assert!(block.records().is_empty());
    assert!(block.restart_indices().is_empty());
}

#[test]
fn data_block_restart_problems_are_reported() {
    let records = numbered_records(2);
    let bytes = encode_data_block(&records).expect("block encodes");
    let restart_at = bytes.len() - 4;

    let mut not_first = bytes.clone();
    let second_record = u32::from_le_bytes(bytes[restart_at..].try_into().expect("four bytes"));
    assert_eq!(second_record, 4);
    let record_len = (restart_at - 4 - 4) / 2;
    not_first[restart_at..].copy_from_slice(&((4 + record_len) as u32).to_le_bytes());
    let error = decode_data_block(&not_first).expect_err("restart past first record");
    assert_invalid_table_message(&error, "data block first restart is not first record");

    let mut outside = bytes.clone();
    outside[restart_at..].copy_from_slice(&10_000u32.to_le_bytes());
    let error = decode_data_block(&outside).expect_err("restart outside records");
    assert_invalid_table_message(&error, "data block restart outside record area");

    let mut misaligned = bytes.clone();
    misaligned[restart_at..].copy_from_slice(&5u32.to_le_bytes());
    let error = decode_data_block(&misaligned).expect_err("restart inside a record");
    assert_invalid_table_message(&error, "data block restart is not a record start");

    let mut missing = bytes[..restart_at - 4].to_vec();
    put_u32(&mut missing, 0);
    let error = decode_data_block(&missing).expect_err("no restart points");
    assert_invalid_table_message(&error, "data block is missing restart points");

    let mut trailing = bytes.clone();
    trailing.push(0);
    let error = decode_data_block(&trailing).expect_err("trailing byte");
    assert_invalid_table_message(&error, "trailing data block bytes");
}

#[test]
fn value_references_round_trip_through_data_blocks() {
    let records = vec![
        TablePointRecord {
            internal_key: InternalKey::new(b"a".to_vec(), Sequence::new(3), ValueKind::Put, 1),
            value: Some(ValueRef::Blob { file_id: 7, offset: 64, len: 9, checksum: 42 }),
        },
        TablePointRecord {
            internal_key: InternalKey::new(b"b".to_vec(), Sequence::new(2), ValueKind::PointDelete, 0),
            value: None,
        },
        TablePointRecord {
            internal_key: InternalKey::new(b"c".to_vec(), Sequence::new(1), ValueKind::Put, 0),
            value: Some(ValueRef::BlobIndex(trine_kv::blob::BlobIndex {
                file_id: 8,
                offset: 128,
                encoded_len: 20,
                value_len: 30,
                value_checksum: 5,
                record_checksum: 6,
                compression: CodecId::FastLz4Block,
            })),
        },
    ];
    let bytes = encode_data_block(&records).expect("block encodes");
    let block = decode_data_block(&bytes).expect("block decodes");
    assert_eq!(block.records(), records.as_slice());
}

#[test]
fn range_tombstone_block_reads_back_sorted() {
    let later = TableRangeTombstone {
        range: KeyRange { start: Bound::Included(b"m".to_vec()), end: Bound::Excluded(b"p".to_vec()) },
        sequence: Sequence::new(4),
        batch_index: 0,
    };
    let earlier = TableRangeTombstone {
        range: KeyRange { start: Bound::Included(b"a".to_vec()), end: Bound::Unbounded },
        sequence: Sequence::new(9),
        batch_index: 2,
    };
    let bytes = encode_range_tombstone_block(&[later.clone(), earlier.clone()]).expect("block encodes");
    let decoded = decode_range_tombstone_block(&bytes).expect("block decodes");
    assert_eq!(decoded, vec![earlier, later]);
}

#[test]
fn filter_and_index_blocks_round_trip() {
    let keys: Vec<&[u8]> = vec![b"apple", b"banana"];
    let filter = PointKeyFilter::from_keys(&keys, 10);
    let bytes = encode_filter_block(&Some(filter.clone()), &None).expect("filter block encodes");
    let (point, prefix) = decode_filter_block(&bytes).expect("filter block decodes");
    let point = point.expect("point filter present");
    assert!(point.may_contain_key(b"apple"));
    assert!(point.may_contain_key(b"banana"));
    assert!(prefix.is_none());

    let entry = DataBlockIndexEntry {
        smallest_internal_key: InternalKey::new(b"apple".to_vec(), Sequence::new(5), ValueKind::Put, 0),
        largest_internal_key: InternalKey::new(b"banana".to_vec(), Sequence::new(1), ValueKind::Put, 0),
        block: BlockHandle { offset: 0, len: 77 },
        point_key_filter: Some(filter),
        prefix_filter: None,
    };
    let bytes = encode_index_block(&[entry.clone()]).expect("index encodes");
    let entries = decode_index_block(&bytes).expect("index decodes");
    assert_eq!(entries, vec![entry]);
}

#[test]
fn properties_block_round_trips_and_checks_order() {
    let properties = TableProperties {
        id: TableId(12),
        level: TableLevel(1),
        smallest_user_key: b"a".to_vec(),
        largest_user_key: b"z".to_vec(),
        smallest_sequence: Sequence::new(1),
        largest_sequence: Sequence::new(40),
        codec: CodecId::Uncompressed,
        blob_file_ids: vec![3, 9],
        blob_references: vec![TableBlobReference {
            file_id: 3,
            referenced_bytes: 100,
            referenced_record_count: 2,
            smallest_internal_key: InternalKey::new(b"a".to_vec(), Sequence::new(5), ValueKind::Put, 0),
            largest_internal_key: InternalKey::new(b"b".to_vec(), Sequence::new(2), ValueKind::Put, 0),
        }],
    };
    let bytes = encode_properties_block(&properties).expect("properties encode");
    assert_eq!(decode_properties_block(&bytes).expect("properties decode"), properties);

    let unsorted = TableProperties { blob_file_ids: vec![9, 3], ..properties.clone() };
    let bytes = encode_properties_block(&unsorted).expect("properties encode");
    let error = decode_properties_block(&bytes).expect_err("unsorted ids");
    assert_invalid_table_message(&error, "properties blob file ids are not sorted");

    let mut reference = properties.blob_references[0].clone();
    std::mem::swap(&mut reference.smallest_internal_key, &mut reference.largest_internal_key);
    let inverted = TableProperties { blob_references: vec![reference], ..properties };
    let bytes = encode_properties_block(&inverted).expect("properties encode");
    let error = decode_properties_block(&bytes).expect_err("inverted bounds");
    assert_invalid_table_message(&error, "properties blob reference key bounds are invalid");
}
