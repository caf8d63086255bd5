use trine_kv::blob::ValueRef;
use trine_kv::codec::CodecId;
use trine_kv::internal_key::{InternalKey, ValueKind};
use trine_kv::options::{FilterPolicy, PrefixFilterPolicy};
use trine_kv::prefix::PrefixExtractor;
use trine_kv::table::{TableId, TableLevel, TableSection};
use trine_kv::table_block::TablePointRecord;
use trine_kv::table_build::{build_data_blocks, build_table_contents, prepare_table_records, TableWriteOptions};
use trine_kv::table_file::{read_footer, validate_block_codec, TABLE_HEADER_LEN};
use trine_kv::table_payload::{
    check_table_header, decode_table_metadata, encode_table, table_file_bytes, DataBlockLayout, TableContents,
};
use trine_kv::types::Sequence;

fn records(count: usize) -> Vec<TablePointRecord> {
    (0..count)
        .map(|index| TablePointRecord {
            internal_key: InternalKey::new(
                format!("key-{index:03}").into_bytes(),
                Sequence::new(index as u64 + 1),
                ValueKind::Put,
                0,
            ),
            value: Some(ValueRef::Inline(format!("value-{index:03}").into_bytes())),
        })
        .collect()
}

fn options(codec: CodecId, block_bytes: usize, filters: bool) -> TableWriteOptions {
    TableWriteOptions {
        codec,
        block_bytes,
        filter_policy: if filters { FilterPolicy::Bloom { bits_per_key: 10 } } else { FilterPolicy::Disabled },
        prefix_extractor: PrefixExtractor::Disabled,
        prefix_filter_policy: PrefixFilterPolicy::Disabled,
        blob_threshold_bytes: 1 << 20,
        rewrite_blob_indexes: false,
    }
}

fn contents(count: usize, codec: CodecId, filters: bool) -> TableContents {
    build_table_contents(TableId(7), TableLevel(0), &options(codec, 1024, filters), records(count), Vec::new())
        .expect("table contents build")
}

#[test]
fn configured_block_bytes_controls_data_block_count() {
    let small_blocks = build_data_blocks(&records(160), &options(CodecId::Uncompressed, 256, false)).unwrap();
    let large_blocks = build_data_blocks(&records(160), &options(CodecId::Uncompressed, 4096, false)).unwrap();
    assert!(
        small_blocks.len() > large_blocks.len(),
        "smaller configured blocks should split records into more data blocks"
    );
    assert_eq!(small_blocks.first().unwrap().start, 0);
    assert_eq!(small_blocks.last().unwrap().end, 160);
    for pair in small_blocks.windows(2) {
        assert_eq!(pair[0].end, pair[1].start);
    }
}

fn round_trip(codec: CodecId) {
    let table = contents(160, codec, true);
    let block_count = table.blocks.len();
    assert!(block_count > 1, "test table should span multiple data blocks");
    let properties = table.properties.clone();
    let payload = encode_table(table).expect("table encodes");
    let bytes = table_file_bytes(&payload).expect("table file builds");
    let payload_len = check_table_header(&bytes[..TABLE_HEADER_LEN], bytes.len() as u64).expect("header reads");
    assert_eq!(payload_len, payload.len());
    let metadata = decode_table_metadata(&bytes[TABLE_HEADER_LEN..]).expect("metadata reads");
    assert_eq!(metadata.footer, read_footer(&payload).expect("footer reads"));
    assert_eq!(metadata.properties, properties);
    assert_eq!(metadata.index_entries.len(), block_count);
    assert_eq!(metadata.index_entries[0].smallest_internal_key.user_key(), b"key-000");
    assert_eq!(metadata.index_entries[block_count - 1].largest_internal_key.user_key(), b"key-159");
    let filter = metadata.point_key_filter.expect("table filter exists");
    assert!(filter.may_contain_key(b"key-003"));
    assert!(metadata.index_entries[0].point_key_filter.as_ref().expect("block filter exists").may_contain_key(b"key-000"));
    assert!(metadata.prefix_filter.is_none());
}

#[test]
fn uncompressed_table_metadata_round_trips() {
    round_trip(CodecId::Uncompressed);
}

#[test]
fn fast_lz4_table_metadata_round_trips() {
    round_trip(CodecId::FastLz4Block);
}

#[test]
fn table_header_checks_magic_version_and_length() {
    let payload = encode_table(contents(4, CodecId::Uncompressed, false)).expect("table encodes");
    let bytes = table_file_bytes(&payload).expect("table file builds");
    let mut bad_magic = bytes.clone();
    bad_magic[0] ^= 1;
    let error = check_table_header(&bad_magic[..TABLE_HEADER_LEN], bytes.len() as u64).unwrap_err();
    assert_eq!(error.describe(), "corruption: table magic mismatch");
    let mut bad_version = bytes.clone();
    bad_version[4] = 9;
    let error = check_table_header(&bad_version[..TABLE_HEADER_LEN], bytes.len() as u64).unwrap_err();
    assert_eq!(error.describe(), "unsupported format: unsupported table version 9");
    let error = check_table_header(&bytes[..TABLE_HEADER_LEN], bytes.len() as u64 + 1).unwrap_err();
    assert_eq!(error.describe(), "corruption: table length mismatch");
}

#[test]
fn unknown_index_codec_fails_closed() {
    let table = contents(4, CodecId::Uncompressed, false);
    let mut payload = encode_table(table).expect("table encodes");
    let footer = read_footer(&payload).expect("footer reads");
    payload[footer.indexes.offset as usize] = u8::MAX;
    let error = decode_table_metadata(&payload).expect_err("unknown block codec fails");
    assert!(error.describe().starts_with("unsupported format"));
}

#[test]
fn block_layouts_must_lie_within_the_records() {
    let mut table = contents(4, CodecId::Uncompressed, false);
    table.blocks = vec![DataBlockLayout { start: 2, end: 9, point_key_filter: None, prefix_filter: None }];
    let error = encode_table(table).unwrap_err();
    assert_eq!(error.describe(), "invalid format: invalid table: data block record range outside table");
    let mut table = contents(4, CodecId::Uncompressed, false);
    table.blocks = vec![DataBlockLayout { start: 2, end: 2, point_key_filter: None, prefix_filter: None }];
    let error = encode_table(table).unwrap_err();
    assert_eq!(error.describe(), "invalid format: invalid table: empty data block");
}

#[test]
fn empty_tables_are_refused_and_records_are_sorted() {
    let error = prepare_table_records(Vec::new(), 0).unwrap_err();
    assert_eq!(error.describe(), "invalid options: cannot write an empty table");
    assert!(prepare_table_records(Vec::new(), 1).unwrap().is_empty());
    let unsorted = vec![
        (InternalKey::new(b"b".to_vec(), Sequence::new(1), ValueKind::Put, 0), None),
        (InternalKey::new(b"a".to_vec(), Sequence::new(1), ValueKind::Put, 0), None),
        (InternalKey::new(b"a".to_vec(), Sequence::new(3), ValueKind::Put, 0), None),
    ];
    let sorted = prepare_table_records(unsorted, 0).unwrap();
    let keys = sorted.iter().map(|(k, _)| (k.user_key().to_vec(), k.sequence().get())).collect::<Vec<_>>();
    assert_eq!(keys, vec![(b"a".to_vec(), 3), (b"a".to_vec(), 1), (b"b".to_vec(), 1)]);
}

#[test]
fn block_codec_mismatch_names_the_section_and_both_codecs() {
    assert_eq!(
        validate_block_codec(CodecId::Uncompressed, CodecId::Uncompressed, TableSection::Indexes),
        Ok(())
    );
    assert_eq!(
        validate_block_codec(CodecId::FastLz4Block, CodecId::Uncompressed, TableSection::Filters),
        Err(trine_kv::error::Error::Corruption {
            message: "table Filters block codec fast-lz4-block does not match table codec none".to_owned()
        })
    );
}
