use trine_kv::blob::{
    decode_blob_file, decode_blob_file_with_id, encode_blob_file, encode_blob_file_with_id, indexed_value, read_u64_at, BlobFileHeader, BlobRecord,
    BLOB_FOOTER_LEN, BLOB_HEADER_LEN, MIN_BLOB_RECORD_FRAME_BYTES,
};
use trine_kv::codec::CodecId;
use trine_kv::internal_key::{InternalKey, ValueKind};
use trine_kv::types::Sequence;
use trine_kv::wire::checksum;

fn blob_record(key: &str, sequence: u64, batch_index: u32, value: Vec<u8>, compression: CodecId) -> BlobRecord {
    BlobRecord {
        internal_key: InternalKey::new(
            key.as_bytes().to_vec(),
            Sequence::new(sequence),
            ValueKind::Put,
            batch_index,
        ),
        value,
        compression,
    }
}

fn internal_key_len(key: &str) -> usize {
    4 + key.len() + 8 + 1 + 4
}

fn rewrite_record_checksum(bytes: &mut [u8]) {
    let checksum_offset = BLOB_HEADER_LEN + 8;
    let body_start = BLOB_HEADER_LEN + MIN_BLOB_RECORD_FRAME_BYTES;
    let body_len = usize::try_from(read_u64_at(bytes, BLOB_HEADER_LEN).expect("record length reads"))
        .expect("record length fits usize");
    let sum = checksum(&bytes[body_start..body_start + body_len]);
    bytes[checksum_offset..checksum_offset + 4].copy_from_slice(&sum.to_le_bytes());
}

#[test]
fn blob_file_round_trips_ordered_records() {
    let header = BlobFileHeader::new(7, Sequence::new(42), 64 * 1024, CodecId::Uncompressed);
    let records = vec![
        blob_record("user:1", 3, 0, b"Ada".to_vec(), CodecId::Uncompressed),
        blob_record("user:2", 2, 1, b"Lin Lin Lin Lin".to_vec(), CodecId::FastLz4Block),
    ];

    let (bytes, indexes) = encode_blob_file(header, &records).expect("blob encodes");
    let decoded = decode_blob_file(&bytes).expect("blob decodes");

    assert_eq!(decoded.header, header);
    assert_eq!(indexes.len(), 2);
    assert_eq!(decoded.records.len(), 2);
    assert_eq!(decoded.records[0].index, indexes[0]);
    assert_eq!(decoded.records[0].record, records[0]);
    assert_eq!(decoded.records[1].index, indexes[1]);
    assert_eq!(decoded.records[1].record, records[1]);
    assert_eq!(decoded.properties.record_count, 2);
    assert_eq!(
        decoded.properties.value_bytes,
        (b"Ada".len() + b"Lin Lin Lin Lin".len()) as u64
    );
}

#[test]
fn blob_file_rejects_corrupt_footer() {
    let (mut bytes, _) = encode_blob_file(
        BlobFileHeader::new(9, Sequence::new(1), 8, CodecId::Uncompressed),
        &[blob_record("key", 1, 0, b"value".to_vec(), CodecId::Uncompressed)],
    )
    .expect("blob encodes");

    let last = bytes.len() - 1;
    bytes[last] ^= 0xff;

    let error = decode_blob_file(&bytes).expect_err("corrupt footer fails");
    assert!(error.describe().contains("footer magic mismatch"));
}

#[test]
fn blob_file_rejects_header_checksum_mismatch() {
    let (mut bytes, _) = encode_blob_file(
        BlobFileHeader::new(9, Sequence::new(1), 8, CodecId::Uncompressed),
        &[blob_record("key", 1, 0, b"value".to_vec(), CodecId::Uncompressed)],
    )
    .expect("blob encodes");

    bytes[4] ^= 0xff;

    let error = decode_blob_file(&bytes).expect_err("corrupt header fails");
    assert!(error.describe().contains("blob header checksum mismatch"));
}

#[test]
fn blob_file_rejects_properties_checksum_mismatch() {
    let (mut bytes, _) = encode_blob_file(
        BlobFileHeader::new(9, Sequence::new(1), 8, CodecId::Uncompressed),
        &[blob_record("key", 1, 0, b"value".to_vec(), CodecId::Uncompressed)],
    )
    .expect("blob encodes");
    let footer_start = bytes.len() - BLOB_FOOTER_LEN;
    let properties_offset =
        usize::try_from(read_u64_at(&bytes[footer_start..], 0).expect("footer offset reads"))
            .expect("footer offset fits usize");

    bytes[properties_offset] ^= 0xff;

    let error = decode_blob_file(&bytes).expect_err("corrupt properties fail");
    assert!(error.describe().contains("blob properties checksum mismatch"));
}

#[test]
fn blob_file_rejects_record_checksum_mismatch() {
    let (mut bytes, _) = encode_blob_file(
        BlobFileHeader::new(10, Sequence::new(1), 8, CodecId::Uncompressed),
        &[blob_record("key", 1, 0, b"value".to_vec(), CodecId::Uncompressed)],
    )
    .expect("blob encodes");

    bytes[BLOB_HEADER_LEN + MIN_BLOB_RECORD_FRAME_BYTES] ^= 0xff;

    let error = decode_blob_file(&bytes).expect_err("corrupt record fails");
    assert!(error.describe().contains("blob record checksum mismatch"));
}

#[test]
fn blob_file_rejects_value_checksum_mismatch() {
    let (mut bytes, _) = encode_blob_file(
        BlobFileHeader::new(10, Sequence::new(1), 8, CodecId::Uncompressed),
        &[blob_record("key", 1, 0, b"value".to_vec(), CodecId::Uncompressed)],
    )
    .expect("blob encodes");

    let body_start = BLOB_HEADER_LEN + MIN_BLOB_RECORD_FRAME_BYTES;
    let value_checksum_offset = body_start + internal_key_len("key") + 8 + 8 + 1;
    bytes[value_checksum_offset] ^= 0xff;
    rewrite_record_checksum(&mut bytes);

    let error = decode_blob_file(&bytes).expect_err("corrupt value checksum fails");
    assert!(error.describe().contains("blob value checksum mismatch"));
}

#[test]
fn blob_file_rejects_unknown_record_compression() {
    let (mut bytes, _) = encode_blob_file(
        BlobFileHeader::new(10, Sequence::new(1), 8, CodecId::Uncompressed),
        &[blob_record("key", 1, 0, b"value".to_vec(), CodecId::Uncompressed)],
    )
    .expect("blob encodes");

    let body_start = BLOB_HEADER_LEN + MIN_BLOB_RECORD_FRAME_BYTES;
    let compression_offset = body_start + internal_key_len("key") + 8 + 8;
    bytes[compression_offset] = 9;
    rewrite_record_checksum(&mut bytes);

    let error = decode_blob_file(&bytes).expect_err("unknown codec fails");
    assert!(error.describe().contains("unknown blob codec 9"));
}

#[test]
fn blob_file_rejects_unordered_records() {
    let header = BlobFileHeader::new(11, Sequence::new(1), 8, CodecId::Uncompressed);
    let records = vec![
        blob_record("z", 1, 0, b"value".to_vec(), CodecId::Uncompressed),
        blob_record("a", 1, 0, b"value".to_vec(), CodecId::Uncompressed),
    ];

    let error = encode_blob_file(header, &records).expect_err("unordered records fail");
    assert!(error.describe().contains("sorted by internal key"));
}

#[test]
fn indexed_read_validates_exact_blob_index() {
    let header = BlobFileHeader::new(12, Sequence::new(1), 8, CodecId::Uncompressed);
    let record = blob_record("key", 1, 0, b"value".to_vec(), CodecId::Uncompressed);
    let (bytes, indexes) = encode_blob_file(header, &[record]).expect("blob encodes");

    let value = indexed_value(&bytes, &indexes[0], None).expect("indexed read works");
    assert_eq!(value, b"value");

    let mut bad_index = indexes[0];
    bad_index.value_len += 1;
    let error = indexed_value(&bytes, &bad_index, None).expect_err("bad index fails");
    assert!(error.describe().contains("metadata mismatch"));
}

#[test]
fn empty_blob_file_is_refused() {
    let header = BlobFileHeader::new(1, Sequence::new(1), 8, CodecId::Uncompressed);
    let error = encode_blob_file(header, &[]).expect_err("empty file fails");
    assert!(error.describe().contains("cannot write an empty blob file"));
}

#[test]
fn blob_records_must_be_puts() {
    let header = BlobFileHeader::new(1, Sequence::new(1), 8, CodecId::Uncompressed);
    let mut record = blob_record("key", 1, 0, b"value".to_vec(), CodecId::Uncompressed);
    record.internal_key = InternalKey::new(b"key".to_vec(), Sequence::new(1), ValueKind::PointDelete, 0);
    let error = encode_blob_file(header, &[record]).expect_err("delete fails");
    assert!(error.describe().contains("only store put values"));
}

#[test]
fn short_blob_file_is_refused() {
    let error = decode_blob_file(&[0u8; 10]).expect_err("short file fails");
    assert!(error.describe().contains("invalid blob file: file is too short"));
}

#[test]
fn compressed_value_round_trips_and_is_indexed() {
    let header = BlobFileHeader::new(3, Sequence::new(5), 8, CodecId::FastLz4Block);
    let value = vec![7u8; 4096];
    let record = blob_record("big", 5, 0, value.clone(), CodecId::FastLz4Block);
    let (bytes, indexes) = encode_blob_file(header, &[record]).expect("blob encodes");
    assert_eq!(indexes[0].offset, BLOB_HEADER_LEN as u64);
    assert_eq!(indexes[0].value_len, 4096);
    assert!(indexes[0].encoded_len < 4096);
    let read = indexed_value(&bytes, &indexes[0], None).expect("value reads");
    assert_eq!(read, value);
}

#[test]
fn blob_file_ids_must_match_the_path() {
    let header = BlobFileHeader::new(7, Sequence::new(42), 64, CodecId::Uncompressed);
    let records = vec![blob_record("k", 1, 0, b"value".to_vec(), CodecId::Uncompressed)];
    let error = encode_blob_file_with_id(8, header, &records).unwrap_err();
    assert_eq!(error.describe(), "invalid options: blob header file id must match the output file id");
    let (bytes, _) = encode_blob_file_with_id(7, header, &records).expect("blob encodes");
    assert_eq!(decode_blob_file_with_id(&bytes, 7).expect("blob decodes").header, header);
    let error = decode_blob_file_with_id(&bytes, 9).unwrap_err();
    assert_eq!(error.describe(), "corruption: blob file id mismatch: path has 9, header has 7");
}
