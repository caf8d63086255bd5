use std::path::PathBuf;

use trine_kv::codec::CodecId;
use trine_kv::error::Error;
use trine_kv::manifest::{manifest_path, ManifestState, ManifestStore, MANIFEST_FILE_NAME};
use trine_kv::manifest_format::{decode_manifest, encode_manifest, MANIFEST_HEADER_LEN};
use trine_kv::options::{BucketOptions, CompressionProfile};
use trine_kv::prefix::PrefixExtractor;
use trine_kv::table::{TableId, TableLevel, TableProperties};
use trine_kv::types::Sequence;
use trine_kv::wire::checksum;

fn table(id: u64, smallest: &[u8], largest: &[u8]) -> TableProperties {
    TableProperties {
        id: TableId(id),
        level: TableLevel(0),
        smallest_user_key: smallest.to_vec(),
        largest_user_key: largest.to_vec(),
        smallest_sequence: Sequence::new(1),
        largest_sequence: Sequence::new(id),
        codec: CodecId::FastLz4Block,
        blob_file_ids: Vec::new(),
        blob_references: Vec::new(),
    }
}

fn store() -> ManifestStore {
    ManifestStore::new(PathBuf::from("db/MANIFEST"), ManifestState::empty())
}

fn corruption_message(error: Error) -> String {
    match error {
        Error::Corruption { message } => message,
        other => panic!("expected corruption, got {other:?}"),
    }
}

#[test]
fn empty_manifest_starts_table_ids_at_one() {
    let state = ManifestState::empty();
    assert_eq!(state.wal_replay_floor(), Sequence::new(0));
    assert!(state.keyspaces().is_empty());
    assert!(state.tables().is_empty());
    assert_eq!(state.next_table_id().expect("id"), TableId(1));
}

#[test]
fn create_keyspace_is_idempotent_and_refuses_other_options() {
    let mut store = store();
    assert!(store.create_keyspace("users".to_owned(), BucketOptions::default()).expect("create"));
    assert!(!store.create_keyspace("users".to_owned(), BucketOptions::default()).expect("same options"));
    let other = BucketOptions { compression: CompressionProfile::Uncompressed, ..BucketOptions::default() };
    match store.create_keyspace("users".to_owned(), other) {
        Err(Error::InvalidOptions { message }) => {
            assert_eq!(message, "existing keyspace options do not match requested options");
        }
        other => panic!("unexpected {other:?}"),
    }
    assert_eq!(store.state().keyspaces().len(), 1);
    assert_eq!(store.state().tables().len(), 1);
    assert!(store.state().tables()[0].1.is_empty());
}

#[test]
fn keyspaces_are_kept_in_byte_order() {
    let mut store = store();
    for name in ["orders", "accounts", "events"] {
        store.create_keyspace(name.to_owned(), BucketOptions::default()).expect("create");
    }
    let names: Vec<&str> = store.state().keyspaces().iter().map(|(name, _)| name.as_str()).collect();
    assert_eq!(names, vec!["accounts", "events", "orders"]);
}

#[test]
fn add_tables_requires_known_keyspaces() {
    let mut store = store();
    store.create_keyspace("a".to_owned(), BucketOptions::default()).expect("create");
    let error = store
        .add_tables(vec![("a".to_owned(), table(1, b"a", b"b")), ("zz".to_owned(), table(2, b"c", b"d"))], Sequence::new(9))
        .expect_err("missing keyspace");
    assert_eq!(corruption_message(error), "table references missing keyspace: zz");
    assert!(store.state().tables()[0].1.is_empty());
    assert_eq!(store.state().wal_replay_floor(), Sequence::new(0));
}

#[test]
fn add_tables_appends_and_moves_the_floor() {
    let mut store = store();
    store.create_keyspace("a".to_owned(), BucketOptions::default()).expect("create");
    store
        .add_tables(vec![("a".to_owned(), table(3, b"a", b"b")), ("a".to_owned(), table(7, b"c", b"d"))], Sequence::new(42))
        .expect("add");
    let ids: Vec<u64> = store.state().tables()[0].1.iter().map(|t| t.id.0).collect();
    assert_eq!(ids, vec![3, 7]);
    assert_eq!(store.state().wal_replay_floor(), Sequence::new(42));
    assert_eq!(store.next_table_id().expect("id"), TableId(8));
}

#[test]
fn next_table_id_refuses_overflow() {
    let mut store = store();
    store.create_keyspace("a".to_owned(), BucketOptions::default()).expect("create");
    store.add_tables(vec![("a".to_owned(), table(u64::MAX, b"a", b"b"))], Sequence::new(1)).expect("add");
    assert_eq!(corruption_message(store.next_table_id().expect_err("overflow")), "table id counter overflow");
}

#[test]
fn replace_tables_swaps_inputs_for_output() {
    let mut store = store();
    store.create_keyspace("a".to_owned(), BucketOptions::default()).expect("create");
    store
        .add_tables(
            vec![("a".to_owned(), table(1, b"a", b"c")), ("a".to_owned(), table(2, b"b", b"d")), ("a".to_owned(), table(3, b"x", b"z"))],
            Sequence::new(5),
        )
        .expect("add");
    store.replace_tables("a", &[TableId(1), TableId(2)], table(4, b"a", b"d")).expect("replace");
    let ids: Vec<u64> = store.state().tables()[0].1.iter().map(|t| t.id.0).collect();
    assert_eq!(ids, vec![3, 4]);
}

#[test]
fn replace_tables_batch_checks_everything_first() {
    let mut store = store();
    store.create_keyspace("a".to_owned(), BucketOptions::default()).expect("create");
    store.create_keyspace("b".to_owned(), BucketOptions::default()).expect("create");
    store
        .add_tables(vec![("a".to_owned(), table(1, b"a", b"c")), ("b".to_owned(), table(2, b"a", b"c"))], Sequence::new(5))
        .expect("add");
    let error = store
        .replace_tables_batch(vec![
            ("a".to_owned(), vec![TableId(1)], None),
            ("b".to_owned(), vec![TableId(99)], Some(table(3, b"a", b"c"))),
        ])
        .expect_err("missing input");
    assert_eq!(corruption_message(error), "compaction input table is missing: 99");
    assert_eq!(store.state().tables()[0].1.len(), 1);

    let error = store.replace_tables_batch(vec![("nope".to_owned(), vec![], None)]).expect_err("missing keyspace");
    assert_eq!(corruption_message(error), "compaction references missing keyspace: nope");

    store
        .replace_tables_batch(vec![("a".to_owned(), vec![TableId(1)], None), ("b".to_owned(), vec![TableId(2)], Some(table(3, b"a", b"c")))])
        .expect("batch");
    assert!(store.state().tables()[0].1.is_empty());
    assert_eq!(store.state().tables()[1].1[0].id, TableId(3));
}

#[test]
fn update_wal_replay_floor_sets_the_floor() {
    let mut store = store();
    store.update_wal_replay_floor(Sequence::new(77));
    assert_eq!(store.state().wal_replay_floor(), Sequence::new(77));
}

#[test]
fn manifest_bytes_read_back() {
    let mut store = store();
    let custom = BucketOptions::default().with_prefix_extractor(PrefixExtractor::Custom("tenant".to_owned()));
    store.create_keyspace("users".to_owned(), custom).expect("create");
    store
        .create_keyspace("events".to_owned(), BucketOptions::default().with_prefix_extractor(PrefixExtractor::FixedLen(4)))
        .expect("create");
    store
        .add_tables(vec![("users".to_owned(), table(1, b"a", b"m")), ("events".to_owned(), table(2, b"", b"zz"))], Sequence::new(12))
        .expect("add");
    let bytes = encode_manifest(store.state()).expect("encode");
    assert_eq!(&bytes[0..4], &0x5452_4d46u32.to_le_bytes());
    assert_eq!(&bytes[4..6], &2u16.to_le_bytes());
    let decoded = decode_manifest(&bytes).expect("decode");
    assert_eq!(&decoded, store.state());
}

#[test]
fn empty_manifest_file_layout() {
    let bytes = encode_manifest(&ManifestState::empty()).expect("encode");
    let payload = &bytes[MANIFEST_HEADER_LEN..];
    assert_eq!(payload.len(), 16);
    assert_eq!(&bytes[6..10], &16u32.to_le_bytes());
    assert_eq!(&bytes[10..14], &checksum(payload).to_le_bytes());
}

#[test]
fn decode_manifest_reports_each_header_problem() {
    let bytes = encode_manifest(&ManifestState::empty()).expect("encode");
    match decode_manifest(&bytes[..10]) {
        Err(Error::InvalidFormat { message }) => assert_eq!(message, "invalid manifest: short header"),
        other => panic!("unexpected {other:?}"),
    }
    let mut bad_magic = bytes.clone();
    bad_magic[0] ^= 1;
    assert_eq!(corruption_message(decode_manifest(&bad_magic).expect_err("magic")), "manifest magic mismatch");
    let mut bad_version = bytes.clone();
    bad_version[4] = 7;
    match decode_manifest(&bad_version) {
        Err(Error::UnsupportedFormat { message }) => assert_eq!(message, "unsupported manifest version 7"),
        other => panic!("unexpected {other:?}"),
    }
    let mut long = bytes.clone();
    long.push(0);
    assert_eq!(corruption_message(decode_manifest(&long).expect_err("length")), "manifest length mismatch");
    let mut bad_sum = bytes.clone();
    bad_sum[MANIFEST_HEADER_LEN] ^= 0xff;
    assert_eq!(corruption_message(decode_manifest(&bad_sum).expect_err("checksum")), "manifest checksum mismatch");
}

#[test]
fn decode_manifest_rejects_trailing_payload() {
    let mut payload = Vec::new();
    payload.extend_from_slice(&0u64.to_le_bytes());
    payload.extend_from_slice(&0u32.to_le_bytes());
    payload.extend_from_slice(&0u32.to_le_bytes());
    payload.push(9);
    let mut bytes = Vec::new();
    bytes.extend_from_slice(&0x5452_4d46u32.to_le_bytes());
    bytes.extend_from_slice(&2u16.to_le_bytes());
    bytes.extend_from_slice(&(payload.len() as u32).to_le_bytes());
    bytes.extend_from_slice(&checksum(&payload).to_le_bytes());
    bytes.extend_from_slice(&payload);
    match decode_manifest(&bytes) {
        Err(Error::InvalidFormat { message }) => assert_eq!(message, "invalid manifest: trailing payload bytes"),
        other => panic!("unexpected {other:?}"),
    }
}

#[test]
fn open_or_create_decodes_or_starts_empty() {
    let (created, publish) = ManifestStore::open_or_create(PathBuf::from("m"), None, true).expect("create");
    assert!(publish);
    assert!(created.state().keyspaces().is_empty());
    let (_, publish) = ManifestStore::open_or_create(PathBuf::from("m"), None, false).expect("open");
    assert!(!publish);
    let mut store = store();
    store.create_keyspace("k".to_owned(), BucketOptions::default()).expect("create");
    let bytes = encode_manifest(store.state()).expect("encode");
    let (opened, publish) = ManifestStore::open_or_create(PathBuf::from("m"), Some(&bytes), false).expect("open");
    assert!(!publish);
    assert_eq!(opened.state(), store.state());
}

#[test]
fn manifest_path_joins_the_file_name() {
    assert_eq!(manifest_path(std::path::Path::new("/data/db")), PathBuf::from("/data/db").join(MANIFEST_FILE_NAME));
}

#[test]
fn default_manifest_state_is_empty() {
    let state = ManifestState::default();
    assert_eq!(state, ManifestState::empty());
    assert_eq!(state.wal_replay_floor(), Sequence::new(0));
    assert!(state.keyspaces().is_empty());
    assert!(state.tables().is_empty());
}

#[test]
fn referenced_ids_list_tables_and_blob_files_once_in_order() {
    let mut store = store();
    store.create_keyspace("a".to_owned(), BucketOptions::default()).expect("a");
    store.create_keyspace("b".to_owned(), BucketOptions::default()).expect("b");
    let mut t5 = table(5, b"a", b"b");
    t5.blob_file_ids = vec![30, 10];
    let mut t2 = table(2, b"c", b"d");
    t2.blob_file_ids = vec![10, 20];
    store
        .add_tables(vec![("a".to_owned(), t5), ("b".to_owned(), t2), ("b".to_owned(), table(9, b"e", b"f"))], Sequence::new(3))
        .expect("add");
    let (tables, blobs) = trine_kv::references::referenced_ids(store.state());
    assert_eq!(tables, vec![TableId(2), TableId(5), TableId(9)]);
    assert_eq!(blobs, vec![10, 20, 30]);
    let (no_tables, no_blobs) = trine_kv::references::referenced_ids(&ManifestState::empty());
    assert!(no_tables.is_empty() && no_blobs.is_empty());
}
