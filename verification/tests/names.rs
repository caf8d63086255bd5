use trine_kv::bucket::{check_bucket_request, BucketDecision};
use trine_kv::bucket::BucketName;
use trine_kv::keyspace::KeyspaceName;
use trine_kv::options::{DbOptions, StorageMode};
use trine_kv::codec::{decode_block, CodecId};
use trine_kv::error::Error;
use trine_kv::blob::{blob_file_name, blob_path, ValueRef};
use trine_kv::table::{table_file_name, table_path, TableId};
use trine_kv::internal_key::{InternalKey, ValueKind};
use trine_kv::iterator::ScanRangeTombstone;
use trine_kv::range_tombstone::RangeTombstoneIndex;
use trine_kv::recovery::check_repair_allowed;
use trine_kv::options::FailOnCorruptionPolicy;
use trine_kv::scan::{
    memtable_scan_bounds, record_group_from_records, sort_group_records, visible_record,
    visible_record_index, ForwardKeyState, ReverseKeyState, ScanSelector,
};
use trine_kv::storage_names::{
    blob_file_id, check_unreferenced_storage_files, file_extension, file_stem, has_tmp_extension,
    is_safe_temporary_file, parse_decimal_u64, safe_temporary_files, table_file_id,
    unreferenced_storage_files, StorageName,
};
use trine_kv::types::{Bound, KeyRange, Sequence};

#[test]
fn extensions_and_stems_follow_path_rules() {
    assert_eq!(file_extension("blob-1.trineb"), Some("trineb"));
    assert_eq!(file_extension("archive.tar.gz"), Some("gz"));
    assert_eq!(file_extension(".hidden"), None);
    assert_eq!(file_extension("noext"), None);
    assert_eq!(file_extension("trailing."), Some(""));
    assert_eq!(file_stem("archive.tar.gz"), "archive.tar");
    assert_eq!(file_stem(".hidden"), ".hidden");
    assert_eq!(file_stem("noext"), "noext");
}

#[test]
fn safe_temporary_files_are_atomic_write_leftovers() {
    assert!(is_safe_temporary_file("MANIFEST.tmp"));
    assert!(is_safe_temporary_file("RECOVERY_REPORT.tmp"));
    assert!(is_safe_temporary_file("table-00000000000000000001.tmp"));
    assert!(is_safe_temporary_file("blob-7.TMP"));
    assert!(!is_safe_temporary_file("MANIFEST"));
    assert!(!is_safe_temporary_file("manifest.tmp"));
    assert!(!is_safe_temporary_file("table-1.trinet"));
    assert!(!is_safe_temporary_file("other.tmp"));
    assert!(has_tmp_extension("x.Tmp"));
    assert!(!has_tmp_extension(".tmp"));
}

#[test]
fn safe_temporary_files_are_listed_sorted() {
    let names = vec![
        "table-2.tmp".to_string(),
        "LOCK".to_string(),
        "MANIFEST.tmp".to_string(),
        "blob-1.tmp".to_string(),
        "table-1.trinet".to_string(),
    ];
    assert_eq!(
        safe_temporary_files(names),
        vec!["MANIFEST.tmp".to_string(), "blob-1.tmp".to_string(), "table-2.tmp".to_string()]
    );
}

#[test]
fn decimal_ids_parse_as_u64_from_str() {
    assert_eq!(parse_decimal_u64("42"), Some(42));
    assert_eq!(parse_decimal_u64("+42"), Some(42));
    assert_eq!(parse_decimal_u64("00000000000000000042"), Some(42));
    assert_eq!(parse_decimal_u64("18446744073709551615"), Some(u64::MAX));
    assert_eq!(parse_decimal_u64("18446744073709551616"), None);
    assert_eq!(parse_decimal_u64(""), None);
    assert_eq!(parse_decimal_u64("+"), None);
    assert_eq!(parse_decimal_u64("-1"), None);
    assert_eq!(parse_decimal_u64("4x"), None);
    for text in ["0", "7", "123456789", "+9", "099"] {
        assert_eq!(parse_decimal_u64(text), text.parse::<u64>().ok());
    }
}

#[test]
fn storage_file_names_give_ids() {
    assert_eq!(blob_file_id("blob-00000000000000000042.trineb"), StorageName::Id(42));
    assert_eq!(blob_file_id("blob-5.TRINEB"), StorageName::Id(5));
    assert_eq!(blob_file_id("blob-abc.trineb"), StorageName::Malformed);
    assert_eq!(blob_file_id("blob-5.tmp"), StorageName::Unrelated);
    assert_eq!(blob_file_id("other-5.trineb"), StorageName::Unrelated);
    assert_eq!(table_file_id("table-00000000000000000009.trinet"), StorageName::Id(9));
    assert_eq!(table_file_id("table-.trinet"), StorageName::Malformed);
    assert_eq!(table_file_id("blob-9.trinet"), StorageName::Unrelated);
}

#[test]
fn unreferenced_storage_files_need_review() {
    let files = unreferenced_storage_files(&[1, 2, 3], &[2], &[7, 8], &[7]);
    assert_eq!(
        files,
        vec![
            "blob-00000000000000000008.trineb".to_string(),
            "table-00000000000000000001.trinet".to_string(),
            "table-00000000000000000003.trinet".to_string(),
        ]
    );
    let mut sorted = files.clone();
    sorted.sort();
    assert_eq!(files, sorted);
    let error = check_unreferenced_storage_files(&files).unwrap_err();
    assert_eq!(
        error.describe(),
        "corruption: unreferenced table/blob files require operator review: blob-00000000000000000008.trineb, table-00000000000000000001.trinet, table-00000000000000000003.trinet"
    );
    assert!(check_unreferenced_storage_files(&[]).is_ok());
}

#[test]
fn fail_closed_repair_names_the_temporary_files() {
    let names = vec!["MANIFEST.tmp".to_string(), "blob-1.tmp".to_string()];
    let error = check_repair_allowed(FailOnCorruptionPolicy::FailClosed, &names).unwrap_err();
    assert_eq!(
        error.describe(),
        "corruption: safe temporary files require explicit repair: MANIFEST.tmp, blob-1.tmp"
    );
    assert!(check_repair_allowed(FailOnCorruptionPolicy::RepairSafeTemporaryFiles, &names).is_ok());
}

#[test]
fn selectors_place_keys_for_both_directions() {
    let range = ScanSelector::Range(KeyRange::half_open(b"b", b"d"));
    assert_eq!(range.forward_key_state(b"a"), ForwardKeyState::Before);
    assert_eq!(range.forward_key_state(b"c"), ForwardKeyState::Match);
    assert_eq!(range.forward_key_state(b"d"), ForwardKeyState::After);
    assert_eq!(range.reverse_key_state(b"d"), ReverseKeyState::Above);
    assert_eq!(range.reverse_key_state(b"b"), ReverseKeyState::Match);
    assert_eq!(range.reverse_key_state(b"a"), ReverseKeyState::Below);
    let prefix = ScanSelector::Prefix(b"ab".to_vec());
    assert_eq!(prefix.forward_key_state(b"aa"), ForwardKeyState::Before);
    assert_eq!(prefix.forward_key_state(b"abz"), ForwardKeyState::Match);
    assert_eq!(prefix.forward_key_state(b"ac"), ForwardKeyState::After);
    assert_eq!(prefix.reverse_key_state(b"ac"), ReverseKeyState::Above);
    assert_eq!(prefix.reverse_key_state(b"aa"), ReverseKeyState::Below);
    assert_eq!(prefix.prefix(), Some(&b"ab"[..]));
    assert_eq!(range.prefix(), None);
}

#[test]
fn scan_bounds_cover_every_record_of_the_selected_keys() {
    let (start, end) = memtable_scan_bounds(&ScanSelector::Prefix(b"a\xff".to_vec()));
    match start {
        Bound::Included(key) => {
            assert_eq!(key.user_key(), b"a\xff");
            assert_eq!(key.sequence().get(), u64::MAX);
        },
        _ => panic!("prefix scans start at the prefix"),
    }
    match end {
        Bound::Excluded(key) => assert_eq!(key.user_key(), b"b"),
        _ => panic!("the prefix has a successor"),
    }
    let (_, end) = memtable_scan_bounds(&ScanSelector::Prefix(vec![0xff]));
    assert!(matches!(end, Bound::Unbounded));
    let (start, end) = memtable_scan_bounds(&ScanSelector::Range(KeyRange::half_open(b"b", b"d")));
    match (start, end) {
        (Bound::Included(s), Bound::Excluded(e)) => {
            assert_eq!(s.user_key(), b"b");
            assert_eq!(e.user_key(), b"d");
            assert_eq!(e.sequence().get(), u64::MAX);
        },
        _ => panic!("half-open ranges keep their bound kinds"),
    }
}

fn record(sequence: u64, kind: ValueKind) -> (InternalKey, Option<ValueRef>) {
    let value = match kind {
        ValueKind::Put => Some(ValueRef::Inline(format!("v{sequence}").into_bytes())),
        _ => None,
    };
    (InternalKey::new(b"k".to_vec(), Sequence::new(sequence), kind, 0), value)
}

#[test]
fn group_records_come_in_internal_key_order() {
    let (first, rest) = sort_group_records(record(1, ValueKind::Put), vec![record(3, ValueKind::Put), record(2, ValueKind::Put)]);
    assert_eq!(first.0.sequence().get(), 3);
    assert_eq!(rest.iter().map(|r| r.0.sequence().get()).collect::<Vec<_>>(), vec![2, 1]);
    let group = record_group_from_records(b"k".to_vec(), vec![record(4, ValueKind::Put), record(9, ValueKind::PointDelete)]);
    assert_eq!(group.user_key, b"k".to_vec());
    assert_eq!(group.first.0.sequence().get(), 9);
    assert_eq!(group.rest.len(), 1);
}

#[test]
fn reads_see_the_newest_visible_put() {
    let none: RangeTombstoneIndex<ScanRangeTombstone> = RangeTombstoneIndex::new(Vec::new());
    let records = vec![record(9, ValueKind::Put), record(5, ValueKind::PointDelete), record(3, ValueKind::Put)];
    assert_eq!(visible_record_index(&records, &none, Sequence::new(10)), Some(0));
    assert_eq!(visible_record_index(&records, &none, Sequence::new(6)), None);
    assert_eq!(visible_record_index(&records, &none, Sequence::new(4)), Some(2));
    assert_eq!(visible_record_index(&records, &none, Sequence::new(2)), None);

    let hiding = RangeTombstoneIndex::new(vec![ScanRangeTombstone::new(KeyRange::all(), Sequence::new(4), 0)]);
    assert_eq!(visible_record_index(&records, &hiding, Sequence::new(4)), None);
    assert_eq!(visible_record_index(&records, &hiding, Sequence::new(10)), Some(0));

    let seen = visible_record(record(3, ValueKind::Put), vec![record(7, ValueKind::Put)], &none, Sequence::new(8)).unwrap();
    assert_eq!(seen.0.sequence().get(), 7);
    assert!(visible_record(record(3, ValueKind::PointDelete), Vec::new(), &none, Sequence::new(8)).is_none());
}

#[test]
fn written_file_names_parse_back_to_their_ids() {
    for id in [0_u64, 7, 42, 1_000_000, u64::MAX] {
        assert_eq!(blob_file_id(&blob_file_name(id)), StorageName::Id(id));
        assert_eq!(table_file_id(&table_file_name(TableId(id))), StorageName::Id(id));
        let table_tmp = std::path::Path::new(&table_file_name(TableId(id))).with_extension("tmp");
        assert!(is_safe_temporary_file(table_tmp.to_str().unwrap()));
        let blob_tmp = std::path::Path::new(&blob_file_name(id)).with_extension("tmp");
        assert!(is_safe_temporary_file(blob_tmp.to_str().unwrap()));
    }
}

#[test]
fn blob_and_table_paths_join_the_file_names() {
    let dir = std::path::Path::new("/data/db");
    assert_eq!(
        blob_path(dir, 42),
        std::path::PathBuf::from("/data/db/blob-00000000000000000042.trineb")
    );
    assert_eq!(
        table_path(dir, TableId(7)),
        std::path::PathBuf::from("/data/db/table-00000000000000000007.trinet")
    );
}

#[test]
fn bucket_and_keyspace_names_convert_from_text_verbatim() {
    assert_eq!(BucketName::from("users").as_str(), "users");
    assert_eq!(BucketName::from(String::from("Users ")).as_str(), "Users ");
    assert_eq!(KeyspaceName::from("events").as_str(), "events");
    assert_eq!(KeyspaceName::from(String::from("")).as_str(), "");
}

#[test]
fn read_only_persistent_options_keep_every_other_default() {
    let options = DbOptions::persistent_read_only("/data/db".to_string());
    let expected = DbOptions {
        storage_mode: StorageMode::Persistent { path: "/data/db".to_string() },
        read_only: true,
        create_if_missing: false,
        ..DbOptions::default()
    };
    assert_eq!(options, expected);
}

#[test]
fn oversized_lz4_blocks_are_refused_instead_of_decoded() {
    let stored = vec![0xFFu8; 17_000_000];
    match decode_block(CodecId::FastLz4Block, &stored, 16) {
        Err(Error::InvalidFormat { message }) => assert_eq!(message, "lz4 block too large to decode"),
        other => panic!("unexpected result: {:?}", other.map(|v| v.len())),
    }
}

#[test]
fn bucket_requests_check_name_options_and_existing_bucket() {
    use_bucket_requests();
}

fn use_bucket_requests() {
    let defaults = trine_kv::options::BucketOptions::default();
    let other = trine_kv::options::BucketOptions { block_bytes: 8192, ..trine_kv::options::BucketOptions::default() };
    let message = |r: Result<trine_kv::bucket::BucketDecision, Error>| match r {
        Err(Error::InvalidOptions { message }) => message,
        other => panic!("unexpected {other:?}"),
    };
    assert_eq!(message(check_bucket_request("", &defaults, None, false)), "bucket name cannot be empty");
    assert_eq!(message(check_bucket_request("default", &defaults, None, false)), "default bucket is accessed through Db helpers");
    assert_eq!(
        message(check_bucket_request("users", &defaults, Some(&other), false)),
        "existing bucket options do not match requested options"
    );
    assert_eq!(check_bucket_request("users", &defaults, Some(&defaults), true), Ok(BucketDecision::UseExisting));
    assert_eq!(check_bucket_request("users", &defaults, None, true), Err(Error::ReadOnly));
    assert_eq!(check_bucket_request("users", &defaults, None, false), Ok(BucketDecision::Create));
    let invalid = trine_kv::options::BucketOptions { block_bytes: 0, ..trine_kv::options::BucketOptions::default() };
    assert!(matches!(check_bucket_request("users", &invalid, None, false), Err(Error::InvalidOptions { .. })));
}
