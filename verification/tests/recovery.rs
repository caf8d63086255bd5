use trine_kv::options::FailOnCorruptionPolicy;
use trine_kv::recovery::{check_repair_allowed, decode_report, encode_report, RecoveryReport};

#[test]
fn recovery_report_round_trips_repaired_files() {
    let report = RecoveryReport::new(vec![
        "MANIFEST.tmp".to_owned(),
        "table-00000000000000000001.tmp".to_owned(),
    ]);

    assert_eq!(decode_report(&encode_report(&report)).expect("report decodes"), report);
}

#[test]
fn report_text_has_header_list_and_entries() {
    let report = RecoveryReport::new(vec!["a.tmp".to_owned()]);
    assert_eq!(
        encode_report(&report),
        "trine-kv recovery report v1\nrepaired_temporary_files:\n- a.tmp\n"
    );
    let empty = RecoveryReport::new(Vec::new());
    assert!(empty.is_empty());
    assert_eq!(decode_report(&encode_report(&empty)).expect("empty decodes"), empty);
}

#[test]
fn malformed_reports_are_refused() {
    let error = decode_report("").expect_err("empty fails");
    assert!(error.describe().contains("unknown recovery report header"));
    let error = decode_report("trine-kv recovery report v1\n").expect_err("no list fails");
    assert!(error.describe().contains("missing recovery report file list"));
    let error = decode_report("trine-kv recovery report v1\nrepaired_temporary_files:\nx\n")
        .expect_err("bad entry fails");
    assert!(error.describe().contains("invalid recovery report file entry"));
    let report = decode_report("trine-kv recovery report v1\r\nrepaired_temporary_files:\r\n- b\r\n")
        .expect("carriage returns before newlines are dropped");
    assert_eq!(report.repaired_temporary_files(), &["b".to_owned()]);
}

#[test]
fn fail_closed_policy_refuses_temporary_files() {
    let names = vec!["MANIFEST.tmp".to_owned(), "blob-1.tmp".to_owned()];
    let error = check_repair_allowed(FailOnCorruptionPolicy::FailClosed, &names).expect_err("fails closed");
    assert!(error.describe().contains("safe temporary files require explicit repair: MANIFEST.tmp, blob-1.tmp"));
    assert!(check_repair_allowed(FailOnCorruptionPolicy::RepairSafeTemporaryFiles, &names).is_ok());
    assert!(check_repair_allowed(FailOnCorruptionPolicy::FailClosed, &[]).is_ok());
}

#[test]
fn recovery_report_bytes_must_be_utf8() {
    let report = RecoveryReport::new(vec!["table-1.tmp".to_string()]);
    assert_eq!(
        trine_kv::recovery::decode_report_bytes(encode_report(&report).into_bytes()).expect("decodes"),
        report
    );
    match trine_kv::recovery::decode_report_bytes(vec![0xff, 0xfe]) {
        Err(trine_kv::error::Error::InvalidFormat { message }) => assert_eq!(message, "recovery report is not UTF-8"),
        other => panic!("unexpected {other:?}"),
    }
}
