use trine_kv::error::Error;
use trine_kv::maintenance::{
    compaction_reservations_conflict, record_maintenance_success, CompactionReservation,
    MaintenanceRequest, MaintenanceState, MaintenanceStep,
};
use trine_kv::types::KeyRange;

fn reservation(bucket: &str, range: KeyRange) -> CompactionReservation {
    CompactionReservation { bucket: bucket.to_owned(), range }
}

#[test]
fn maintenance_success_does_not_clear_unreported_error() {
    let mut state = MaintenanceState::new();
    state.record_error(&Error::Corruption { message: "publish failed".to_string() });

    record_maintenance_success(&state);

    let error = state.take_error().expect("unreported background error remains visible");
    assert!(error.contains("publish failed"));
    assert!(state.take_error().is_none());
}

#[test]
fn compaction_reservation_conflicts_are_bucket_and_range_scoped() {
    let base = reservation("default", KeyRange::half_open(b"a", b"c"));

    assert!(compaction_reservations_conflict(
        &base,
        &reservation("default", KeyRange::half_open(b"b", b"d"))
    ));
    assert!(!compaction_reservations_conflict(
        &base,
        &reservation("default", KeyRange::half_open(b"c", b"e"))
    ));
    assert!(!compaction_reservations_conflict(
        &base,
        &reservation("other", KeyRange::half_open(b"b", b"d"))
    ));
}

#[test]
fn maintenance_coordinator_allows_non_overlapping_compactions() {
    let mut state = MaintenanceState::new();
    let first = state
        .reserve_compactions(vec![reservation("default", KeyRange::half_open(b"a", b"c"))])
        .expect("first compaction reserves");
    let second = state
        .reserve_compactions(vec![
            reservation("default", KeyRange::half_open(b"b", b"d")),
            reservation("default", KeyRange::half_open(b"c", b"e")),
            reservation("other", KeyRange::half_open(b"b", b"d")),
        ])
        .expect("non-overlapping compactions reserve");

    assert!(!second.contains("default", &KeyRange::half_open(b"b", b"d")));
    assert!(second.contains("default", &KeyRange::half_open(b"c", b"e")));
    assert!(second.contains("other", &KeyRange::half_open(b"b", b"d")));

    state.finish_compactions(&first.reservations);
    state.finish_compactions(&second.reservations);
    let third = state
        .reserve_compactions(vec![reservation("default", KeyRange::half_open(b"b", b"d"))])
        .expect("released range can reserve again");
    assert!(third.contains("default", &KeyRange::half_open(b"b", b"d")));
}

#[test]
fn requests_are_taken_once_and_shutdown_stops_workers() {
    let mut state = MaintenanceState::new();
    assert_eq!(state.next_step(), MaintenanceStep::Wait);
    state.request(MaintenanceRequest { flush: true, compaction: false });
    state.request(MaintenanceRequest { flush: false, compaction: true });
    assert_eq!(
        state.next_step(),
        MaintenanceStep::Run(MaintenanceRequest { flush: true, compaction: true })
    );
    assert_eq!(state.next_step(), MaintenanceStep::Wait);
    state.shutdown();
    assert_eq!(state.next_step(), MaintenanceStep::Stop);
    assert!(state.reserve_compactions(vec![reservation("a", KeyRange::all())]).is_none());
}

#[test]
fn only_one_flush_runs_at_a_time() {
    let mut state = MaintenanceState::new();
    assert!(state.try_start_flush());
    assert!(!state.try_start_flush());
    let before = state.progress();
    state.finish_flush();
    assert_eq!(state.progress(), before + 1);
    assert!(state.is_idle());
    assert!(state.try_start_flush());
}
