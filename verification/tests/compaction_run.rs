use trine_kv::flush_run::{flush_step, FlushAction as A, FlushEvent as E, FlushRunState as S};
use trine_kv::compaction_run::{plan_compaction_outputs, CompactionInputShape, OutputPlan};
use trine_kv::options::BlobLevelMergePolicy;
use trine_kv::table::TableId;
use trine_kv::open_plan::{plan_persistent_open, OpenPlan, PathState};
use trine_kv::options::{DbOptions, FailOnCorruptionPolicy};
use trine_kv::error::Error;
use trine_kv::stats::{table_stats, LevelStats};
use trine_kv::compaction_run::{compaction_step, CompactionAction, CompactionEvent, CompactionRunState, RunOutcome};

#[test]
fn a_compaction_run_with_no_inputs_has_no_work() {
    assert_eq!(
        compaction_step(CompactionRunState::Collecting, CompactionEvent::InputsCollected { count: 0 }),
        (CompactionRunState::Finished(RunOutcome::NoWork), CompactionAction::Finish(RunOutcome::NoWork))
    );
}

#[test]
fn a_refused_reservation_makes_the_run_busy() {
    let (state, action) = compaction_step(CompactionRunState::Collecting, CompactionEvent::InputsCollected { count: 2 });
    assert_eq!((state, action), (CompactionRunState::Reserving, CompactionAction::ReserveInputs));
    assert_eq!(
        compaction_step(state, CompactionEvent::Reserved { granted: false, kept: 0 }).1,
        CompactionAction::Finish(RunOutcome::Busy)
    );
    assert_eq!(
        compaction_step(state, CompactionEvent::Reserved { granted: true, kept: 0 }).1,
        CompactionAction::Finish(RunOutcome::Busy)
    );
}

#[test]
fn a_full_compaction_run_ends_ran_after_blob_gc() {
    let mut state = CompactionRunState::Collecting;
    let events = [
        (CompactionEvent::InputsCollected { count: 1 }, CompactionAction::ReserveInputs),
        (CompactionEvent::Reserved { granted: true, kept: 1 }, CompactionAction::WriteOutputs),
        (CompactionEvent::OutputsWritten { ok: true }, CompactionAction::SyncAndValidate),
        (CompactionEvent::Validated { ok: true, level_layout_error: false }, CompactionAction::PublishOutputs),
        (CompactionEvent::Published { ok: true }, CompactionAction::InstallAndRetireInputs),
        (CompactionEvent::Installed { ok: true, blob_gc_enabled: true }, CompactionAction::RunBlobGc),
        (CompactionEvent::BlobsCollected { ok: true }, CompactionAction::Finish(RunOutcome::Ran)),
    ];
    for (event, expected) in events {
        let (next, action) = compaction_step(state, event);
        assert_eq!(action, expected);
        state = next;
    }
    assert_eq!(state, CompactionRunState::Finished(RunOutcome::Ran));
}

#[test]
fn a_changed_level_layout_removes_the_outputs_without_error() {
    assert_eq!(
        compaction_step(CompactionRunState::Validating, CompactionEvent::Validated { ok: false, level_layout_error: true }),
        (
            CompactionRunState::Finished(RunOutcome::NoWork),
            CompactionAction::RemoveWrittenAndFinish(RunOutcome::NoWork)
        )
    );
    assert_eq!(
        compaction_step(CompactionRunState::Publishing, CompactionEvent::Published { ok: false }),
        (CompactionRunState::Failed, CompactionAction::RemoveWrittenAndFail)
    );
    assert_eq!(
        compaction_step(CompactionRunState::Publishing, CompactionEvent::InputsCollected { count: 3 }),
        (CompactionRunState::Publishing, CompactionAction::Ignore)
    );
}

#[test]
fn table_stats_group_tables_by_level_in_ascending_order() {
    let summary = table_stats(&[(2, 100), (0, 10), (2, 50), (0, 5), (5, u64::MAX), (5, 1)]);
    assert_eq!(summary.total_tables, 6);
    assert_eq!(summary.l0_tables, 2);
    assert_eq!(summary.table_bytes, u64::MAX);
    assert_eq!(
        summary.level_tables,
        vec![
            LevelStats { level: 0, tables: 2, bytes: 15 },
            LevelStats { level: 2, tables: 2, bytes: 150 },
            LevelStats { level: 5, tables: 2, bytes: u64::MAX },
        ]
    );
    let empty = table_stats(&[]);
    assert_eq!((empty.total_tables, empty.l0_tables, empty.table_bytes), (0, 0, 0));
    assert!(empty.level_tables.is_empty());
}

#[test]
fn opening_a_missing_directory_creates_it_only_for_writers() {
    let options = DbOptions::persistent("/data/db".to_string());
    assert_eq!(
        plan_persistent_open(&options, PathState::Missing),
        Ok(OpenPlan {
            create_directory: true,
            take_process_lock: true,
            temporary_file_policy: FailOnCorruptionPolicy::FailClosed,
            create_missing_manifest: true,
            open_log_for_append: true,
            clean_obsolete_blob_files: true,
        })
    );
    let read_only = DbOptions::persistent_read_only("/data/db".to_string());
    assert_eq!(
        plan_persistent_open(&read_only, PathState::Missing),
        Err(Error::InvalidOptions { message: "database path does not exist".to_string() })
    );
    assert_eq!(
        plan_persistent_open(&read_only, PathState::Directory),
        Ok(OpenPlan {
            create_directory: false,
            take_process_lock: false,
            temporary_file_policy: FailOnCorruptionPolicy::FailClosed,
            create_missing_manifest: false,
            open_log_for_append: false,
            clean_obsolete_blob_files: false,
        })
    );
}

#[test]
fn opening_needs_a_persistent_path_that_is_a_directory() {
    assert_eq!(
        plan_persistent_open(&DbOptions::memory(), PathState::Directory),
        Err(Error::InvalidOptions { message: "persistent open requires a path".to_string() })
    );
    assert_eq!(
        plan_persistent_open(&DbOptions::persistent("/f".to_string()), PathState::NotDirectory),
        Err(Error::InvalidOptions { message: "database path is not a directory".to_string() })
    );
    let mut options = DbOptions::persistent("/data/db".to_string());
    options.write_buffer_bytes = 0;
    assert_eq!(
        plan_persistent_open(&options, PathState::Directory),
        Err(Error::InvalidOptions { message: "write buffer must be non-zero".to_string() })
    );
    options.write_buffer_bytes = 1024;
    options.fail_on_corruption = FailOnCorruptionPolicy::RepairSafeTemporaryFiles;
    assert_eq!(
        plan_persistent_open(&options, PathState::Directory).unwrap().temporary_file_policy,
        FailOnCorruptionPolicy::RepairSafeTemporaryFiles
    );
}

fn shape(trivial_move: bool, policy: BlobLevelMergePolicy, payload_count: usize) -> CompactionInputShape {
    CompactionInputShape { trivial_move, policy, payload_count }
}

#[test]
fn compaction_outputs_take_consecutive_fresh_ids() {
    let inputs = [
        shape(true, BlobLevelMergePolicy::Disabled, 1),
        shape(false, BlobLevelMergePolicy::Disabled, 2),
        shape(true, BlobLevelMergePolicy::Always, 1),
    ];
    let (plans, next) = plan_compaction_outputs(&inputs, TableId(10)).unwrap();
    assert_eq!(
        plans,
        vec![
            OutputPlan::Move,
            OutputPlan::Rewrite { first: TableId(10), count: 2 },
            OutputPlan::Rewrite { first: TableId(12), count: 1 },
        ]
    );
    assert_eq!(next, TableId(13));
    assert_eq!(
        plan_compaction_outputs(&inputs, TableId(u64::MAX - 2)),
        Err(Error::Corruption { message: "table id counter overflow".to_string() })
    );
    assert_eq!(plan_compaction_outputs(&inputs, TableId(u64::MAX - 3)).unwrap().1, TableId(u64::MAX));
}

#[test]
fn flush_sequence_is_the_largest_freeze_sequence() {
    assert_eq!(trine_kv::flush_run::flush_sequence(&[]), None);
    assert_eq!(trine_kv::flush_run::flush_sequence(&[4, 9, 7]), Some(9));
    assert_eq!(trine_kv::flush_run::flush_sequence(&[3]), Some(3));
}

#[test]
fn a_flush_writes_each_input_then_publishes_its_sequence() {
    assert_eq!(flush_step(S::Collecting, E::InputsCollected { count: 0, flush_sequence: 0 }), (S::Finished(false), A::Finish(false)));
    let mut state = S::Collecting;
    let steps = [
        (E::InputsCollected { count: 2, flush_sequence: 12 }, A::WriteTable),
        (E::TableWritten { ok: true }, A::WriteTable),
        (E::TableWritten { ok: true }, A::SyncDirectory),
        (E::DirectorySynced { ok: true }, A::PublishTables { wal_replay_floor: 12 }),
        (E::Published { ok: true }, A::InstallAndRewriteLog { wal_replay_floor: 12 }),
        (E::Installed { ok: true }, A::CheckLevelZeroPressure),
        (E::PressureChecked { exceeded: true }, A::Finish(true)),
    ];
    for (event, expected) in steps {
        let (next, action) = flush_step(state, event);
        assert_eq!(action, expected);
        state = next;
    }
    assert_eq!(state, S::Finished(true));
    assert_eq!(
        flush_step(S::Writing { remaining: 2, sequence: 5 }, E::TableWritten { ok: false }),
        (S::Failed, A::RemoveWrittenAndFail)
    );
    assert_eq!(flush_step(S::Syncing { sequence: 5 }, E::DirectorySynced { ok: false }), (S::Failed, A::RemoveWrittenAndFail));
}
