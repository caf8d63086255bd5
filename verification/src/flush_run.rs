//! The steps of writing flushed memtables out as tables, as a state
//! machine, and the sequence a flush makes durable.

use vstd::prelude::*;

verus! {

/// The largest of a non-empty list of sequences.
pub open spec fn max_of(s: Seq<u64>) -> u64
    decreases s.len(),
{
    if s.len() <= 1 {
        s[0]
    } else {
        let m = max_of(s.drop_last());
        if s.last() > m {
            s.last()
        } else {
            m
        }
    }
}

/// The sequence up to which a flush makes writes durable: the largest
/// freeze sequence of its inputs, or `None` when there are no inputs.
pub fn flush_sequence(freeze_sequences: &[u64]) -> (r: Option<u64>)
    ensures
        r is None <==> freeze_sequences@.len() == 0,
        r matches Some(m) ==> m == max_of(freeze_sequences@),
        r matches Some(m) ==> freeze_sequences@.contains(m) && forall|k: int|
            0 <= k < freeze_sequences@.len() ==> #[trigger] freeze_sequences@[k] <= m,
{
    if freeze_sequences.len() == 0 {
        return None;
    }
    let mut best = freeze_sequences[0];
    let mut i: usize = 1;
    proof {
        assert(freeze_sequences@.take(1).len() == 1);
    }
    while i < freeze_sequences.len()
        invariant
            1 <= i <= freeze_sequences@.len(),
            best == max_of(freeze_sequences@.take(i as int)),
            freeze_sequences@.take(i as int).contains(best),
            forall|k: int| 0 <= k < i ==> #[trigger] freeze_sequences@[k] <= best,
        decreases freeze_sequences@.len() - i,
    {
        proof {
            assert(freeze_sequences@.take(i + 1).drop_last() =~= freeze_sequences@.take(i as int));
            assert(freeze_sequences@.take(i + 1).last() == freeze_sequences@[i as int]);
        }
        let ghost before = best;
        if freeze_sequences[i] > best {
            best = freeze_sequences[i];
        }
        proof {
            if best == before {
                let k = choose|k: int| 0 <= k < i && freeze_sequences@.take(i as int)[k] == before;
                assert(freeze_sequences@.take(i + 1)[k] == best);
            } else {
                assert(freeze_sequences@.take(i + 1)[i as int] == best);
            }
        }
        i = i + 1;
    }
    proof {
        assert(freeze_sequences@.take(i as int) =~= freeze_sequences@);
    }
    Some(best)
}

/// Where a flush stands.
#[derive(Debug, Clone, Copy, PartialEq, Eq, Structural)]
pub enum FlushRunState {
    /// Waiting for the inputs.
    Collecting,
    /// Writing tables; `remaining` of them are still to be written.
    Writing { remaining: usize, sequence: u64 },
    /// Waiting for the directory to be synced.
    Syncing { sequence: u64 },
    /// Waiting for the manifest to take the tables.
    Publishing { sequence: u64 },
    /// Waiting for the tables to be installed and the log rewritten.
    Installing,
    /// Waiting for the check of level-0 pressure.
    CheckingPressure,
    /// The flush ended; whether level 0 is under pressure.
    Finished(bool),
    /// The flush failed.
    Failed,
}

/// What the storage layer reports.
#[derive(Debug, Clone, Copy, PartialEq, Eq, Structural)]
pub enum FlushEvent {
    InputsCollected { count: usize, flush_sequence: u64 },
    TableWritten { ok: bool },
    DirectorySynced { ok: bool },
    Published { ok: bool },
    Installed { ok: bool },
    PressureChecked { exceeded: bool },
}

/// What the storage layer must do next.
#[derive(Debug, Clone, Copy, PartialEq, Eq, Structural)]
pub enum FlushAction {
    WriteTable,
    SyncDirectory,
    /// Record the tables in the manifest with this log replay floor.
    PublishTables { wal_replay_floor: u64 },
    /// Install the tables and drop the log up to this floor.
    InstallAndRewriteLog { wal_replay_floor: u64 },
    CheckLevelZeroPressure,
    /// Remove the tables written so far, then report the failure.
    RemoveWrittenAndFail,
    Fail,
    /// End the flush, saying whether level 0 is under pressure.
    Finish(bool),
    /// The event does not belong to this state: nothing to do.
    Ignore,
}

/// The next state and action of a flush: with no inputs there is nothing
/// to do; each input is written as a table; a failed write, sync or
/// publication removes the tables written so far; the manifest's log
/// replay floor and the log rewrite take the flush sequence; the flush
/// ends by reporting whether level 0 is under pressure.
pub open spec fn flush_transition(s: FlushRunState, e: FlushEvent) -> (FlushRunState, FlushAction) {
    match (s, e) {
        (FlushRunState::Collecting, FlushEvent::InputsCollected { count, flush_sequence }) => if count == 0 {
            (FlushRunState::Finished(false), FlushAction::Finish(false))
        } else {
            (FlushRunState::Writing { remaining: count, sequence: flush_sequence }, FlushAction::WriteTable)
        },
        (FlushRunState::Writing { remaining, sequence }, FlushEvent::TableWritten { ok }) => if !ok {
            (FlushRunState::Failed, FlushAction::RemoveWrittenAndFail)
        } else if remaining <= 1 {
            (FlushRunState::Syncing { sequence }, FlushAction::SyncDirectory)
        } else {
            (FlushRunState::Writing { remaining: (remaining - 1) as usize, sequence }, FlushAction::WriteTable)
        },
        (FlushRunState::Syncing { sequence }, FlushEvent::DirectorySynced { ok }) => if ok {
            (FlushRunState::Publishing { sequence }, FlushAction::PublishTables { wal_replay_floor: sequence })
        } else {
            (FlushRunState::Failed, FlushAction::RemoveWrittenAndFail)
        },
        (FlushRunState::Publishing { sequence }, FlushEvent::Published { ok }) => if ok {
            (FlushRunState::Installing, FlushAction::InstallAndRewriteLog { wal_replay_floor: sequence })
        } else {
            (FlushRunState::Failed, FlushAction::RemoveWrittenAndFail)
        },
        (FlushRunState::Installing, FlushEvent::Installed { ok }) => if ok {
            (FlushRunState::CheckingPressure, FlushAction::CheckLevelZeroPressure)
        } else {
            (FlushRunState::Failed, FlushAction::Fail)
        },
        (FlushRunState::CheckingPressure, FlushEvent::PressureChecked { exceeded }) => (
            FlushRunState::Finished(exceeded),
            FlushAction::Finish(exceeded),
        ),
        _ => (s, FlushAction::Ignore),
    }
}

/// One step of a flush.
pub fn flush_step(s: FlushRunState, e: FlushEvent) -> (r: (FlushRunState, FlushAction))
    ensures
        r == flush_transition(s, e),
{
    match (s, e) {
        (FlushRunState::Collecting, FlushEvent::InputsCollected { count, flush_sequence }) => if count == 0 {
            (FlushRunState::Finished(false), FlushAction::Finish(false))
        } else {
            (FlushRunState::Writing { remaining: count, sequence: flush_sequence }, FlushAction::WriteTable)
        },
        (FlushRunState::Writing { remaining, sequence }, FlushEvent::TableWritten { ok }) => if !ok {
            (FlushRunState::Failed, FlushAction::RemoveWrittenAndFail)
        } else if remaining <= 1 {
            (FlushRunState::Syncing { sequence }, FlushAction::SyncDirectory)
        } else {
            (FlushRunState::Writing { remaining: remaining - 1, sequence }, FlushAction::WriteTable)
        },
        (FlushRunState::Syncing { sequence }, FlushEvent::DirectorySynced { ok }) => if ok {
            (FlushRunState::Publishing { sequence }, FlushAction::PublishTables { wal_replay_floor: sequence })
        } else {
            (FlushRunState::Failed, FlushAction::RemoveWrittenAndFail)
        },
        (FlushRunState::Publishing { sequence }, FlushEvent::Published { ok }) => if ok {
            (FlushRunState::Installing, FlushAction::InstallAndRewriteLog { wal_replay_floor: sequence })
        } else {
            (FlushRunState::Failed, FlushAction::RemoveWrittenAndFail)
        },
        (FlushRunState::Installing, FlushEvent::Installed { ok }) => if ok {
            (FlushRunState::CheckingPressure, FlushAction::CheckLevelZeroPressure)
        } else {
            (FlushRunState::Failed, FlushAction::Fail)
        },
        (FlushRunState::CheckingPressure, FlushEvent::PressureChecked { exceeded }) => (
            FlushRunState::Finished(exceeded),
            FlushAction::Finish(exceeded),
        ),
        _ => (s, FlushAction::Ignore),
    }
}

/// The floor that a flush publishes and rewrites the log to is the flush
/// sequence it started with.
pub proof fn lemma_flush_floor_is_flush_sequence(sequence: u64, e: FlushEvent)
    ensures
        ({
            let (_, action) = flush_transition(FlushRunState::Syncing { sequence }, e);
            action matches FlushAction::PublishTables { wal_replay_floor } ==> wal_replay_floor == sequence
        }),
        ({
            let (_, action) = flush_transition(FlushRunState::Publishing { sequence }, e);
            action matches FlushAction::InstallAndRewriteLog { wal_replay_floor } ==> wal_replay_floor == sequence
        }),
{
}

} // verus!
