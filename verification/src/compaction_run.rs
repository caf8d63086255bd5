//! The steps of one compaction run, as a state machine: each event that the
//! storage layer reports leads to the next state and the action it must
//! take, until the run ends with no work, busy, done or failed.

use vstd::prelude::*;
use crate::error::{Error, ErrorKind, Result};
use crate::options::BlobLevelMergePolicy;
use crate::table::TableId;

verus! {

/// How a maintenance run ended.
#[derive(Debug, Clone, Copy, PartialEq, Eq, Structural)]
pub enum RunOutcome {
    NoWork,
    Busy,
    Ran,
}

/// Where a compaction run stands.
#[derive(Debug, Clone, Copy, PartialEq, Eq, Structural)]
pub enum CompactionRunState {
    /// Waiting for the inputs of the run.
    Collecting,
    /// Waiting for the reservation of the inputs' ranges.
    Reserving,
    /// Waiting for the output tables to be written.
    Building,
    /// Waiting for the outputs to be synced and checked against the levels.
    Validating,
    /// Waiting for the manifest to take the outputs.
    Publishing,
    /// Waiting for the outputs to be installed and the inputs retired.
    Installing,
    /// Waiting for the blob garbage collection that follows.
    CollectingBlobs,
    /// The run ended.
    Finished(RunOutcome),
    /// The run failed.
    Failed,
}

/// What the storage layer reports.
#[derive(Debug, Clone, Copy, PartialEq, Eq, Structural)]
pub enum CompactionEvent {
    InputsCollected { count: usize },
    Reserved { granted: bool, kept: usize },
    OutputsWritten { ok: bool },
    Validated { ok: bool, level_layout_error: bool },
    Published { ok: bool },
    Installed { ok: bool, blob_gc_enabled: bool },
    BlobsCollected { ok: bool },
}

/// What the storage layer must do next.
#[derive(Debug, Clone, Copy, PartialEq, Eq, Structural)]
pub enum CompactionAction {
    ReserveInputs,
    WriteOutputs,
    SyncAndValidate,
    PublishOutputs,
    InstallAndRetireInputs,
    RunBlobGc,
    /// Remove the output files written, then end the run as given.
    RemoveWrittenAndFinish(RunOutcome),
    /// Remove the output files written, then report the failure.
    RemoveWrittenAndFail,
    Finish(RunOutcome),
    Fail,
    /// The event does not belong to this state: nothing to do.
    Ignore,
}

/// The next state and action of a compaction run: no inputs means no work;
/// a refused reservation, or one that keeps no input, means busy; a failed
/// write, check, or publication removes the written outputs (a check that
/// finds the levels changed ends the run with no work); after the outputs
/// are installed the run ends, running blob garbage collection first where
/// it is enabled.
pub open spec fn compaction_transition(s: CompactionRunState, e: CompactionEvent) -> (CompactionRunState, CompactionAction) {
    match (s, e) {
        (CompactionRunState::Collecting, CompactionEvent::InputsCollected { count }) => if count == 0 {
            (CompactionRunState::Finished(RunOutcome::NoWork), CompactionAction::Finish(RunOutcome::NoWork))
        } else {
            (CompactionRunState::Reserving, CompactionAction::ReserveInputs)
        },
        (CompactionRunState::Reserving, CompactionEvent::Reserved { granted, kept }) => if !granted || kept == 0 {
            (CompactionRunState::Finished(RunOutcome::Busy), CompactionAction::Finish(RunOutcome::Busy))
        } else {
            (CompactionRunState::Building, CompactionAction::WriteOutputs)
        },
        (CompactionRunState::Building, CompactionEvent::OutputsWritten { ok }) => if ok {
            (CompactionRunState::Validating, CompactionAction::SyncAndValidate)
        } else {
            (CompactionRunState::Failed, CompactionAction::RemoveWrittenAndFail)
        },
        (CompactionRunState::Validating, CompactionEvent::Validated { ok, level_layout_error }) => if ok {
            (CompactionRunState::Publishing, CompactionAction::PublishOutputs)
        } else if level_layout_error {
            (
                CompactionRunState::Finished(RunOutcome::NoWork),
                CompactionAction::RemoveWrittenAndFinish(RunOutcome::NoWork),
            )
        } else {
            (CompactionRunState::Failed, CompactionAction::RemoveWrittenAndFail)
        },
        (CompactionRunState::Publishing, CompactionEvent::Published { ok }) => if ok {
            (CompactionRunState::Installing, CompactionAction::InstallAndRetireInputs)
        } else {
            (CompactionRunState::Failed, CompactionAction::RemoveWrittenAndFail)
        },
        (CompactionRunState::Installing, CompactionEvent::Installed { ok, blob_gc_enabled }) => if !ok {
            (CompactionRunState::Failed, CompactionAction::Fail)
        } else if blob_gc_enabled {
            (CompactionRunState::CollectingBlobs, CompactionAction::RunBlobGc)
        } else {
            (CompactionRunState::Finished(RunOutcome::Ran), CompactionAction::Finish(RunOutcome::Ran))
        },
        (CompactionRunState::CollectingBlobs, CompactionEvent::BlobsCollected { ok }) => if ok {
            (CompactionRunState::Finished(RunOutcome::Ran), CompactionAction::Finish(RunOutcome::Ran))
        } else {
            (CompactionRunState::Failed, CompactionAction::Fail)
        },
        _ => (s, CompactionAction::Ignore),
    }
}

/// One step of a compaction run.
pub fn compaction_step(s: CompactionRunState, e: CompactionEvent) -> (r: (CompactionRunState, CompactionAction))
    ensures
        r == compaction_transition(s, e),
{
    match (s, e) {
        (CompactionRunState::Collecting, CompactionEvent::InputsCollected { count }) => if count == 0 {
            (CompactionRunState::Finished(RunOutcome::NoWork), CompactionAction::Finish(RunOutcome::NoWork))
        } else {
            (CompactionRunState::Reserving, CompactionAction::ReserveInputs)
        },
        (CompactionRunState::Reserving, CompactionEvent::Reserved { granted, kept }) => if !granted || kept == 0 {
            (CompactionRunState::Finished(RunOutcome::Busy), CompactionAction::Finish(RunOutcome::Busy))
        } else {
            (CompactionRunState::Building, CompactionAction::WriteOutputs)
        },
        (CompactionRunState::Building, CompactionEvent::OutputsWritten { ok }) => if ok {
            (CompactionRunState::Validating, CompactionAction::SyncAndValidate)
        } else {
            (CompactionRunState::Failed, CompactionAction::RemoveWrittenAndFail)
        },
        (CompactionRunState::Validating, CompactionEvent::Validated { ok, level_layout_error }) => if ok {
            (CompactionRunState::Publishing, CompactionAction::PublishOutputs)
        } else if level_layout_error {
            (
                CompactionRunState::Finished(RunOutcome::NoWork),
                CompactionAction::RemoveWrittenAndFinish(RunOutcome::NoWork),
            )
        } else {
            (CompactionRunState::Failed, CompactionAction::RemoveWrittenAndFail)
        },
        (CompactionRunState::Publishing, CompactionEvent::Published { ok }) => if ok {
            (CompactionRunState::Installing, CompactionAction::InstallAndRetireInputs)
        } else {
            (CompactionRunState::Failed, CompactionAction::RemoveWrittenAndFail)
        },
        (CompactionRunState::Installing, CompactionEvent::Installed { ok, blob_gc_enabled }) => if !ok {
            (CompactionRunState::Failed, CompactionAction::Fail)
        } else if blob_gc_enabled {
            (CompactionRunState::CollectingBlobs, CompactionAction::RunBlobGc)
        } else {
            (CompactionRunState::Finished(RunOutcome::Ran), CompactionAction::Finish(RunOutcome::Ran))
        },
        (CompactionRunState::CollectingBlobs, CompactionEvent::BlobsCollected { ok }) => if ok {
            (CompactionRunState::Finished(RunOutcome::Ran), CompactionAction::Finish(RunOutcome::Ran))
        } else {
            (CompactionRunState::Failed, CompactionAction::Fail)
        },
        _ => (s, CompactionAction::Ignore),
    }
}

/// A run that ends always ends in a final state: finishing or failing
/// actions lead to `Finished` or `Failed`, every other action to a state
/// that waits for a further event.
pub proof fn lemma_finishing_actions_end_the_run(s: CompactionRunState, e: CompactionEvent)
    ensures
        ({
            let (next, action) = compaction_transition(s, e);
            match action {
                CompactionAction::Finish(o) => next == CompactionRunState::Finished(o),
                CompactionAction::RemoveWrittenAndFinish(o) => next == CompactionRunState::Finished(o),
                CompactionAction::Fail => next == CompactionRunState::Failed,
                CompactionAction::RemoveWrittenAndFail => next == CompactionRunState::Failed,
                CompactionAction::Ignore => next == s,
                _ => !(next is Finished) && !(next is Failed),
            }
        }),
{
}

/// One input of a compaction, as far as choosing its outputs goes: whether
/// its table can move to the next level unchanged, the blob level merge
/// policy of its bucket, and how many tables a rewrite writes.
#[derive(Debug, Clone, Copy, PartialEq, Eq, Structural)]
pub struct CompactionInputShape {
    pub trivial_move: bool,
    pub policy: BlobLevelMergePolicy,
    pub payload_count: usize,
}

/// What a compaction input becomes: its table moved as it is, or
/// `count` new tables with consecutive ids from `first`.
#[derive(Debug, Clone, Copy, PartialEq, Eq, Structural)]
pub enum OutputPlan {
    Move,
    Rewrite { first: TableId, count: usize },
}

/// A trivial move stays a move unless the bucket always merges blob levels.
pub open spec fn moves(input: CompactionInputShape) -> bool {
    input.trivial_move && input.policy != BlobLevelMergePolicy::Always
}

/// New table ids that the first inputs take.
pub open spec fn ids_needed(inputs: Seq<CompactionInputShape>) -> nat
    decreases inputs.len(),
{
    if inputs.len() == 0 {
        0
    } else {
        ids_needed(inputs.drop_last()) + if moves(inputs.last()) {
            0nat
        } else {
            inputs.last().payload_count as nat
        }
    }
}

pub open spec fn output_plan_of(inputs: Seq<CompactionInputShape>, next_id: u64, k: int) -> OutputPlan {
    if moves(inputs[k]) {
        OutputPlan::Move
    } else {
        OutputPlan::Rewrite { first: TableId((next_id + ids_needed(inputs.take(k))) as u64), count: inputs[k].payload_count }
    }
}

proof fn lemma_ids_needed_grow(inputs: Seq<CompactionInputShape>, a: int, b: int)
    requires
        0 <= a <= b <= inputs.len(),
    ensures
        ids_needed(inputs.take(a)) <= ids_needed(inputs.take(b)),
    decreases b - a,
{
    if a < b {
        lemma_ids_needed_grow(inputs, a, b - 1);
        assert(inputs.take(b).drop_last() =~= inputs.take(b - 1));
    }
}

/// Chooses the outputs of a compaction's inputs: a trivial move keeps its
/// table unless its bucket always merges blob levels; every other input
/// gets consecutive fresh table ids from `next_id` on, one per table it
/// writes. Fails with `Corruption` when the id counter would pass
/// `u64::MAX`. Returns the plans and the next free id.
pub fn plan_compaction_outputs(inputs: &[CompactionInputShape], next_id: TableId) -> (r: Result<(Vec<OutputPlan>, TableId)>)
    ensures
        match r {
            Ok((plans, next)) => {
                &&& next_id.0 + ids_needed(inputs@) <= u64::MAX
                &&& next.0 == next_id.0 + ids_needed(inputs@)
                &&& plans@.len() == inputs@.len()
                &&& forall|k: int| 0 <= k < inputs@.len() ==> #[trigger] plans@[k] == output_plan_of(inputs@, next_id.0, k)
            },
            Err(e) => next_id.0 + ids_needed(inputs@) > u64::MAX && e.kind() == ErrorKind::Corruption
                && e.message_view() == "table id counter overflow"@,
        },
{
    let mut plans: Vec<OutputPlan> = Vec::new();
    let mut next = next_id;
    let mut i: usize = 0;
    while i < inputs.len()
        invariant
            i <= inputs@.len(),
            next.0 == next_id.0 + ids_needed(inputs@.take(i as int)),
            plans@.len() == i,
            forall|k: int| 0 <= k < i ==> #[trigger] plans@[k] == output_plan_of(inputs@, next_id.0, k),
        decreases inputs@.len() - i,
    {
        let input = inputs[i];
        proof {
            assert(inputs@.take(i + 1).drop_last() =~= inputs@.take(i as int));
            assert(inputs@.take(i + 1).last() == input);
        }
        if input.trivial_move && input.policy != BlobLevelMergePolicy::Always {
            plans.push(OutputPlan::Move);
        } else {
            let first = next;
            let mut j: usize = 0;
            while j < input.payload_count
                invariant
                    j <= input.payload_count,
                    next.0 == first.0 + j,
                    first.0 == next_id.0 + ids_needed(inputs@.take(i as int)),
                    i < inputs@.len(),
                    input == inputs@[i as int],
                    !moves(input),
                    ids_needed(inputs@.take(i + 1)) == ids_needed(inputs@.take(i as int)) + input.payload_count,
                decreases input.payload_count - j,
            {
                next = match next.next() {
                    Some(id) => id,
                    None => {
                        proof {
                            lemma_ids_needed_grow(inputs@, i + 1, inputs@.len() as int);
                            assert(inputs@.take(inputs@.len() as int) =~= inputs@);
                        }
                        return Err(Error::corruption("table id counter overflow"));
                    },
                };
                j = j + 1;
            }
            plans.push(OutputPlan::Rewrite { first, count: input.payload_count });
        }
        i = i + 1;
    }
    proof {
        assert(inputs@.take(i as int) =~= inputs@);
    }
    Ok((plans, next))
}

} // verus!
