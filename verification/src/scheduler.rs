//! The scheduler's decision logic.
//!
//! The scheduler owns the refresh cadence: it waits out the refresh interval,
//! waking early when a refresh has been requested, runs the pipeline once per
//! wake, and replaces the snapshot only when the whole run succeeded. The
//! waiting itself (timers, signals) happens outside the library; the
//! decisions taken at each poll and after each run are verified here.

use crate::pipeline::PipelineError;
use crate::pipeline::Student;
use crate::store::SnapshotStore;
use crate::store::Trigger;
use vstd::prelude::*;

verus! {

/// What the scheduler does after one poll of its wait.
#[derive(Clone, Copy, Debug, PartialEq, Eq, Structural)]
pub enum SchedulerStep {
    /// Stop waiting and leave the loop: the process is shutting down.
    Exit,
    /// Wake and run the pipeline once.
    RunPipeline,
    /// Keep waiting for the next poll.
    KeepWaiting,
}

/// The decision taken at one poll: shutdown always wins; otherwise a pending
/// refresh request or an elapsed interval wakes the scheduler.
pub open spec fn wake_decision(pending: bool, interval_elapsed: bool, shutdown: bool) -> SchedulerStep {
    if shutdown {
        SchedulerStep::Exit
    } else if pending || interval_elapsed {
        SchedulerStep::RunPipeline
    } else {
        SchedulerStep::KeepWaiting
    }
}

/// Poll the wait once. Consumes a pending refresh request whenever the
/// scheduler is not shutting down, so one request wakes exactly one run.
pub fn decide_wake(trigger: &mut Trigger, interval_elapsed: bool, shutdown_requested: bool) -> (step:
    SchedulerStep)
    ensures
        step == wake_decision(old(trigger).is_pending(), interval_elapsed, shutdown_requested),
        shutdown_requested ==> final(trigger).is_pending() == old(trigger).is_pending(),
        !shutdown_requested ==> !final(trigger).is_pending(),
{
    if shutdown_requested {
        SchedulerStep::Exit
    } else {
        let requested = trigger.consume_if_set();
        if requested || interval_elapsed {
            SchedulerStep::RunPipeline
        } else {
            SchedulerStep::KeepWaiting
        }
    }
}

/// A refresh request wakes the scheduler on its very next poll, no matter how
/// much of the refresh interval has elapsed.
pub proof fn lemma_request_wakes_next_poll(interval_elapsed: bool)
    ensures
        wake_decision(true, interval_elapsed, false) == SchedulerStep::RunPipeline,
{
}

/// Finish one refresh cycle: the snapshot is replaced exactly when the run
/// succeeded; any failure leaves the prior snapshot unchanged.
pub fn finish_cycle(store: &mut SnapshotStore, outcome: Result<Vec<Student>, PipelineError>) -> (replaced:
    bool)
    ensures
        replaced == outcome is Ok,
        outcome matches Ok(snapshot) ==> final(store)@ == snapshot@,
        outcome is Err ==> final(store)@ == old(store)@,
{
    match outcome {
        Ok(snapshot) => {
            store.replace(snapshot);
            true
        },
        Err(_) => false,
    }
}

} // verus!
