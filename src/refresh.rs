//! The decisions of one refresh cycle of the local dataset copy.
//!
//! A cycle clones the remote dataset when there is no local copy yet;
//! otherwise it opens the local copy, fetches the remote, resolves the
//! fetched head and fast-forwards the local branch to it. The caller
//! performs each step and reports how it went; any failure ends the cycle,
//! and the next cycle starts over.
use vstd::prelude::*;

verus! {

/// A step of a refresh cycle, performed by the caller.
#[derive(Clone, Copy, PartialEq, Eq, Debug)]
pub enum RefreshStep {
    CloneRemote,
    OpenLocal,
    FetchRemote,
    ResolveRemoteHead,
    FastForward,
}

/// Why a refresh cycle failed.
#[derive(Clone, Copy, PartialEq, Eq, Debug)]
pub enum SyncError {
    CloneFailed,
    OpenFailed,
    FetchFailed,
    NoRemoteHead,
    FastForwardFailed,
}

/// How a refresh cycle ended.
#[derive(Clone, Copy, PartialEq, Eq, Debug)]
pub enum RefreshOutcome {
    Success,
    /// The local branch already pointed at the fetched head.
    Skipped,
    Failed(SyncError),
}

/// Where a refresh cycle stands.
#[derive(Clone, Copy, PartialEq, Eq, Debug)]
pub enum CycleState {
    Running(RefreshStep),
    Finished(RefreshOutcome),
}

/// What the caller reports after performing a step.
#[derive(Clone, Copy, PartialEq, Eq, Debug)]
pub enum StepReport {
    Done,
    /// The fetched head is the one the local branch already has.
    AlreadyCurrent,
    Failed,
}

pub open spec fn error_of(step: RefreshStep) -> SyncError {
    match step {
        RefreshStep::CloneRemote => SyncError::CloneFailed,
        RefreshStep::OpenLocal => SyncError::OpenFailed,
        RefreshStep::FetchRemote => SyncError::FetchFailed,
        RefreshStep::ResolveRemoteHead => SyncError::NoRemoteHead,
        RefreshStep::FastForward => SyncError::FastForwardFailed,
    }
}

/// The first state of a cycle.
pub open spec fn start_state(local_copy_exists: bool) -> CycleState {
    if local_copy_exists {
        CycleState::Running(RefreshStep::OpenLocal)
    } else {
        CycleState::Running(RefreshStep::CloneRemote)
    }
}

/// The state after a step was performed and reported.
pub open spec fn next_state(state: CycleState, report: StepReport) -> CycleState {
    match state {
        CycleState::Finished(o) => CycleState::Finished(o),
        CycleState::Running(step) => match report {
            StepReport::Failed => CycleState::Finished(RefreshOutcome::Failed(error_of(step))),
            StepReport::AlreadyCurrent if step == RefreshStep::ResolveRemoteHead => CycleState::Finished(
                RefreshOutcome::Skipped,
            ),
            _ => match step {
                RefreshStep::CloneRemote => CycleState::Finished(RefreshOutcome::Success),
                RefreshStep::OpenLocal => CycleState::Running(RefreshStep::FetchRemote),
                RefreshStep::FetchRemote => CycleState::Running(RefreshStep::ResolveRemoteHead),
                RefreshStep::ResolveRemoteHead => CycleState::Running(RefreshStep::FastForward),
                RefreshStep::FastForward => CycleState::Finished(RefreshOutcome::Success),
            },
        },
    }
}

/// How many steps a cycle in `state` may still take.
pub open spec fn steps_left(state: CycleState) -> nat {
    match state {
        CycleState::Finished(_) => 0,
        CycleState::Running(RefreshStep::CloneRemote) => 1,
        CycleState::Running(RefreshStep::OpenLocal) => 4,
        CycleState::Running(RefreshStep::FetchRemote) => 3,
        CycleState::Running(RefreshStep::ResolveRemoteHead) => 2,
        CycleState::Running(RefreshStep::FastForward) => 1,
    }
}

/// Starts a cycle: clone when there is no local copy, else open it.
pub fn start_cycle(local_copy_exists: bool) -> (s: CycleState)
    ensures
        s == start_state(local_copy_exists),
{
    if local_copy_exists {
        CycleState::Running(RefreshStep::OpenLocal)
    } else {
        CycleState::Running(RefreshStep::CloneRemote)
    }
}

/// Moves a cycle on after the caller performed its current step.
pub fn advance(state: CycleState, report: StepReport) -> (s: CycleState)
    ensures
        s == next_state(state, report),
{
    match state {
        CycleState::Finished(o) => CycleState::Finished(o),
        CycleState::Running(step) => match report {
            StepReport::Failed => {
                let e = match step {
                    RefreshStep::CloneRemote => SyncError::CloneFailed,
                    RefreshStep::OpenLocal => SyncError::OpenFailed,
                    RefreshStep::FetchRemote => SyncError::FetchFailed,
                    RefreshStep::ResolveRemoteHead => SyncError::NoRemoteHead,
                    RefreshStep::FastForward => SyncError::FastForwardFailed,
                };
                CycleState::Finished(RefreshOutcome::Failed(e))
            },
            _ => match step {
                RefreshStep::CloneRemote => CycleState::Finished(RefreshOutcome::Success),
                RefreshStep::OpenLocal => CycleState::Running(RefreshStep::FetchRemote),
                RefreshStep::FetchRemote => CycleState::Running(RefreshStep::ResolveRemoteHead),
                RefreshStep::ResolveRemoteHead => {
                    if matches!(report, StepReport::AlreadyCurrent) {
                        CycleState::Finished(RefreshOutcome::Skipped)
                    } else {
                        CycleState::Running(RefreshStep::FastForward)
                    }
                },
                RefreshStep::FastForward => CycleState::Finished(RefreshOutcome::Success),
            },
        },
    }
}

/// The outcome of a finished cycle, or `None` while it runs.
pub fn outcome(state: CycleState) -> (r: Option<RefreshOutcome>)
    ensures
        r == match state {
            CycleState::Finished(o) => Some(o),
            CycleState::Running(_) => None::<RefreshOutcome>,
        },
{
    match state {
        CycleState::Finished(o) => Some(o),
        CycleState::Running(_) => None,
    }
}

/// Every step of a running cycle brings it closer to its end, whatever the
/// step's report, so a cycle ends after at most four steps; a finished cycle
/// stays as it is.
pub proof fn lemma_cycle_ends(state: CycleState, report: StepReport)
    ensures
        state is Running ==> steps_left(next_state(state, report)) < steps_left(state),
        state is Finished ==> next_state(state, report) == state,
        steps_left(state) <= 4,
{
}

/// A failed step ends the cycle with that step's error, and nothing else
/// ends it in failure.
pub proof fn lemma_failure_ends_cycle(step: RefreshStep, report: StepReport)
    ensures
        report == StepReport::Failed ==> next_state(CycleState::Running(step), report)
            == CycleState::Finished(RefreshOutcome::Failed(error_of(step))),
        report != StepReport::Failed ==> !(next_state(CycleState::Running(step), report) matches CycleState::Finished(RefreshOutcome::Failed(_))),
{
}

} // verus!
