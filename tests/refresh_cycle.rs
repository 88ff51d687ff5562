use ep_rec_api::refresh::{
    advance, outcome, start_cycle, CycleState, RefreshOutcome, RefreshStep, StepReport, SyncError,
};

fn run(local_copy_exists: bool, reports: &[StepReport]) -> (Vec<RefreshStep>, Option<RefreshOutcome>) {
    let mut state = start_cycle(local_copy_exists);
    let mut steps = Vec::new();
    for r in reports {
        if let CycleState::Running(step) = state {
            steps.push(step);
            state = advance(state, *r);
        }
    }
    (steps, outcome(state))
}

#[test]
fn no_local_copy_clones() {
    assert_eq!(
        run(false, &[StepReport::Done]),
        (vec![RefreshStep::CloneRemote], Some(RefreshOutcome::Success))
    );
    assert_eq!(
        run(false, &[StepReport::Failed]),
        (
            vec![RefreshStep::CloneRemote],
            Some(RefreshOutcome::Failed(SyncError::CloneFailed))
        )
    );
}

#[test]
fn local_copy_fetches_and_fast_forwards() {
    let done = [StepReport::Done; 4];
    assert_eq!(
        run(true, &done),
        (
            vec![
                RefreshStep::OpenLocal,
                RefreshStep::FetchRemote,
                RefreshStep::ResolveRemoteHead,
                RefreshStep::FastForward
            ],
            Some(RefreshOutcome::Success)
        )
    );
}

#[test]
fn current_head_skips_fast_forward() {
    let reports = [StepReport::Done, StepReport::Done, StepReport::AlreadyCurrent, StepReport::Done];
    assert_eq!(run(true, &reports).1, Some(RefreshOutcome::Skipped));
}

#[test]
fn any_failure_ends_the_cycle() {
    let reports = [StepReport::Done, StepReport::Failed, StepReport::Done];
    assert_eq!(
        run(true, &reports),
        (
            vec![RefreshStep::OpenLocal, RefreshStep::FetchRemote],
            Some(RefreshOutcome::Failed(SyncError::FetchFailed))
        )
    );
    let reports = [StepReport::Done, StepReport::Done, StepReport::Done, StepReport::Failed];
    assert_eq!(
        run(true, &reports).1,
        Some(RefreshOutcome::Failed(SyncError::FastForwardFailed))
    );
    assert_eq!(
        run(true, &[StepReport::Failed]).1,
        Some(RefreshOutcome::Failed(SyncError::OpenFailed))
    );
}

#[test]
fn finished_cycle_stays_finished() {
    let s = CycleState::Finished(RefreshOutcome::Skipped);
    assert_eq!(advance(s, StepReport::Failed), s);
    assert_eq!(outcome(start_cycle(true)), None);
}
