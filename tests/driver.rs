use pulsepriority::driver::{
    connect_step, ConnectError, ConnectStep, ContextState, IterateOutcome, LoopError, OpState,
    PendingOps, Step,
};

fn states_at(done_at: &[usize], iteration: usize) -> Vec<OpState> {
    done_at
        .iter()
        .map(|d| if iteration >= *d { OpState::Done } else { OpState::Running })
        .collect()
}

/// Runs the driver over scripted iterations (numbered from 1); returns the
/// number of iterations taken and how the wait ended.
fn run(
    count: usize,
    outcome: impl Fn(usize) -> IterateOutcome,
    states: impl Fn(usize) -> Vec<OpState>,
) -> (usize, Result<(), LoopError>) {
    let mut ops = PendingOps::new(count);
    let mut n = 0;
    while !ops.is_finished() {
        n += 1;
        assert!(n < 1000);
        match ops.step(outcome(n), &states(n)) {
            Step::Pending => {}
            Step::Finished => return (n, Ok(())),
            Step::Failed(e) => return (n, Err(e)),
        }
    }
    (n, Ok(()))
}

#[test]
fn finishes_with_slowest() {
    let done_at = [3, 1, 5, 2];
    let r = run(4, |_| IterateOutcome::Success, |t| states_at(&done_at, t));
    assert_eq!(r, (5, Ok(())));
}

#[test]
fn nothing_pending_needs_no_iteration() {
    let r = run(0, |_| IterateOutcome::Failed(-1), |_| Vec::new());
    assert_eq!(r, (0, Ok(())));
}

#[test]
fn cancelled_counts_as_finished() {
    let r = run(
        2,
        |_| IterateOutcome::Success,
        |t| {
            if t < 2 {
                vec![OpState::Cancelled, OpState::Running]
            } else {
                vec![OpState::Cancelled, OpState::Done]
            }
        },
    );
    assert_eq!(r, (2, Ok(())));
}

#[test]
fn finished_request_counted_once() {
    let mut ops = PendingOps::new(2);
    let st = vec![OpState::Done, OpState::Running];
    assert_eq!(ops.step(IterateOutcome::Success, &st), Step::Pending);
    assert_eq!(ops.step(IterateOutcome::Success, &st), Step::Pending);
    assert_eq!(ops.step(IterateOutcome::Success, &st), Step::Pending);
    assert_eq!(ops.settled, vec![true, false]);
    assert_eq!(ops.step(IterateOutcome::Success, &vec![OpState::Done, OpState::Done]), Step::Finished);
}

#[test]
fn transport_error_fails_at_its_iteration() {
    let m = 4;
    let r = run(
        2,
        |t| if t == m { IterateOutcome::Failed(7) } else { IterateOutcome::Success },
        |t| states_at(&[10, 2], t),
    );
    assert_eq!(r, (m, Err(LoopError::Transport(7))));
}

#[test]
fn quit_fails_wait() {
    let r = run(1, |_| IterateOutcome::Quit, |t| states_at(&[1], t));
    assert_eq!(r, (1, Err(LoopError::Quit)));
}

#[test]
fn error_wins_over_done_requests() {
    let mut ops = PendingOps::new(1);
    let r = ops.step(IterateOutcome::Failed(3), &vec![OpState::Done]);
    assert_eq!(r, Step::Failed(LoopError::Transport(3)));
    assert_eq!(ops.settled, vec![false]);
}

#[test]
fn connect_decisions() {
    assert_eq!(connect_step(IterateOutcome::Success, ContextState::Connecting), ConnectStep::Wait);
    assert_eq!(connect_step(IterateOutcome::Success, ContextState::Authorizing), ConnectStep::Wait);
    assert_eq!(connect_step(IterateOutcome::Success, ContextState::Ready), ConnectStep::Ready);
    assert_eq!(
        connect_step(IterateOutcome::Success, ContextState::Failed),
        ConnectStep::Failed(ConnectError::StateFailed)
    );
    assert_eq!(
        connect_step(IterateOutcome::Success, ContextState::Terminated),
        ConnectStep::Failed(ConnectError::StateFailed)
    );
    assert_eq!(
        connect_step(IterateOutcome::Quit, ContextState::Ready),
        ConnectStep::Failed(ConnectError::Loop(LoopError::Quit))
    );
    assert_eq!(
        connect_step(IterateOutcome::Failed(-5), ContextState::Ready),
        ConnectStep::Failed(ConnectError::Loop(LoopError::Transport(-5)))
    );
}
