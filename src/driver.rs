//! The decisions of the event-loop driver: when a set of pending requests is
//! complete, when a connection is ready, and which loop failure ends a wait.
//! The caller runs the loop itself and hands each iteration's outcome here.

use vstd::prelude::*;

verus! {

/// What one non-blocking iteration of the event loop reported.
#[derive(Clone, Copy, Debug, PartialEq, Eq, Structural)]
pub enum IterateOutcome {
    /// The iteration ran.
    Success,
    /// The loop was asked to quit.
    Quit,
    /// The transport failed with this error code.
    Failed(i32),
}

/// Why a wait on the event loop ended without success.
#[derive(Clone, Copy, Debug, PartialEq, Eq, Structural)]
pub enum LoopError {
    /// The loop quit.
    Quit,
    /// The transport failed with this error code.
    Transport(i32),
}

/// The state of one asynchronous request.
#[derive(Clone, Copy, Debug, PartialEq, Eq, Structural)]
pub enum OpState {
    Running,
    Cancelled,
    Done,
}

/// What the driver decided after one iteration.
#[derive(Clone, Copy, Debug, PartialEq, Eq, Structural)]
pub enum Step {
    /// Some request is still running: iterate again.
    Pending,
    /// Every request has finished.
    Finished,
    /// The loop failed: stop with this error.
    Failed(LoopError),
}

pub open spec fn is_terminal(s: OpState) -> bool {
    !(s is Running)
}

/// The failure that an iteration outcome stands for, if any.
pub open spec fn loop_error(o: IterateOutcome) -> Option<LoopError> {
    match o {
        IterateOutcome::Success => None,
        IterateOutcome::Quit => Some(LoopError::Quit),
        IterateOutcome::Failed(c) => Some(LoopError::Transport(c)),
    }
}

pub open spec fn all_settled(settled: Seq<bool>) -> bool {
    forall|i: int| 0 <= i < settled.len() ==> #[trigger] settled[i]
}

/// A request is settled once it has been seen in a terminal state.
pub open spec fn advance(settled: Seq<bool>, states: Seq<OpState>) -> Seq<bool> {
    Seq::new(settled.len(), |i: int| settled[i] || is_terminal(states[i]))
}

/// One iteration of the driver: the new settled flags and the decision.
pub open spec fn step_spec(settled: Seq<bool>, outcome: IterateOutcome, states: Seq<OpState>) -> (
    Seq<bool>,
    Step,
) {
    match loop_error(outcome) {
        Some(e) => (settled, Step::Failed(e)),
        None => {
            let next = advance(settled, states);
            (next, if all_settled(next) { Step::Finished } else { Step::Pending })
        },
    }
}

/// Runs the driver over the outcomes and request states of successive
/// iterations: the number of iterations taken and how the wait ended, or
/// `None` when the trace ran out first.
pub open spec fn drive(
    settled: Seq<bool>,
    outcomes: Seq<IterateOutcome>,
    states: Seq<Seq<OpState>>,
) -> (nat, Option<Result<(), LoopError>>)
    decreases outcomes.len(),
{
    if all_settled(settled) {
        (0, Some(Ok(())))
    } else if outcomes.len() == 0 || states.len() == 0 {
        (0, None)
    } else {
        let (next, step) = step_spec(settled, outcomes[0], states[0]);
        match step {
            Step::Failed(e) => (1, Some(Err(e))),
            Step::Finished => (1, Some(Ok(()))),
            Step::Pending => {
                let (n, r) = drive(next, outcomes.drop_first(), states.drop_first());
                (n + 1, r)
            },
        }
    }
}

/// The requests that one wait on the event loop tracks.
pub struct PendingOps {
    /// For each request, whether it was seen done or cancelled.
    pub settled: Vec<bool>,
}

impl PendingOps {
    /// Tracks `count` requests, none of them finished yet.
    pub fn new(count: usize) -> (r: Self)
        ensures
            r.settled@ == Seq::new(count as nat, |i: int| false),
    {
        let mut settled: Vec<bool> = Vec::new();
        while settled.len() < count
            invariant
                settled.len() <= count,
                forall|i: int| 0 <= i < settled.len() ==> !settled@[i],
            decreases count - settled.len(),
        {
            settled.push(false);
        }
        assert(settled@ =~= Seq::new(count as nat, |i: int| false));
        PendingOps { settled }
    }

    /// Whether every tracked request has finished.
    pub fn is_finished(&self) -> (r: bool)
        ensures
            r == all_settled(self.settled@),
    {
        let mut i: usize = 0;
        while i < self.settled.len()
            invariant
                i <= self.settled.len(),
                forall|j: int| 0 <= j < i ==> self.settled@[j],
            decreases self.settled.len() - i,
        {
            if !self.settled[i] {
                return false;
            }
            i = i + 1;
        }
        true
    }

    /// Takes in one iteration: a loop failure ends the wait with that error;
    /// otherwise every request seen done or cancelled is settled, once, and
    /// the wait ends when all are.
    pub fn step(&mut self, outcome: IterateOutcome, states: &Vec<OpState>) -> (r: Step)
        requires
            states@.len() == old(self).settled@.len(),
        ensures
            (final(self).settled@, r) == step_spec(old(self).settled@, outcome, states@),
    {
        match outcome {
            IterateOutcome::Quit => return Step::Failed(LoopError::Quit),
            IterateOutcome::Failed(c) => return Step::Failed(LoopError::Transport(c)),
            IterateOutcome::Success => {},
        }
        let ghost before = self.settled@;
        let mut next: Vec<bool> = Vec::new();
        let mut i: usize = 0;
        while i < self.settled.len()
            invariant
                states@.len() == before.len(),
                self.settled@ == before,
                i <= before.len(),
                next@.len() == i,
                forall|j: int| 0 <= j < i ==> next@[j] == (before[j] || is_terminal(states@[j])),
            decreases before.len() - i,
        {
            next.push(self.settled[i] || states[i] != OpState::Running);
            i = i + 1;
        }
        self.settled = next;
        assert(self.settled@ =~= advance(before, states@));
        if self.is_finished() {
            Step::Finished
        } else {
            Step::Pending
        }
    }
}

/// The state of a connection to the server.
#[derive(Clone, Copy, Debug, PartialEq, Eq, Structural)]
pub enum ContextState {
    Unconnected,
    Connecting,
    Authorizing,
    SettingName,
    Ready,
    Failed,
    Terminated,
}

/// Why a connection could not be established.
#[derive(Clone, Copy, Debug, PartialEq, Eq, Structural)]
pub enum ConnectError {
    /// The event loop failed while waiting.
    Loop(LoopError),
    /// The connection failed or was terminated.
    StateFailed,
}

/// What the connection wait decided after one iteration.
#[derive(Clone, Copy, Debug, PartialEq, Eq, Structural)]
pub enum ConnectStep {
    /// Not ready yet: iterate again.
    Wait,
    /// The connection is ready.
    Ready,
    /// Stop with this error.
    Failed(ConnectError),
}

pub open spec fn connect_step_spec(outcome: IterateOutcome, state: ContextState) -> ConnectStep {
    match loop_error(outcome) {
        Some(e) => ConnectStep::Failed(ConnectError::Loop(e)),
        None => match state {
            ContextState::Ready => ConnectStep::Ready,
            ContextState::Failed | ContextState::Terminated => ConnectStep::Failed(
                ConnectError::StateFailed,
            ),
            _ => ConnectStep::Wait,
        },
    }
}

/// One iteration of the wait for a connection: a loop failure comes first,
/// then the connection's state decides.
pub fn connect_step(outcome: IterateOutcome, state: ContextState) -> (r: ConnectStep)
    ensures
        r == connect_step_spec(outcome, state),
{
    match outcome {
        IterateOutcome::Quit => ConnectStep::Failed(ConnectError::Loop(LoopError::Quit)),
        IterateOutcome::Failed(c) => ConnectStep::Failed(ConnectError::Loop(LoopError::Transport(c))),
        IterateOutcome::Success => match state {
            ContextState::Ready => ConnectStep::Ready,
            ContextState::Failed | ContextState::Terminated => ConnectStep::Failed(
                ConnectError::StateFailed,
            ),
            _ => ConnectStep::Wait,
        },
    }
}

/// The largest entry of `s`, or 0 when `s` is empty.
pub open spec fn latest(s: Seq<nat>) -> nat
    decreases s.len(),
{
    if s.len() == 0 {
        0
    } else {
        let m = latest(s.drop_last());
        if s.last() > m {
            s.last()
        } else {
            m
        }
    }
}

/// Request states at iteration `t` (counted from 0) when request `i` is done
/// from iteration number `done_at[i]` (counted from 1) on.
pub open spec fn states_at(done_at: Seq<nat>, t: int) -> Seq<OpState> {
    Seq::new(done_at.len(), |i: int| if t + 1 >= done_at[i] { OpState::Done } else { OpState::Running })
}

/// The request states of iterations `from`, `from + 1`, ... up to `len`.
pub open spec fn schedule(done_at: Seq<nat>, from: int, len: int) -> Seq<Seq<OpState>> {
    Seq::new((len - from) as nat, |t: int| states_at(done_at, from + t))
}

proof fn lemma_latest(s: Seq<nat>)
    ensures
        forall|i: int| 0 <= i < s.len() ==> s[i] <= latest(s),
        s.len() > 0 ==> exists|i: int| 0 <= i < s.len() && s[i] == latest(s),
    decreases s.len(),
{
    if s.len() > 0 {
        lemma_latest(s.drop_last());
        assert forall|i: int| 0 <= i < s.len() implies s[i] <= latest(s) by {
            if i < s.len() - 1 {
                assert(s.drop_last()[i] == s[i]);
            }
        }
        if s.last() <= latest(s.drop_last()) && s.len() > 1 {
            let i = choose|i: int| 0 <= i < s.drop_last().len() && s.drop_last()[i] == latest(s.drop_last());
            assert(s[i] == latest(s));
        } else if s.len() == 1 {
            assert(s[0] == s.last());
        }
    }
}

proof fn lemma_drive_schedule(done_at: Seq<nat>, j: nat, len: nat)
    requires
        forall|i: int| 0 <= i < done_at.len() ==> done_at[i] >= 1,
        j <= latest(done_at) <= len,
    ensures
        drive(
            Seq::new(done_at.len(), |i: int| j >= done_at[i]),
            Seq::new((len - j) as nat, |t: int| IterateOutcome::Success),
            schedule(done_at, j as int, len as int),
        ) == (((latest(done_at) - j) as nat, Some(Ok::<(), LoopError>(())))),
    decreases latest(done_at) - j,
{
    let m = latest(done_at);
    let settled = Seq::new(done_at.len(), |i: int| j >= done_at[i]);
    let outcomes = Seq::new((len - j) as nat, |t: int| IterateOutcome::Success);
    let states = schedule(done_at, j as int, len as int);
    lemma_latest(done_at);
    if j == m {
        assert(all_settled(settled));
    } else {
        let w = choose|i: int| 0 <= i < done_at.len() && done_at[i] == m;
        assert(!settled[w]);
        let next = advance(settled, states[0]);
        assert(next =~= Seq::new(done_at.len(), |i: int| j + 1 >= done_at[i]));
        assert(outcomes.drop_first() =~= Seq::new((len - (j + 1)) as nat, |t: int| IterateOutcome::Success));
        assert(states.drop_first() =~= schedule(done_at, j + 1 as int, len as int));
        lemma_drive_schedule(done_at, (j + 1) as nat, len);
        if j + 1 < m {
            assert(!next[w]);
        } else {
            assert(all_settled(next));
        }
    }
}

/// When no iteration fails and request `i` is done from iteration
/// `done_at[i]` on, the driver finishes after exactly as many iterations as
/// the slowest request needs: not before every request has finished, and
/// no later.
pub proof fn lemma_drive_finishes_with_slowest(done_at: Seq<nat>, len: nat)
    requires
        forall|i: int| 0 <= i < done_at.len() ==> done_at[i] >= 1,
        latest(done_at) <= len,
    ensures
        drive(
            Seq::new(done_at.len(), |i: int| false),
            Seq::new(len, |t: int| IterateOutcome::Success),
            schedule(done_at, 0, len as int),
        ) == ((latest(done_at), Some(Ok::<(), LoopError>(())))),
{
    lemma_drive_schedule(done_at, 0, len);
    assert(Seq::new(done_at.len(), |i: int| 0 >= done_at[i]) =~= Seq::new(done_at.len(), |i: int| false));
}

proof fn lemma_drive_fails_at_from(
    settled: Seq<bool>,
    outcomes: Seq<IterateOutcome>,
    states: Seq<Seq<OpState>>,
    m: nat,
    w: int,
)
    requires
        m < outcomes.len(),
        m < states.len(),
        0 <= w < settled.len(),
        !settled[w],
        forall|t: int| 0 <= t < m ==> #[trigger] outcomes[t] == IterateOutcome::Success,
        forall|t: int| 0 <= t < m ==> (#[trigger] states[t]).len() == settled.len() && states[t][w] == OpState::Running,
        loop_error(outcomes[m as int]) is Some,
    ensures
        drive(settled, outcomes, states) == ((m + 1) as nat, Some(
            Err::<(), LoopError>(loop_error(outcomes[m as int])->Some_0),
        )),
    decreases m,
{
    if m > 0 {
        let (next, step) = step_spec(settled, outcomes[0], states[0]);
        assert(outcomes[0] == IterateOutcome::Success);
        assert(states[0][w] == OpState::Running);
        assert(!next[w]);
        assert forall|t: int| 0 <= t < m - 1 implies #[trigger] outcomes.drop_first()[t] == IterateOutcome::Success by {
            assert(outcomes[t + 1] == IterateOutcome::Success);
        }
        assert forall|t: int| 0 <= t < m - 1 implies (#[trigger] states.drop_first()[t]).len() == next.len() && states.drop_first()[t][w] == OpState::Running by {
            assert(states[t + 1].len() == settled.len());
        }
        assert(outcomes.drop_first()[m - 1] == outcomes[m as int]);
        lemma_drive_fails_at_from(next, outcomes.drop_first(), states.drop_first(), (m - 1) as nat, w);
    }
}

/// When iteration number `m + 1` is the first to fail, while some request is
/// still running, the wait fails at that iteration with that iteration's
/// error: not before and not after.
pub proof fn lemma_drive_fails_at(
    outcomes: Seq<IterateOutcome>,
    states: Seq<Seq<OpState>>,
    m: nat,
    w: int,
)
    requires
        m < outcomes.len(),
        m < states.len(),
        forall|t: int| 0 <= t < m ==> #[trigger] outcomes[t] == IterateOutcome::Success,
        loop_error(outcomes[m as int]) is Some,
        0 <= w,
        forall|t: int| 0 <= t < m ==> w < (#[trigger] states[t]).len() && states[t][w] == OpState::Running,
        forall|t: int| 0 <= t < states.len() ==> (#[trigger] states[t]).len() == states[0].len(),
        w < states[0].len(),
    ensures
        drive(Seq::new(states[0].len(), |i: int| false), outcomes, states) == ((m + 1) as nat, Some(
            Err::<(), LoopError>(loop_error(outcomes[m as int])->Some_0),
        )),
{
    lemma_drive_fails_at_from(Seq::new(states[0].len(), |i: int| false), outcomes, states, m, w);
}

} // verus!
