//! The lifecycle of the task that runs an actor: it runs the actor's
//! `pre_start`; when that fails it restarts the actor (through
//! `pre_restart`) as long as the actor's retry budget lasts, and gives up
//! after that. A started actor is handed the messages of its mailbox one by
//! one until the mailbox closes, the actor is told to stop, or no message
//! comes within the actor's timeout; then its `post_stop` runs. An actor that gave up or timed out is
//! also taken off its system. The task does the work and tells the lifecycle
//! what happened; the lifecycle decides what comes next.

use vstd::prelude::*;

verus! {

/// Where the task that runs an actor stands.
#[derive(Clone, Copy, Debug, PartialEq, Eq, Structural)]
pub enum RunnerPhase {
    /// The actor's `pre_start` (or, after a failure, `pre_restart`) is to run.
    Starting,
    /// The actor handles the messages of its mailbox.
    Running,
    /// The actor has stopped handling messages; its `post_stop` is to run.
    Stopping,
    /// The actor is to be taken off its system.
    Leaving,
    /// The actor has stopped; the task ends.
    Stopped,
}

/// What the task tells the lifecycle after doing what it was told.
#[derive(Clone, Copy, Debug, PartialEq, Eq, Structural)]
pub enum RunnerEvent {
    /// The actor's `pre_start` (or `pre_restart`) succeeded.
    PreStartDone,
    /// The actor's `pre_start` (or `pre_restart`) failed.
    PreStartFailed,
    /// The actor has handled a message from its mailbox.
    MessageHandled,
    /// The mailbox has closed: no sender of it is left.
    MailboxClosed,
    /// No message came within the actor's timeout.
    TimedOut,
    /// The actor was told to stop (its system stopped it or an ancestor).
    StopRequested,
    /// The actor's `post_stop` has run.
    PostStopDone,
    /// The actor has been taken off its system.
    Unregistered,
}

/// What the task is to do next.
#[derive(Clone, Copy, Debug, PartialEq, Eq, Structural)]
pub enum RunnerAction {
    /// Run the actor's `pre_start`.
    PreStart,
    /// Restart the actor after a failed start: wait as its retry strategy
    /// says, then run its `pre_restart`.
    Restart,
    /// Wait for the next message of the mailbox (within the actor's timeout,
    /// if it has one) and let the actor handle it.
    NextMessage,
    /// Run the actor's `post_stop`.
    PostStop,
    /// Take the actor (and what lies below it) off its system.
    Unregister,
    /// End the task.
    Exit,
}

/// The state of a lifecycle: its phase, how many restarts it has made, how
/// many it may make, and whether the actor is to be taken off its system
/// once it has stopped.
#[derive(Clone, Copy, Debug, PartialEq, Eq, Structural)]
pub struct LifecycleState {
    pub phase: RunnerPhase,
    pub retries: usize,
    pub max_retries: usize,
    pub leave: bool,
}

/// A state can only have made the restarts its budget allows.
pub open spec fn within_budget(s: LifecycleState) -> bool {
    s.retries <= s.max_retries
}

/// The state in which a task starts, with a budget of `max_retries` restarts.
pub open spec fn initial_state(max_retries: usize) -> LifecycleState {
    LifecycleState { phase: RunnerPhase::Starting, retries: 0, max_retries, leave: false }
}

/// The state that follows `s` once the task reports `event`. An event that
/// does not belong to the phase leaves the state as it is.
pub open spec fn next_state(s: LifecycleState, event: RunnerEvent) -> LifecycleState {
    match (s.phase, event) {
        (RunnerPhase::Starting, RunnerEvent::PreStartDone) => LifecycleState {
            phase: RunnerPhase::Running,
            ..s
        },
        (RunnerPhase::Starting, RunnerEvent::PreStartFailed) => if s.retries < s.max_retries {
            LifecycleState { retries: (s.retries + 1) as usize, ..s }
        } else {
            LifecycleState { phase: RunnerPhase::Leaving, leave: true, ..s }
        },
        (RunnerPhase::Running, RunnerEvent::MessageHandled) => s,
        (RunnerPhase::Running, RunnerEvent::MailboxClosed) => LifecycleState {
            phase: RunnerPhase::Stopping,
            ..s
        },
        (RunnerPhase::Running, RunnerEvent::TimedOut) => LifecycleState {
            phase: RunnerPhase::Stopping,
            leave: true,
            ..s
        },
        (RunnerPhase::Running, RunnerEvent::StopRequested) => LifecycleState {
            phase: RunnerPhase::Stopping,
            ..s
        },
        (RunnerPhase::Stopping, RunnerEvent::PostStopDone) => if s.leave {
            LifecycleState { phase: RunnerPhase::Leaving, ..s }
        } else {
            LifecycleState { phase: RunnerPhase::Stopped, ..s }
        },
        (RunnerPhase::Leaving, RunnerEvent::Unregistered) => LifecycleState {
            phase: RunnerPhase::Stopped,
            ..s
        },
        _ => s,
    }
}

/// What the task does in state `s`.
pub open spec fn action_of(s: LifecycleState) -> RunnerAction {
    match s.phase {
        RunnerPhase::Starting => if s.retries == 0 {
            RunnerAction::PreStart
        } else {
            RunnerAction::Restart
        },
        RunnerPhase::Running => RunnerAction::NextMessage,
        RunnerPhase::Stopping => RunnerAction::PostStop,
        RunnerPhase::Leaving => RunnerAction::Unregister,
        RunnerPhase::Stopped => RunnerAction::Exit,
    }
}

/// The state reached from the start, with a budget of `max_retries`
/// restarts, after the task reported `events`, in order.
pub open spec fn state_after(max_retries: usize, events: Seq<RunnerEvent>) -> LifecycleState
    decreases events.len(),
{
    if events.len() == 0 {
        initial_state(max_retries)
    } else {
        next_state(state_after(max_retries, events.drop_last()), events.last())
    }
}

/// The lifecycle of one actor's task. Its view is its state.
pub struct ActorLifecycle {
    phase: RunnerPhase,
    retries: usize,
    max_retries: usize,
    leave: bool,
}

impl View for ActorLifecycle {
    type V = LifecycleState;

    closed spec fn view(&self) -> LifecycleState {
        LifecycleState {
            phase: self.phase,
            retries: self.retries,
            max_retries: self.max_retries,
            leave: self.leave,
        }
    }
}

impl ActorLifecycle {
    #[verifier::type_invariant]
    closed spec fn budget_kept(self) -> bool {
        self.retries <= self.max_retries
    }

    /// The lifecycle of a task that has not run the actor yet, which may
    /// restart the actor `max_retries` times after failed starts.
    pub fn new(max_retries: usize) -> (lifecycle: Self)
        ensures
            lifecycle@ == initial_state(max_retries),
    {
        ActorLifecycle { phase: RunnerPhase::Starting, retries: 0, max_retries, leave: false }
    }

    /// Where the task stands.
    pub fn current_phase(&self) -> (phase: RunnerPhase)
        ensures
            phase == self@.phase,
    {
        self.phase
    }

    /// How many times the task has restarted the actor.
    pub fn retries(&self) -> (retries: usize)
        ensures
            retries == self@.retries,
            within_budget(self@),
    {
        proof {
            use_type_invariant(self);
        }
        self.retries
    }

    /// What the task is to do in the state where it stands.
    pub fn action(&self) -> (action: RunnerAction)
        ensures
            action == action_of(self@),
    {
        match self.phase {
            RunnerPhase::Starting => if self.retries == 0 {
                RunnerAction::PreStart
            } else {
                RunnerAction::Restart
            },
            RunnerPhase::Running => RunnerAction::NextMessage,
            RunnerPhase::Stopping => RunnerAction::PostStop,
            RunnerPhase::Leaving => RunnerAction::Unregister,
            RunnerPhase::Stopped => RunnerAction::Exit,
        }
    }

    /// Takes in what the task reports and says what it is to do next.
    pub fn step(&mut self, event: RunnerEvent) -> (action: RunnerAction)
        ensures
            final(self)@ == next_state(old(self)@, event),
            action == action_of(final(self)@),
    {
        proof {
            use_type_invariant(&*self);
        }
        match (self.phase, event) {
            (RunnerPhase::Starting, RunnerEvent::PreStartDone) => {
                self.phase = RunnerPhase::Running;
            },
            (RunnerPhase::Starting, RunnerEvent::PreStartFailed) => {
                if self.retries < self.max_retries {
                    self.retries = self.retries + 1;
                } else {
                    self.phase = RunnerPhase::Leaving;
                    self.leave = true;
                }
            },
            (RunnerPhase::Running, RunnerEvent::MailboxClosed) => {
                self.phase = RunnerPhase::Stopping;
            },
            (RunnerPhase::Running, RunnerEvent::TimedOut) => {
                self.phase = RunnerPhase::Stopping;
                self.leave = true;
            },
            (RunnerPhase::Running, RunnerEvent::StopRequested) => {
                self.phase = RunnerPhase::Stopping;
            },
            (RunnerPhase::Stopping, RunnerEvent::PostStopDone) => {
                if self.leave {
                    self.phase = RunnerPhase::Leaving;
                } else {
                    self.phase = RunnerPhase::Stopped;
                }
            },
            (RunnerPhase::Leaving, RunnerEvent::Unregistered) => {
                self.phase = RunnerPhase::Stopped;
            },
            _ => {},
        }
        self.action()
    }
}

/// The state of a run has made no more restarts than its budget allows.
pub proof fn lemma_retries_within_budget(max_retries: usize, events: Seq<RunnerEvent>)
    ensures
        within_budget(state_after(max_retries, events)),
        state_after(max_retries, events).max_retries == max_retries,
    decreases events.len(),
{
    if events.len() > 0 {
        lemma_retries_within_budget(max_retries, events.drop_last());
    }
}

/// A failed start is followed by a restart while the budget lasts, each
/// restart using up one; once the budget is used up, a failed start makes
/// the task give up: the actor is taken off its system and never handed a
/// message.
pub proof fn lemma_failed_start(s: LifecycleState)
    requires
        s.phase == RunnerPhase::Starting,
        within_budget(s),
    ensures
        s.retries < s.max_retries ==> {
            &&& next_state(s, RunnerEvent::PreStartFailed).phase == RunnerPhase::Starting
            &&& next_state(s, RunnerEvent::PreStartFailed).retries == s.retries + 1
            &&& action_of(next_state(s, RunnerEvent::PreStartFailed)) == RunnerAction::Restart
        },
        s.retries == s.max_retries ==> action_of(next_state(s, RunnerEvent::PreStartFailed))
            == RunnerAction::Unregister,
{
}

/// Once the task has reported a start, successful or not, it never runs
/// `pre_start` again.
pub proof fn lemma_pre_start_at_most_once(max_retries: usize, events: Seq<RunnerEvent>)
    requires
        events.contains(RunnerEvent::PreStartDone) || events.contains(RunnerEvent::PreStartFailed),
    ensures
        action_of(state_after(max_retries, events)) != RunnerAction::PreStart,
    decreases events.len(),
{
    let prefix = events.drop_last();
    let last = events.last();
    if last != RunnerEvent::PreStartDone && last != RunnerEvent::PreStartFailed {
        assert(prefix.contains(RunnerEvent::PreStartDone) || prefix.contains(RunnerEvent::PreStartFailed)) by {
            if events.contains(RunnerEvent::PreStartDone) {
                let i = choose|i: int| 0 <= i < events.len() && events[i] == RunnerEvent::PreStartDone;
                assert(i != events.len() - 1);
                assert(prefix[i] == events[i]);
            } else {
                let i = choose|i: int| 0 <= i < events.len() && events[i] == RunnerEvent::PreStartFailed;
                assert(i != events.len() - 1);
                assert(prefix[i] == events[i]);
            }
        }
        lemma_pre_start_at_most_once(max_retries, prefix);
    }
}

/// A task hands its actor messages only after a start has succeeded.
pub proof fn lemma_messages_after_start(max_retries: usize, events: Seq<RunnerEvent>)
    requires
        action_of(state_after(max_retries, events)) == RunnerAction::NextMessage,
    ensures
        events.contains(RunnerEvent::PreStartDone),
{
    lemma_running_after_start(max_retries, events);
}

proof fn lemma_running_after_start(max_retries: usize, events: Seq<RunnerEvent>)
    requires
        state_after(max_retries, events).phase == RunnerPhase::Running
            || state_after(max_retries, events).phase == RunnerPhase::Stopping
            || (state_after(max_retries, events).phase == RunnerPhase::Stopped
                && !state_after(max_retries, events).leave),
    ensures
        events.contains(RunnerEvent::PreStartDone),
    decreases events.len(),
{
    let prefix = events.drop_last();
    let before = state_after(max_retries, prefix);
    if before.phase == RunnerPhase::Starting {
        assert(events[events.len() - 1] == RunnerEvent::PreStartDone);
    } else {
        if before.phase == RunnerPhase::Leaving {
            assert(before.leave) by {
                lemma_leaving_leaves(max_retries, prefix);
            }
        }
        lemma_running_after_start(max_retries, prefix);
        let i = choose|i: int| 0 <= i < prefix.len() && prefix[i] == RunnerEvent::PreStartDone;
        assert(events[i] == prefix[i]);
    }
}

proof fn lemma_leaving_leaves(max_retries: usize, events: Seq<RunnerEvent>)
    ensures
        state_after(max_retries, events).phase == RunnerPhase::Leaving ==> state_after(
            max_retries,
            events,
        ).leave,
    decreases events.len(),
{
    if events.len() > 0 {
        lemma_leaving_leaves(max_retries, events.drop_last());
    }
}

/// The task stops handling messages only for one of these reasons: its
/// mailbox closed, no message came within its timeout, or it was told to
/// stop.
pub open spec fn ended_mailbox(events: Seq<RunnerEvent>) -> bool {
    events.contains(RunnerEvent::MailboxClosed) || events.contains(RunnerEvent::TimedOut)
        || events.contains(RunnerEvent::StopRequested)
}

proof fn lemma_contains_prefix(events: Seq<RunnerEvent>, e: RunnerEvent)
    requires
        events.len() > 0,
        events.drop_last().contains(e),
    ensures
        events.contains(e),
{
    let i = choose|i: int| 0 <= i < events.drop_last().len() && events.drop_last()[i] == e;
    assert(events[i] == events.drop_last()[i]);
}

/// A task runs `post_stop` only after its mailbox closed, no message came
/// within the timeout, or it was told to stop.
pub proof fn lemma_post_stop_after_mailbox_end(max_retries: usize, events: Seq<RunnerEvent>)
    requires
        state_after(max_retries, events).phase == RunnerPhase::Stopping,
    ensures
        ended_mailbox(events),
    decreases events.len(),
{
    let prefix = events.drop_last();
    let before = state_after(max_retries, prefix);
    if before.phase == RunnerPhase::Stopping {
        lemma_post_stop_after_mailbox_end(max_retries, prefix);
        if prefix.contains(RunnerEvent::MailboxClosed) {
            lemma_contains_prefix(events, RunnerEvent::MailboxClosed);
        } else if prefix.contains(RunnerEvent::TimedOut) {
            lemma_contains_prefix(events, RunnerEvent::TimedOut);
        } else {
            lemma_contains_prefix(events, RunnerEvent::StopRequested);
        }
    } else {
        let last = events.len() - 1;
        assert(events[last] == RunnerEvent::MailboxClosed || events[last] == RunnerEvent::TimedOut
            || events[last] == RunnerEvent::StopRequested);
    }
}

/// Once `post_stop` has run, the task is done with the actor: it never asks
/// for `post_stop` again, nor for a start or a message.
pub proof fn lemma_post_stop_at_most_once(max_retries: usize, events: Seq<RunnerEvent>, later: Seq<RunnerEvent>)
    requires
        state_after(max_retries, events).phase == RunnerPhase::Stopping,
    ensures
        ({
            let s = state_after(max_retries, events.push(RunnerEvent::PostStopDone) + later);
            s.phase == RunnerPhase::Leaving || s.phase == RunnerPhase::Stopped
        }),
        action_of(state_after(max_retries, events.push(RunnerEvent::PostStopDone) + later))
            != RunnerAction::PostStop,
    decreases later.len(),
{
    let done = events.push(RunnerEvent::PostStopDone);
    if later.len() == 0 {
        assert(done + later =~= done);
        assert(done.drop_last() =~= events);
    } else {
        lemma_post_stop_at_most_once(max_retries, events, later.drop_last());
        assert((done + later).drop_last() =~= done + later.drop_last());
    }
}

/// A task ends only after its mailbox closed, it timed out, it was told to
/// stop, or it gave up starting the actor.
pub proof fn lemma_ends_for_a_reason(max_retries: usize, events: Seq<RunnerEvent>)
    requires
        state_after(max_retries, events).phase == RunnerPhase::Leaving
            || state_after(max_retries, events).phase == RunnerPhase::Stopped,
    ensures
        ended_mailbox(events) || events.contains(RunnerEvent::PreStartFailed),
    decreases events.len(),
{
    let prefix = events.drop_last();
    let before = state_after(max_retries, prefix);
    let last = events.len() - 1;
    if before.phase == RunnerPhase::Leaving || before.phase == RunnerPhase::Stopped {
        lemma_ends_for_a_reason(max_retries, prefix);
        if prefix.contains(RunnerEvent::MailboxClosed) {
            lemma_contains_prefix(events, RunnerEvent::MailboxClosed);
        } else if prefix.contains(RunnerEvent::TimedOut) {
            lemma_contains_prefix(events, RunnerEvent::TimedOut);
        } else if prefix.contains(RunnerEvent::StopRequested) {
            lemma_contains_prefix(events, RunnerEvent::StopRequested);
        } else {
            lemma_contains_prefix(events, RunnerEvent::PreStartFailed);
        }
    } else if before.phase == RunnerPhase::Stopping {
        lemma_post_stop_after_mailbox_end(max_retries, prefix);
        if prefix.contains(RunnerEvent::MailboxClosed) {
            lemma_contains_prefix(events, RunnerEvent::MailboxClosed);
        } else if prefix.contains(RunnerEvent::TimedOut) {
            lemma_contains_prefix(events, RunnerEvent::TimedOut);
        } else {
            lemma_contains_prefix(events, RunnerEvent::StopRequested);
        }
    } else {
        assert(events[last] == RunnerEvent::PreStartFailed);
    }
}

/// A running actor that is told to stop runs its `post_stop` and ends; it
/// is not taken off its system again, since stopping it did that.
pub proof fn lemma_stop_request_ends(max_retries: usize, events: Seq<RunnerEvent>)
    requires
        state_after(max_retries, events).phase == RunnerPhase::Running,
    ensures
        ({
            let s = next_state(state_after(max_retries, events), RunnerEvent::StopRequested);
            &&& action_of(s) == RunnerAction::PostStop
            &&& action_of(next_state(s, RunnerEvent::PostStopDone)) == RunnerAction::Exit
        }),
{
    lemma_running_stays(max_retries, events);
}

proof fn lemma_running_stays(max_retries: usize, events: Seq<RunnerEvent>)
    ensures
        (state_after(max_retries, events).phase == RunnerPhase::Starting
            || state_after(max_retries, events).phase == RunnerPhase::Running) ==> !state_after(
            max_retries,
            events,
        ).leave,
    decreases events.len(),
{
    if events.len() > 0 {
        lemma_running_stays(max_retries, events.drop_last());
    }
}

/// An actor that timed out runs its `post_stop` and is then taken off its
/// system.
pub proof fn lemma_timeout_leaves(s: LifecycleState)
    requires
        s.phase == RunnerPhase::Running,
    ensures
        action_of(next_state(s, RunnerEvent::TimedOut)) == RunnerAction::PostStop,
        action_of(next_state(next_state(s, RunnerEvent::TimedOut), RunnerEvent::PostStopDone))
            == RunnerAction::Unregister,
{
}

/// An actor whose mailbox closed runs its `post_stop` and ends.
pub proof fn lemma_mailbox_closed_ends(s: LifecycleState)
    requires
        s.phase == RunnerPhase::Running,
        !s.leave,
    ensures
        action_of(next_state(s, RunnerEvent::MailboxClosed)) == RunnerAction::PostStop,
        action_of(next_state(next_state(s, RunnerEvent::MailboxClosed), RunnerEvent::PostStopDone))
            == RunnerAction::Exit,
{
}

/// A running actor is always handed its next message, whatever restarts it
/// made before.
pub proof fn lemma_running_handles_messages(s: LifecycleState)
    requires
        s.phase == RunnerPhase::Running,
    ensures
        action_of(s) == RunnerAction::NextMessage,
{
}

/// A start or restart that succeeds is followed by handling messages, with
/// the restart count kept.
pub proof fn lemma_successful_start_runs(s: LifecycleState)
    requires
        s.phase == RunnerPhase::Starting,
    ensures
        next_state(s, RunnerEvent::PreStartDone).phase == RunnerPhase::Running,
        next_state(s, RunnerEvent::PreStartDone).retries == s.retries,
        action_of(next_state(s, RunnerEvent::PreStartDone)) == RunnerAction::NextMessage,
{
}

/// Once an actor is off its system, the task ends, whatever its restart
/// count and budget.
pub proof fn lemma_unregistered_ends(s: LifecycleState)
    requires
        s.phase == RunnerPhase::Leaving,
    ensures
        next_state(s, RunnerEvent::Unregistered).phase == RunnerPhase::Stopped,
        action_of(next_state(s, RunnerEvent::Unregistered)) == RunnerAction::Exit,
{
}

/// A running actor that times out runs `post_stop`, is taken off its system,
/// and its task ends: three steps, whatever its restart count and budget.
pub proof fn lemma_timeout_ends(s: LifecycleState)
    requires
        s.phase == RunnerPhase::Running,
    ensures
        ({
            let a = next_state(s, RunnerEvent::TimedOut);
            let b = next_state(a, RunnerEvent::PostStopDone);
            let c = next_state(b, RunnerEvent::Unregistered);
            &&& action_of(a) == RunnerAction::PostStop
            &&& action_of(b) == RunnerAction::Unregister
            &&& c.phase == RunnerPhase::Stopped
            &&& action_of(c) == RunnerAction::Exit
        }),
{
}

/// An actor that fails its last allowed start is taken off its system and
/// its task ends, in two steps.
pub proof fn lemma_give_up_ends(s: LifecycleState)
    requires
        s.phase == RunnerPhase::Starting,
        s.retries == s.max_retries,
    ensures
        ({
            let a = next_state(s, RunnerEvent::PreStartFailed);
            let b = next_state(a, RunnerEvent::Unregistered);
            &&& action_of(a) == RunnerAction::Unregister
            &&& b.phase == RunnerPhase::Stopped
            &&& action_of(b) == RunnerAction::Exit
        }),
{
}

/// Once stopped, a task stays stopped and only ends.
pub proof fn lemma_stopped_is_final(s: LifecycleState, event: RunnerEvent)
    requires
        s.phase == RunnerPhase::Stopped,
    ensures
        next_state(s, event) == s,
        action_of(next_state(s, event)) == RunnerAction::Exit,
{
}

} // verus!
