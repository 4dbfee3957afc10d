//! The decisions of a worker that supervises one job: when to check out,
//! spawn, interrupt, kill and record.
//!
//! The worker performs each action that `JobState::step` returns and
//! reports what happened as the next event.
use vstd::prelude::*;

verus! {

/// How far a job has come.
#[derive(Debug, Clone, Copy, PartialEq, Eq, Structural)]
pub enum Phase {
    /// Not yet taken up by a worker.
    Waiting,
    /// The revision is being checked out.
    CheckingOut,
    /// The subprocess is being spawned.
    Spawning,
    /// The subprocess runs.
    Running,
    /// The job has ended.
    Done,
}

/// What a worker reports.
#[derive(Debug, Clone, Copy, PartialEq, Eq, Structural)]
pub enum JobEvent {
    /// A worker took the job up.
    Start,
    /// The job is no longer wanted.
    Cancel,
    /// The revision is checked out.
    CheckedOut,
    /// The revision could not be checked out.
    CheckoutFailed,
    /// The subprocess runs.
    Spawned,
    /// The subprocess could not be spawned.
    SpawnFailed,
    /// The subprocess has exited.
    Exited,
    /// The grace period since the interrupt is over.
    GraceElapsed,
}

/// What a worker is to do next.
#[derive(Debug, Clone, Copy, PartialEq, Eq, Structural)]
pub enum JobAction {
    /// Wait for the next event.
    Nothing,
    /// Check the revision out.
    Checkout,
    /// Spawn the subprocess.
    Spawn,
    /// Ask the subprocess to stop, and start the grace period.
    Interrupt,
    /// Kill the subprocess.
    Kill,
    /// Record the outputs and the status of the subprocess.
    Record,
    /// Drop the outputs: the job was cancelled.
    Discard,
    /// Report that the job failed before its subprocess ran.
    Fail,
}

/// The state of the supervision of one job.
#[derive(Debug, Clone, Copy, PartialEq, Eq, Structural)]
pub struct JobState {
    pub phase: Phase,
    /// The job was cancelled before it ended.
    pub cancelled: bool,
    /// The subprocess was asked to stop.
    pub interrupted: bool,
    /// The subprocess was killed.
    pub killed: bool,
}

/// The state after `event`, and what the worker is to do.
pub open spec fn next(s: JobState, event: JobEvent) -> (JobState, JobAction) {
    match (s.phase, event) {
        (Phase::Waiting, JobEvent::Start) => if s.cancelled {
            (JobState { phase: Phase::Done, ..s }, JobAction::Discard)
        } else {
            (JobState { phase: Phase::CheckingOut, ..s }, JobAction::Checkout)
        },
        (Phase::Waiting, JobEvent::Cancel) => (JobState { cancelled: true, ..s }, JobAction::Nothing),
        (Phase::CheckingOut, JobEvent::Cancel) => (
            JobState { cancelled: true, ..s },
            JobAction::Nothing,
        ),
        (Phase::Spawning, JobEvent::Cancel) => (
            JobState { cancelled: true, ..s },
            JobAction::Nothing,
        ),
        (Phase::CheckingOut, JobEvent::CheckedOut) => if s.cancelled {
            (JobState { phase: Phase::Done, ..s }, JobAction::Discard)
        } else {
            (JobState { phase: Phase::Spawning, ..s }, JobAction::Spawn)
        },
        (Phase::CheckingOut, JobEvent::CheckoutFailed) => (
            JobState { phase: Phase::Done, ..s },
            if s.cancelled {
                JobAction::Discard
            } else {
                JobAction::Fail
            },
        ),
        (Phase::Spawning, JobEvent::Spawned) => if s.cancelled {
            (JobState { phase: Phase::Running, interrupted: true, ..s }, JobAction::Interrupt)
        } else {
            (JobState { phase: Phase::Running, ..s }, JobAction::Nothing)
        },
        (Phase::Spawning, JobEvent::SpawnFailed) => (
            JobState { phase: Phase::Done, ..s },
            if s.cancelled {
                JobAction::Discard
            } else {
                JobAction::Fail
            },
        ),
        (Phase::Running, JobEvent::Cancel) => if s.cancelled {
            (s, JobAction::Nothing)
        } else {
            (JobState { cancelled: true, interrupted: true, ..s }, JobAction::Interrupt)
        },
        (Phase::Running, JobEvent::GraceElapsed) => if s.interrupted && !s.killed {
            (JobState { killed: true, ..s }, JobAction::Kill)
        } else {
            (s, JobAction::Nothing)
        },
        (Phase::Running, JobEvent::Exited) => (
            JobState { phase: Phase::Done, ..s },
            if s.cancelled {
                JobAction::Discard
            } else {
                JobAction::Record
            },
        ),
        _ => (s, JobAction::Nothing),
    }
}

impl JobState {
    /// The state of a job that no worker has taken up.
    pub open spec fn initial() -> JobState {
        JobState { phase: Phase::Waiting, cancelled: false, interrupted: false, killed: false }
    }

    /// The state of a job that no worker has taken up.
    pub fn new() -> (s: JobState)
        ensures
            s == JobState::initial(),
    {
        JobState { phase: Phase::Waiting, cancelled: false, interrupted: false, killed: false }
    }

    /// Whether the job has ended.
    pub fn is_done(&self) -> (b: bool)
        ensures
            b == (self.phase == Phase::Done),
    {
        self.phase == Phase::Done
    }

    /// Takes in `event` and says what the worker is to do.
    pub fn step(&mut self, event: JobEvent) -> (action: JobAction)
        ensures
            (*final(self), action) == next(*old(self), event),
    {
        let s = *self;
        let (t, action) = match (s.phase, event) {
            (Phase::Waiting, JobEvent::Start) => if s.cancelled {
                (JobState { phase: Phase::Done, ..s }, JobAction::Discard)
            } else {
                (JobState { phase: Phase::CheckingOut, ..s }, JobAction::Checkout)
            },
            (Phase::Waiting, JobEvent::Cancel)
            | (Phase::CheckingOut, JobEvent::Cancel)
            | (Phase::Spawning, JobEvent::Cancel) => (
                JobState { cancelled: true, ..s },
                JobAction::Nothing,
            ),
            (Phase::CheckingOut, JobEvent::CheckedOut) => if s.cancelled {
                (JobState { phase: Phase::Done, ..s }, JobAction::Discard)
            } else {
                (JobState { phase: Phase::Spawning, ..s }, JobAction::Spawn)
            },
            (Phase::CheckingOut, JobEvent::CheckoutFailed)
            | (Phase::Spawning, JobEvent::SpawnFailed) => (
                JobState { phase: Phase::Done, ..s },
                if s.cancelled {
                    JobAction::Discard
                } else {
                    JobAction::Fail
                },
            ),
            (Phase::Spawning, JobEvent::Spawned) => if s.cancelled {
                (JobState { phase: Phase::Running, interrupted: true, ..s }, JobAction::Interrupt)
            } else {
                (JobState { phase: Phase::Running, ..s }, JobAction::Nothing)
            },
            (Phase::Running, JobEvent::Cancel) => if s.cancelled {
                (s, JobAction::Nothing)
            } else {
                (JobState { cancelled: true, interrupted: true, ..s }, JobAction::Interrupt)
            },
            (Phase::Running, JobEvent::GraceElapsed) => if s.interrupted && !s.killed {
                (JobState { killed: true, ..s }, JobAction::Kill)
            } else {
                (s, JobAction::Nothing)
            },
            (Phase::Running, JobEvent::Exited) => (
                JobState { phase: Phase::Done, ..s },
                if s.cancelled {
                    JobAction::Discard
                } else {
                    JobAction::Record
                },
            ),
            _ => (s, JobAction::Nothing),
        };
        *self = t;
        action
    }
}

/// The state after the events `events`, taken in from `s`.
pub open spec fn state_after(s: JobState, events: Seq<JobEvent>) -> JobState
    decreases events.len(),
{
    if events.len() == 0 {
        s
    } else {
        next(state_after(s, events.drop_last()), events.last()).0
    }
}

/// What the worker was told to do at each of the events `events`.
pub open spec fn actions_of(s: JobState, events: Seq<JobEvent>) -> Seq<JobAction>
    decreases events.len(),
{
    if events.len() == 0 {
        Seq::empty()
    } else {
        actions_of(s, events.drop_last()).push(
            next(state_after(s, events.drop_last()), events.last()).1,
        )
    }
}

/// How often `a` occurs in `actions`.
pub open spec fn count(actions: Seq<JobAction>, a: JobAction) -> nat
    decreases actions.len(),
{
    if actions.len() == 0 {
        0
    } else {
        count(actions.drop_last(), a) + if actions.last() == a {
            1nat
        } else {
            0nat
        }
    }
}

/// How often a job was ended.
pub open spec fn endings(actions: Seq<JobAction>) -> nat {
    count(actions, JobAction::Record) + count(actions, JobAction::Discard) + count(
        actions,
        JobAction::Fail,
    )
}

/// `b` is one if `b` holds and zero if not.
pub open spec fn one_if(b: bool) -> nat {
    if b {
        1
    } else {
        0
    }
}

/// Appending an action raises its count by one and no other count.
pub proof fn lemma_count_push(actions: Seq<JobAction>, x: JobAction, a: JobAction)
    ensures
        count(actions.push(x), a) == count(actions, a) + one_if(x == a),
{
    assert(actions.push(x).drop_last() =~= actions);
    assert(actions.push(x).last() == x);
}

/// What holds of a fresh job after any events.
pub open spec fn supervised(events: Seq<JobEvent>) -> bool {
    let s = state_after(JobState::initial(), events);
    let acts = actions_of(JobState::initial(), events);
    &&& acts.len() == events.len()
    &&& count(acts, JobAction::Interrupt) == one_if(s.interrupted)
    &&& count(acts, JobAction::Kill) == one_if(s.killed)
    &&& endings(acts) == one_if(s.phase == Phase::Done)
    &&& count(acts, JobAction::Spawn) <= 1
    &&& (s.phase == Phase::Spawning || s.phase == Phase::Running) ==> count(
        acts,
        JobAction::Spawn,
    ) == 1
    &&& count(acts, JobAction::Checkout) <= 1
    &&& s.killed ==> s.interrupted
    &&& s.interrupted ==> s.cancelled
    &&& s.interrupted ==> s.phase == Phase::Running || s.phase == Phase::Done
    &&& s.interrupted ==> count(acts, JobAction::Spawn) == 1
    &&& s.phase != Phase::Done ==> (s.cancelled <==> events.contains(JobEvent::Cancel))
    &&& count(acts, JobAction::Record) == 1 ==> !s.cancelled
    &&& s.phase == Phase::Waiting ==> count(acts, JobAction::Checkout) == 0
    &&& (s.phase == Phase::Waiting || s.phase == Phase::CheckingOut) ==> count(
        acts,
        JobAction::Spawn,
    ) == 0
}

/// Whatever the events: the subprocess is interrupted at most once and
/// killed at most once, killed only after it was interrupted, and
/// interrupted only if it was spawned and the job cancelled; the job is
/// checked out and spawned at most once and ended at most once.
pub proof fn lemma_supervised(events: Seq<JobEvent>)
    ensures
        supervised(events),
    decreases events.len(),
{
    let init = JobState::initial();
    if events.len() == 0 {
        assert(!events.contains(JobEvent::Cancel));
    } else {
        let front = events.drop_last();
        lemma_supervised(front);
        let s0 = state_after(init, front);
        let a0 = actions_of(init, front);
        let acts = actions_of(init, events);
        let e = events.last();
        let x = next(s0, e).1;
        assert(acts == a0.push(x));
        lemma_count_push(a0, x, JobAction::Checkout);
        lemma_count_push(a0, x, JobAction::Spawn);
        lemma_count_push(a0, x, JobAction::Interrupt);
        lemma_count_push(a0, x, JobAction::Kill);
        lemma_count_push(a0, x, JobAction::Record);
        lemma_count_push(a0, x, JobAction::Discard);
        lemma_count_push(a0, x, JobAction::Fail);
        assert(events.contains(JobEvent::Cancel) <==> front.contains(JobEvent::Cancel) || e
            == JobEvent::Cancel) by {
            if front.contains(JobEvent::Cancel) {
                let i = choose|i: int| 0 <= i < front.len() && front[i] == JobEvent::Cancel;
                assert(events[i] == JobEvent::Cancel);
            }
            if events.contains(JobEvent::Cancel) {
                let i = choose|i: int| 0 <= i < events.len() && events[i] == JobEvent::Cancel;
                if i < front.len() {
                    assert(front[i] == JobEvent::Cancel);
                }
            }
            if e == JobEvent::Cancel {
                assert(events[events.len() - 1] == JobEvent::Cancel);
            }
        }
    }
}

/// The result of a job is recorded only if no request to cancel it came
/// before its subprocess exited, and a job that was cancelled before it
/// was checked out is never spawned.
pub proof fn lemma_cancel_preempts(events: Seq<JobEvent>, i: int)
    requires
        0 <= i < events.len(),
    ensures
        actions_of(JobState::initial(), events)[i] == JobAction::Record ==> !events.take(
            i,
        ).contains(JobEvent::Cancel),
        actions_of(JobState::initial(), events)[i] == JobAction::Spawn ==> !events.take(
            i,
        ).contains(JobEvent::Cancel),
    decreases events.len(),
{
    let init = JobState::initial();
    let front = events.drop_last();
    lemma_supervised(events);
    lemma_supervised(front);
    if i < events.len() - 1 {
        lemma_cancel_preempts(front, i);
        assert(actions_of(init, events)[i] == actions_of(init, front)[i]);
        assert(events.take(i) =~= front.take(i));
    } else {
        lemma_supervised(front);
        assert(events.take(i) =~= front);
    }
}

} // verus!
