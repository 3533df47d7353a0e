//! Shared progress state and the decision logic of the progress poller.
//!
//! The poller itself runs on whatever scheduling substrate the embedder
//! provides (a dedicated thread, a task on an event loop); every decision
//! it takes — when to stop, what to report, when an abort is due — is made
//! here, over plain sampled values.

use vstd::prelude::*;

verus! {

/// A shared record of a computation's progress: how much work is done, how
/// much there is in total, whether the computation has finished, and
/// whether an abort has been requested.
#[derive(Debug)]
pub struct ProgressState {
    pub current: usize,
    pub total: usize,
    pub want_abort: bool,
    pub finished: bool,
}

impl Default for ProgressState {
    /// A fresh progress state: nothing done, nothing known, no abort.
    fn default() -> (r: Self)
        ensures
            r.current == 0 && r.total == 0 && !r.want_abort && !r.finished,
    {
        ProgressState { current: 0, total: 0, want_abort: false, finished: false }
    }
}

/// Progress state records that a poller can sample and ask to abort.
///
/// The abort setter may touch nothing but the abort flag, so that a poller
/// and a computation sharing one record cannot disturb each other's fields.
pub trait ProgressStateTrait {
    /// How much work has been done.
    spec fn spec_current(&self) -> usize;

    /// How much work there is in total.
    spec fn spec_total(&self) -> usize;

    /// Whether the computation has finished.
    spec fn spec_finished(&self) -> bool;

    /// Whether an abort has been requested.
    spec fn spec_want_abort(&self) -> bool;

    fn current(&self) -> (r: usize)
        ensures
            r == self.spec_current(),
    ;

    fn total(&self) -> (r: usize)
        ensures
            r == self.spec_total(),
    ;

    fn finished(&self) -> (r: bool)
        ensures
            r == self.spec_finished(),
    ;

    fn want_abort(&self) -> (r: bool)
        ensures
            r == self.spec_want_abort(),
    ;

    fn set_want_abort(&mut self, value: bool)
        ensures
            final(self).spec_want_abort() == value,
            final(self).spec_current() == old(self).spec_current(),
            final(self).spec_total() == old(self).spec_total(),
            final(self).spec_finished() == old(self).spec_finished(),
    ;
}

impl ProgressStateTrait for ProgressState {
    open spec fn spec_current(&self) -> usize {
        self.current
    }

    open spec fn spec_total(&self) -> usize {
        self.total
    }

    open spec fn spec_finished(&self) -> bool {
        self.finished
    }

    open spec fn spec_want_abort(&self) -> bool {
        self.want_abort
    }

    fn current(&self) -> usize {
        self.current
    }

    fn total(&self) -> usize {
        self.total
    }

    fn finished(&self) -> bool {
        self.finished
    }

    fn want_abort(&self) -> bool {
        self.want_abort
    }

    fn set_want_abort(&mut self, value: bool) {
        self.want_abort = value;
    }
}

/// Marks a progress state finished. The task does this exactly once, after
/// the computation call has returned, whether it succeeded or failed, so
/// that the poller can terminate promptly.
pub fn mark_finished(state: &mut ProgressState)
    ensures
        final(state).finished,
        final(state).current == old(state).current,
        final(state).total == old(state).total,
        final(state).want_abort == old(state).want_abort,
{
    state.finished = true;
}

/// A sampled total floored to at least one, so that a reported pair can
/// always serve as a denominator when a percentage is computed.
pub open spec fn floored_total(total: usize) -> usize {
    if total == 0 {
        1
    } else {
        total
    }
}

/// What the poller remembers between samples: the pair it reported last.
/// It starts as `(0, 1)`, so an initial sample showing no work yet is not
/// reported.
pub struct PollerMemory {
    pub last_current: usize,
    pub last_total: usize,
}

/// What the poller does after one sample of the shared state.
#[derive(Clone, Copy, Debug, PartialEq, Eq, Structural)]
pub enum PollStep {
    /// The computation finished or an abort was requested: stop polling.
    Stop,
    /// Progress moved: report `(current, total)` to the callback, then
    /// sleep one interval.
    Report { current: usize, total: usize },
    /// Nothing changed: sleep one interval.
    Sleep,
}

/// The poller's decision for one sample, as a function of the sampled
/// fields and of the last reported pair.
pub open spec fn poll_decision(
    memory: PollerMemory,
    current: usize,
    total: usize,
    finished: bool,
    want_abort: bool,
) -> PollStep {
    if finished || want_abort {
        PollStep::Stop
    } else if current != memory.last_current || floored_total(total) != memory.last_total {
        PollStep::Report { current, total: floored_total(total) }
    } else {
        PollStep::Sleep
    }
}

impl PollerMemory {
    /// A poller that has reported nothing yet.
    pub fn new() -> (p: Self)
        ensures
            p.last_current == 0,
            p.last_total == 1,
    {
        PollerMemory { last_current: 0, last_total: 1 }
    }

    /// Decides what to do after one sample of the shared state, updating
    /// the remembered pair when a report is due. A reported total is never
    /// zero.
    pub fn poll_step(
        &mut self,
        current: usize,
        total: usize,
        finished: bool,
        want_abort: bool,
    ) -> (step: PollStep)
        ensures
            step == poll_decision(*old(self), current, total, finished, want_abort),
            step is Stop <==> (finished || want_abort),
            step matches PollStep::Report { current: c, total: t } ==> {
                &&& c == current
                &&& t == floored_total(total)
                &&& t >= 1
                &&& final(self).last_current == c
                &&& final(self).last_total == t
            },
            !(step is Report) ==> *final(self) == *old(self),
    {
        if finished || want_abort {
            return PollStep::Stop;
        }
        let floored = if total == 0 { 1 } else { total };
        if current != self.last_current || floored != self.last_total {
            self.last_current = current;
            self.last_total = floored;
            PollStep::Report { current, total: floored }
        } else {
            PollStep::Sleep
        }
    }
}

/// One verified poll iteration over any shared progress state: samples the
/// four fields and decides. The embedder holds the state under mutual
/// exclusion only for this call and performs the returned step (report,
/// sleep or stop) with the lock released.
pub fn poll_once<S: ProgressStateTrait>(memory: &mut PollerMemory, state: &S) -> (step: PollStep)
    ensures
        step == poll_decision(
            *old(memory),
            state.spec_current(),
            state.spec_total(),
            state.spec_finished(),
            state.spec_want_abort(),
        ),
        step is Stop <==> (state.spec_finished() || state.spec_want_abort()),
        step matches PollStep::Report { current: c, total: t } ==> c == state.spec_current() && t
            == floored_total(state.spec_total()) && t >= 1,
{
    let current = state.current();
    let total = state.total();
    let finished = state.finished();
    let want_abort = state.want_abort();
    memory.poll_step(current, total, finished, want_abort)
}

/// What came back from one invocation of the caller's progress callback.
pub enum CallbackOutcome {
    /// The callback ran and returned this value (or no value at all).
    Returned { value: Option<bool> },
    /// The callback could not be invoked, failed, or threw.
    Failed,
}

/// Whether a callback outcome asks the poller to abort the computation: an
/// explicit `false` does, any failure does, and `true` or no value means
/// "continue".
pub open spec fn outcome_requests_abort(outcome: CallbackOutcome) -> bool {
    match outcome {
        CallbackOutcome::Failed => true,
        CallbackOutcome::Returned { value } => value == Some(false),
    }
}

/// Interprets one callback outcome.
pub fn abort_requested(outcome: &CallbackOutcome) -> (r: bool)
    ensures
        r == outcome_requests_abort(*outcome),
{
    match outcome {
        CallbackOutcome::Failed => true,
        CallbackOutcome::Returned { value: Some(false) } => true,
        CallbackOutcome::Returned { value: _ } => false,
    }
}

/// The poller's abort request: sets the abort flag on the shared state and
/// touches nothing else.
pub fn request_abort<S: ProgressStateTrait>(state: &mut S)
    ensures
        final(state).spec_want_abort(),
        final(state).spec_current() == old(state).spec_current(),
        final(state).spec_total() == old(state).spec_total(),
        final(state).spec_finished() == old(state).spec_finished(),
{
    state.set_want_abort(true);
}

/// Once an abort has been requested — for instance because the very first
/// callback invocation refused — the next sample stops the poller, whatever
/// the other fields hold: polling ends within one interval of the refusal,
/// and nothing escapes the poller itself.
pub proof fn lemma_abort_stops_poller(
    memory: PollerMemory,
    current: usize,
    total: usize,
    finished: bool,
)
    ensures
        poll_decision(memory, current, total, finished, true) is Stop,
{
}

/// A reported total is never zero: the poller floors it to at least one
/// before handing it to the callback as a denominator.
pub proof fn lemma_reported_total_positive(
    memory: PollerMemory,
    current: usize,
    total: usize,
    finished: bool,
    want_abort: bool,
)
    ensures
        poll_decision(memory, current, total, finished, want_abort) matches PollStep::Report {
            total: t,
            ..
        } ==> t >= 1,
{
}

} // verus!

