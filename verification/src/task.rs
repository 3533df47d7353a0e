//! The computation task: defaulting of caller options and the orchestration
//! state machine of one run.
//!
//! A run couples an expensive external computation with one progress
//! poller. The embedder performs the outside work (spawning, invoking the
//! computation capability, joining); every transition it is allowed to
//! take, and the guarantee that the poller is joined before any outcome is
//! surfaced, is fixed here.

use vstd::prelude::*;

verus! {

/// Options accepted by a computation run; what is left empty falls back to
/// a default. The caller's progress callback is an opaque capability and
/// travels beside this record, not in it.
#[derive(Clone, Copy, Debug)]
pub struct ComputeParametersOptions {
    /// Whether to enable short-term memory parameters.
    pub enable_short_term: bool,
    /// Number of relearning steps.
    pub num_relearning_steps: Option<u32>,
    /// The poller interval, in milliseconds.
    pub timeout: Option<u32>,
}

/// The poller interval used when the caller names none.
pub const DEFAULT_TIMEOUT_MS: u32 = 500;

/// The configuration one run actually uses.
#[derive(Clone, Copy, Debug)]
pub struct TaskConfig {
    pub enable_short_term: bool,
    pub num_relearning_steps: Option<usize>,
    pub timeout_ms: u32,
}

/// Resolves caller options into a run's configuration: an absent options
/// record enables short-term parameters, names no relearning-step count and
/// uses the default poller interval; a present record keeps its values,
/// with only a missing interval falling back to the default.
pub fn resolve_compute_options(options: &Option<ComputeParametersOptions>) -> (r: TaskConfig)
    ensures
        r.enable_short_term == (match options {
            Some(o) => o.enable_short_term,
            None => true,
        }),
        r.num_relearning_steps == (match options {
            Some(o) => match o.num_relearning_steps {
                Some(v) => Some(v as usize),
                None => None::<usize>,
            },
            None => None::<usize>,
        }),
        r.timeout_ms == (match options {
            Some(o) => match o.timeout {
                Some(t) => t,
                None => DEFAULT_TIMEOUT_MS,
            },
            None => DEFAULT_TIMEOUT_MS,
        }),
{
    match options {
        Some(o) => TaskConfig {
            enable_short_term: o.enable_short_term,
            num_relearning_steps: match o.num_relearning_steps {
                Some(v) => Some(v as usize),
                None => None,
            },
            timeout_ms: match o.timeout {
                Some(t) => t,
                None => DEFAULT_TIMEOUT_MS,
            },
        },
        None => TaskConfig {
            enable_short_term: true,
            num_relearning_steps: None,
            timeout_ms: DEFAULT_TIMEOUT_MS,
        },
    }
}

/// The phase of one computation run.
///
/// No legal sequence of events skips `Finishing`: even an aborted or failed
/// run joins its poller before its outcome is surfaced, so no background
/// work outlives the run.
#[derive(Clone, Copy, Debug, PartialEq, Eq, Structural)]
pub enum TaskPhase {
    /// The run is set up; nothing has been started.
    Created,
    /// The computation runs, with the poller watching the shared state.
    Running,
    /// The computation returned — `ok` says whether successfully — the
    /// shared state is marked finished, and the poller is being joined.
    Finishing { ok: bool },
    /// The poller has been joined; the recorded outcome can be surfaced.
    Done { ok: bool },
}

/// The events the embedder feeds the machine.
#[derive(Clone, Copy, Debug, PartialEq, Eq, Structural)]
pub enum TaskEvent {
    /// The poller was spawned and the computation capability invoked.
    Started,
    /// The computation capability returned, successfully or not.
    ComputationReturned { ok: bool },
    /// The poller thread was joined.
    PollerJoined,
}

/// The machine's transition function: the next phase, or nothing when the
/// event is not legal in the phase.
pub open spec fn task_next(phase: TaskPhase, event: TaskEvent) -> Option<TaskPhase> {
    match (phase, event) {
        (TaskPhase::Created, TaskEvent::Started) => Some(TaskPhase::Running),
        (TaskPhase::Running, TaskEvent::ComputationReturned { ok }) => Some(
            TaskPhase::Finishing { ok },
        ),
        (TaskPhase::Finishing { ok }, TaskEvent::PollerJoined) => Some(TaskPhase::Done { ok }),
        _ => None,
    }
}

/// One run's orchestration state.
#[derive(Clone, Copy, Debug)]
pub struct ComputationTask {
    pub phase: TaskPhase,
}

impl ComputationTask {
    /// A run that has not started.
    pub fn new() -> (t: Self)
        ensures
            t.phase == TaskPhase::Created,
    {
        ComputationTask { phase: TaskPhase::Created }
    }

    /// Records that the poller was spawned and the computation invoked.
    pub fn start(&mut self)
        requires
            old(self).phase == TaskPhase::Created,
        ensures
            final(self).phase == TaskPhase::Running,
            task_next(old(self).phase, TaskEvent::Started) == Some(final(self).phase),
    {
        self.phase = TaskPhase::Running;
    }

    /// Records the computation's return. The embedder must now mark the
    /// shared state finished and join the poller, whatever `ok` says: an
    /// error takes the same path through `Finishing` as a success.
    pub fn computation_returned(&mut self, ok: bool)
        requires
            old(self).phase == TaskPhase::Running,
        ensures
            final(self).phase == (TaskPhase::Finishing { ok }),
            task_next(old(self).phase, TaskEvent::ComputationReturned { ok }) == Some(
                final(self).phase,
            ),
    {
        self.phase = TaskPhase::Finishing { ok };
    }

    /// Records that the poller was joined; the outcome recorded when the
    /// computation returned is carried over unchanged.
    pub fn poller_joined(&mut self)
        requires
            old(self).phase is Finishing,
        ensures
            final(self).phase == (TaskPhase::Done { ok: old(self).phase->Finishing_ok }),
            task_next(old(self).phase, TaskEvent::PollerJoined) == Some(final(self).phase),
    {
        let ok = match self.phase {
            TaskPhase::Finishing { ok } => ok,
            _ => false,
        };
        self.phase = TaskPhase::Done { ok };
    }
}

/// Whatever the computation returned — success or error — the run reaches
/// `Done` only through `Finishing`, that is, only after the poller has been
/// joined, and the outcome it surfaces is exactly the one the computation
/// returned: the join cannot mask an error, and no event lets `Running`
/// jump straight to `Done`.
pub proof fn lemma_outcome_surfaced_after_join(ok: bool)
    ensures
        task_next(TaskPhase::Running, TaskEvent::ComputationReturned { ok }) == Some(
            TaskPhase::Finishing { ok },
        ),
        task_next(TaskPhase::Finishing { ok }, TaskEvent::PollerJoined) == Some(
            TaskPhase::Done { ok },
        ),
        task_next(TaskPhase::Running, TaskEvent::PollerJoined) is None,
        task_next(TaskPhase::Running, TaskEvent::Started) is None,
        forall|event: TaskEvent|
            #[trigger] task_next(TaskPhase::Running, event) matches Some(next) ==> next is Finishing,
{
}

} // verus!
