//! Recording the first-touch trace of a freshly captured snapshot.
//!
//! A throwaway VM boots from the snapshot while a daemon watches which memory
//! it reads first. The decisions of that flow are here: which step follows
//! which outcome. Whoever drives it performs the action of the current phase
//! and reports what came of it.

use vstd::prelude::*;

verus! {

/// Pause between two looks at the recording's status, in milliseconds.
pub const STATUS_POLL_MILLIS: u64 = 200;

/// How long aborting a recording may take, in seconds. Stopping the VM ends
/// the recording anyway, so an unresponsive daemon is not waited for.
pub const ABORT_TIMEOUT_SECS: u64 = 3;

/// What the daemon reports of a recording.
#[derive(Clone, Copy, Debug, PartialEq, Eq)]
pub enum PackRecordingState {
    /// The recording window is still open.
    Recording,
    /// The trace is complete.
    Done { pages: u32, bytes: u64 },
    /// The daemon gave up.
    Failed,
}

/// How the wait for the recording ended.
#[derive(Clone, Copy, Debug, PartialEq, Eq)]
pub enum WaitOutcome {
    /// The daemon answered: with the size of the trace, or with a failure.
    Done(Option<(u32, u64)>),
    /// The recording budget ran out first.
    Timeout,
    /// The process began to shut down first.
    Shutdown,
}

/// Why the VM is being stopped.
#[derive(Clone, Copy, Debug, PartialEq, Eq)]
pub enum StopCause {
    /// It did not start; whatever it created is torn down.
    StartFailed,
    /// It runs without a memory device of its own.
    NoMemoryDevice,
    /// The wait for the recording is over.
    Waited(WaitOutcome),
}

/// Where a recording stands.
#[derive(Clone, Copy, Debug, PartialEq, Eq)]
pub enum RecordingPhase {
    DerivingConfig,
    BuildingVm,
    StartingVm,
    FindingDevice,
    Polling { device: u32 },
    Sleeping { device: u32 },
    Aborting { device: u32, outcome: WaitOutcome },
    Stopping { cause: StopCause },
    RemovingConfig,
    CleaningUp,
    Finished { recorded: bool },
}

/// What the current phase asks to be done.
#[derive(Clone, Copy, Debug, PartialEq, Eq)]
pub enum RecordingAction {
    /// Write the recording variant of the memory image config.
    DeriveConfig,
    BuildVm,
    StartVm,
    FindMemoryDevice,
    /// Ask the daemon for the state of the recording on the device.
    PollStatus { device: u32 },
    Sleep { millis: u64 },
    /// Tell the daemon to give the recording up, waiting no longer than this.
    AbortRecording { device: u32, within_secs: u64 },
    /// Stop the VM, however long it takes.
    StopVm,
    /// Remove the recording config; the trace stays.
    RemoveConfig,
    /// Remove the trace, its temporary file and the recording config.
    RemovePackFiles,
    /// Report whether there is a trace.
    Report { recorded: bool },
}

/// What came of an action, or what interrupted the wait.
#[derive(Clone, Copy, Debug, PartialEq, Eq)]
pub enum RecordingEvent {
    ConfigDerived { succeeded: bool },
    VmBuilt { succeeded: bool },
    VmStarted { succeeded: bool },
    DeviceLookedUp { device: Option<u32> },
    /// The daemon's answer, or nothing where it could not be asked.
    StatusPolled { state: Option<PackRecordingState> },
    Slept,
    BudgetElapsed,
    ShutdownRequested,
    /// The abort ended, by an answer or by its timeout.
    AbortEnded,
    /// The stop has run to completion, whether or not it failed.
    StopEnded,
    FilesRemoved,
}

impl RecordingPhase {
    /// Whether the event can occur in this phase.
    pub open spec fn accepts(self, event: RecordingEvent) -> bool {
        match self {
            RecordingPhase::DerivingConfig => event is ConfigDerived,
            RecordingPhase::BuildingVm => event is VmBuilt,
            RecordingPhase::StartingVm => event is VmStarted,
            RecordingPhase::FindingDevice => event is DeviceLookedUp,
            RecordingPhase::Polling { .. } => event is StatusPolled || interrupts(event),
            RecordingPhase::Sleeping { .. } => event is Slept || interrupts(event),
            RecordingPhase::Aborting { .. } => event is AbortEnded,
            RecordingPhase::Stopping { .. } => event is StopEnded,
            RecordingPhase::RemovingConfig => event is FilesRemoved,
            RecordingPhase::CleaningUp => event is FilesRemoved,
            RecordingPhase::Finished { .. } => false,
        }
    }

    /// The phase that follows an accepted event.
    pub open spec fn after(self, event: RecordingEvent) -> RecordingPhase {
        match self {
            RecordingPhase::DerivingConfig => if event->ConfigDerived_succeeded {
                RecordingPhase::BuildingVm
            } else {
                RecordingPhase::CleaningUp
            },
            RecordingPhase::BuildingVm => if event->VmBuilt_succeeded {
                RecordingPhase::StartingVm
            } else {
                RecordingPhase::CleaningUp
            },
            RecordingPhase::StartingVm => if event->VmStarted_succeeded {
                RecordingPhase::FindingDevice
            } else {
                RecordingPhase::Stopping { cause: StopCause::StartFailed }
            },
            RecordingPhase::FindingDevice => match event->DeviceLookedUp_device {
                Some(device) => RecordingPhase::Polling { device },
                None => RecordingPhase::Stopping { cause: StopCause::NoMemoryDevice },
            },
            RecordingPhase::Polling { device } => match event {
                RecordingEvent::StatusPolled { state: Some(PackRecordingState::Recording) } =>
                    RecordingPhase::Sleeping { device },
                RecordingEvent::StatusPolled {
                    state: Some(PackRecordingState::Done { pages, bytes }),
                } => RecordingPhase::Stopping {
                    cause: StopCause::Waited(WaitOutcome::Done(Some((pages, bytes)))),
                },
                RecordingEvent::StatusPolled { .. } => RecordingPhase::Aborting {
                    device,
                    outcome: WaitOutcome::Done(None),
                },
                _ => RecordingPhase::Aborting { device, outcome: interruption(event) },
            },
            RecordingPhase::Sleeping { device } => if event is Slept {
                RecordingPhase::Polling { device }
            } else {
                RecordingPhase::Aborting { device, outcome: interruption(event) }
            },
            RecordingPhase::Aborting { outcome, .. } => RecordingPhase::Stopping {
                cause: StopCause::Waited(outcome),
            },
            RecordingPhase::Stopping { cause } => if cause_is_success(cause) {
                RecordingPhase::RemovingConfig
            } else {
                RecordingPhase::CleaningUp
            },
            RecordingPhase::RemovingConfig => RecordingPhase::Finished { recorded: true },
            RecordingPhase::CleaningUp => RecordingPhase::Finished { recorded: false },
            RecordingPhase::Finished { .. } => self,
        }
    }
}

/// Whether the event cuts the wait for the recording short.
pub open spec fn interrupts(event: RecordingEvent) -> bool {
    event is BudgetElapsed || event is ShutdownRequested
}

/// How a wait ends that was cut short.
pub open spec fn interruption(event: RecordingEvent) -> WaitOutcome {
    if event is BudgetElapsed {
        WaitOutcome::Timeout
    } else {
        WaitOutcome::Shutdown
    }
}

/// Whether the VM is stopped because the trace is complete.
pub open spec fn cause_is_success(cause: StopCause) -> bool {
    cause matches StopCause::Waited(WaitOutcome::Done(Some(_)))
}

impl RecordingPhase {
    /// The first phase: nothing is recorded unless the feature is enabled.
    pub fn begin(enabled: bool) -> (phase: RecordingPhase)
        ensures
            phase == (if enabled {
                RecordingPhase::DerivingConfig
            } else {
                RecordingPhase::Finished { recorded: false }
            }),
    {
        if enabled {
            RecordingPhase::DerivingConfig
        } else {
            RecordingPhase::Finished { recorded: false }
        }
    }

    /// What this phase asks to be done. Of the cleanup, only the abort is
    /// bounded in time.
    pub fn action(&self) -> (action: RecordingAction)
        ensures
            match *self {
                RecordingPhase::DerivingConfig => action == RecordingAction::DeriveConfig,
                RecordingPhase::BuildingVm => action == RecordingAction::BuildVm,
                RecordingPhase::StartingVm => action == RecordingAction::StartVm,
                RecordingPhase::FindingDevice => action == RecordingAction::FindMemoryDevice,
                RecordingPhase::Polling { device } => action == (RecordingAction::PollStatus {
                    device,
                }),
                RecordingPhase::Sleeping { .. } => action == (RecordingAction::Sleep {
                    millis: STATUS_POLL_MILLIS,
                }),
                RecordingPhase::Aborting { device, .. } => action == (
                RecordingAction::AbortRecording { device, within_secs: ABORT_TIMEOUT_SECS }),
                RecordingPhase::Stopping { .. } => action == RecordingAction::StopVm,
                RecordingPhase::RemovingConfig => action == RecordingAction::RemoveConfig,
                RecordingPhase::CleaningUp => action == RecordingAction::RemovePackFiles,
                RecordingPhase::Finished { recorded } => action == (RecordingAction::Report {
                    recorded,
                }),
            },
    {
        match *self {
            RecordingPhase::DerivingConfig => RecordingAction::DeriveConfig,
            RecordingPhase::BuildingVm => RecordingAction::BuildVm,
            RecordingPhase::StartingVm => RecordingAction::StartVm,
            RecordingPhase::FindingDevice => RecordingAction::FindMemoryDevice,
            RecordingPhase::Polling { device } => RecordingAction::PollStatus { device },
            RecordingPhase::Sleeping { .. } => RecordingAction::Sleep {
                millis: STATUS_POLL_MILLIS,
            },
            RecordingPhase::Aborting { device, .. } => RecordingAction::AbortRecording {
                device,
                within_secs: ABORT_TIMEOUT_SECS,
            },
            RecordingPhase::Stopping { .. } => RecordingAction::StopVm,
            RecordingPhase::RemovingConfig => RecordingAction::RemoveConfig,
            RecordingPhase::CleaningUp => RecordingAction::RemovePackFiles,
            RecordingPhase::Finished { recorded } => RecordingAction::Report { recorded },
        }
    }

    /// Moves on after an event that this phase accepts.
    pub fn advance(self, event: RecordingEvent) -> (next: RecordingPhase)
        requires
            self.accepts(event),
        ensures
            next == self.after(event),
    {
        match (self, event) {
            (RecordingPhase::DerivingConfig, RecordingEvent::ConfigDerived { succeeded: true }) =>
                RecordingPhase::BuildingVm,
            (RecordingPhase::DerivingConfig, _) => RecordingPhase::CleaningUp,
            (RecordingPhase::BuildingVm, RecordingEvent::VmBuilt { succeeded: true }) =>
                RecordingPhase::StartingVm,
            (RecordingPhase::BuildingVm, _) => RecordingPhase::CleaningUp,
            (RecordingPhase::StartingVm, RecordingEvent::VmStarted { succeeded: true }) =>
                RecordingPhase::FindingDevice,
            (RecordingPhase::StartingVm, _) => RecordingPhase::Stopping {
                cause: StopCause::StartFailed,
            },
            (
                RecordingPhase::FindingDevice,
                RecordingEvent::DeviceLookedUp { device: Some(device) },
            ) => RecordingPhase::Polling { device },
            (RecordingPhase::FindingDevice, _) => RecordingPhase::Stopping {
                cause: StopCause::NoMemoryDevice,
            },
            (
                RecordingPhase::Polling { device },
                RecordingEvent::StatusPolled { state },
            ) => match state {
                Some(PackRecordingState::Recording) => RecordingPhase::Sleeping { device },
                Some(PackRecordingState::Done { pages, bytes }) => RecordingPhase::Stopping {
                    cause: StopCause::Waited(WaitOutcome::Done(Some((pages, bytes)))),
                },
                _ => RecordingPhase::Aborting { device, outcome: WaitOutcome::Done(None) },
            },
            (RecordingPhase::Sleeping { device }, RecordingEvent::Slept) =>
                RecordingPhase::Polling { device },
            (RecordingPhase::Polling { device }, RecordingEvent::BudgetElapsed)
            | (RecordingPhase::Sleeping { device }, RecordingEvent::BudgetElapsed) =>
                RecordingPhase::Aborting { device, outcome: WaitOutcome::Timeout },
            (RecordingPhase::Polling { device }, _) | (RecordingPhase::Sleeping { device }, _) =>
                RecordingPhase::Aborting { device, outcome: WaitOutcome::Shutdown },
            (RecordingPhase::Aborting { outcome, .. }, _) => RecordingPhase::Stopping {
                cause: StopCause::Waited(outcome),
            },
            (
                RecordingPhase::Stopping {
                    cause: StopCause::Waited(WaitOutcome::Done(Some(_))),
                },
                _,
            ) => RecordingPhase::RemovingConfig,
            (RecordingPhase::Stopping { .. }, _) => RecordingPhase::CleaningUp,
            (RecordingPhase::RemovingConfig, _) => RecordingPhase::Finished { recorded: true },
            _ => RecordingPhase::Finished { recorded: false },
        }
    }
}

/// Whether `phases` is the history of a recording that saw exactly `events`.
pub open spec fn is_run(
    enabled: bool,
    phases: Seq<RecordingPhase>,
    events: Seq<RecordingEvent>,
) -> bool {
    &&& phases.len() == events.len() + 1
    &&& phases[0] == (if enabled {
        RecordingPhase::DerivingConfig
    } else {
        RecordingPhase::Finished { recorded: false }
    })
    &&& forall|i: int|
        0 <= i < events.len() ==> phases[i].accepts(#[trigger] events[i]) && phases[i + 1]
            == phases[i].after(events[i])
}

/// A recording that is not enabled does nothing at all.
pub proof fn law_disabled_recording_does_nothing(
    phases: Seq<RecordingPhase>,
    events: Seq<RecordingEvent>,
)
    requires
        is_run(false, phases, events),
    ensures
        events.len() == 0,
        phases == seq![RecordingPhase::Finished { recorded: false }],
{
    if events.len() > 0 {
        assert(phases[0].accepts(events[0]));
    }
    assert(phases =~= seq![RecordingPhase::Finished { recorded: false }]);
}

proof fn lemma_vm_runs_or_was_stopped(
    enabled: bool,
    phases: Seq<RecordingPhase>,
    events: Seq<RecordingEvent>,
    started: int,
    n: int,
)
    requires
        is_run(enabled, phases, events),
        0 <= started <= n < phases.len(),
        phases[started] is StartingVm,
    ensures
        (exists|j: int| started < j <= n && #[trigger] phases[j] is Stopping) || (
        phases[n] is StartingVm || phases[n] is FindingDevice || phases[n] is Polling
            || phases[n] is Sleeping || phases[n] is Aborting),
    decreases n,
{
    if started < n {
        lemma_vm_runs_or_was_stopped(enabled, phases, events, started, n - 1);
        assert(phases[n - 1].accepts(events[n - 1]));
        assert(phases[n] == phases[n - 1].after(events[n - 1]));
    }
}

/// How often the first `n` phases asked for the VM to be stopped.
pub open spec fn stops(phases: Seq<RecordingPhase>, n: int) -> int
    decreases n,
{
    if n <= 0 {
        0
    } else {
        stops(phases, n - 1) + (if phases[n - 1] is Stopping {
            1int
        } else {
            0
        })
    }
}

proof fn lemma_vm_is_stopped_once(
    enabled: bool,
    phases: Seq<RecordingPhase>,
    events: Seq<RecordingEvent>,
    n: int,
)
    requires
        is_run(enabled, phases, events),
        0 <= n < phases.len(),
    ensures
        stops(phases, n) == 0 || (stops(phases, n) == 1 && (phases[n] is RemovingConfig
            || phases[n] is CleaningUp || phases[n] is Finished)),
    decreases n,
{
    if n > 0 {
        lemma_vm_is_stopped_once(enabled, phases, events, n - 1);
        assert(phases[n - 1].accepts(events[n - 1]));
        assert(phases[n - 1 + 1] == phases[n - 1].after(events[n - 1]));
    }
}

proof fn lemma_stop_is_counted(phases: Seq<RecordingPhase>, j: int, n: int)
    requires
        0 <= j < n,
        phases[j] is Stopping,
    ensures
        stops(phases, n) >= 1,
    decreases n,
{
    lemma_stops_are_counted_up(phases, n - 1);
    if j < n - 1 {
        lemma_stop_is_counted(phases, j, n - 1);
    }
}

proof fn lemma_stops_are_counted_up(phases: Seq<RecordingPhase>, n: int)
    requires
        0 <= n,
    ensures
        stops(phases, n) >= 0,
    decreases n,
{
    if n > 0 {
        lemma_stops_are_counted_up(phases, n - 1);
    }
}

/// A VM whose start was attempted is stopped once before the recording
/// finishes, however the recording goes, and the stop has run to completion.
pub proof fn law_started_vm_is_always_stopped(
    enabled: bool,
    phases: Seq<RecordingPhase>,
    events: Seq<RecordingEvent>,
    started: int,
)
    requires
        is_run(enabled, phases, events),
        0 <= started < phases.len(),
        phases[started] is StartingVm,
        phases.last() is Finished,
    ensures
        stops(phases, phases.len() as int) == 1,
        exists|j: int|
            started < j < events.len() && #[trigger] phases[j] is Stopping && events[j] is StopEnded,
{
    let n = phases.len() - 1;
    lemma_vm_runs_or_was_stopped(enabled, phases, events, started, n);
    let j = choose|j: int| started < j <= n && #[trigger] phases[j] is Stopping;
    assert(j < n);
    assert(phases[j].accepts(events[j]));
    lemma_stop_is_counted(phases, j, n);
    lemma_vm_is_stopped_once(enabled, phases, events, n);
}

/// A trace is reported only after the daemon said that it is complete, and
/// only after the VM was stopped.
pub proof fn law_reported_trace_is_complete(
    enabled: bool,
    phases: Seq<RecordingPhase>,
    events: Seq<RecordingEvent>,
)
    requires
        is_run(enabled, phases, events),
        phases.last() == (RecordingPhase::Finished { recorded: true }),
    ensures
        events.len() >= 3,
        ({
            let done = events.len() - 3;
            &&& phases[done] is Polling
            &&& events[done] matches RecordingEvent::StatusPolled {
                state: Some(PackRecordingState::Done { .. }),
            }
            &&& phases[done + 1] is Stopping
            &&& phases[done + 2] is RemovingConfig
        }),
{
    let n = phases.len() - 1;
    assert(n >= 1);
    assert(phases[n - 1].accepts(events[n - 1]));
    assert(phases[n - 1] is RemovingConfig);
    assert(n >= 2);
    assert(phases[n - 2].accepts(events[n - 2]));
    assert(phases[n - 1] == phases[n - 2].after(events[n - 2]));
    assert(phases[n - 2] is Stopping);
    assert(n >= 3);
    assert(phases[n - 3].accepts(events[n - 3]));
    assert(phases[n - 2] == phases[n - 3].after(events[n - 3]));
    if phases[n - 3] is Aborting {
        assert(n >= 4);
        assert(phases[n - 4].accepts(events[n - 4]));
        assert(phases[n - 3] == phases[n - 4].after(events[n - 4]));
    }
}

/// An enabled recording that ends without a trace has removed every file that
/// it may have left, whichever step failed.
pub proof fn law_failure_removes_pack_files(
    phases: Seq<RecordingPhase>,
    events: Seq<RecordingEvent>,
)
    requires
        is_run(true, phases, events),
        phases.last() == (RecordingPhase::Finished { recorded: false }),
    ensures
        phases.len() >= 2,
        phases[phases.len() - 2] is CleaningUp,
        events.last() is FilesRemoved,
{
    let n = phases.len() - 1;
    assert(n >= 1);
    assert(phases[n - 1].accepts(events[n - 1]));
    assert(phases[n - 1 + 1] == phases[n - 1].after(events[n - 1]));
}

/// A recording that ends with a trace never removed it and never aborted.
pub proof fn law_success_keeps_the_trace(
    enabled: bool,
    phases: Seq<RecordingPhase>,
    events: Seq<RecordingEvent>,
    i: int,
)
    requires
        is_run(enabled, phases, events),
        phases.last() == (RecordingPhase::Finished { recorded: true }),
        0 <= i < phases.len(),
    ensures
        !(phases[i] is CleaningUp),
        !(phases[i] is Aborting),
{
    let n = phases.len() - 1;
    if phases[i] is CleaningUp {
        lemma_cleanup_ends_without_trace(enabled, phases, events, i);
    }
    if phases[i] is Aborting {
        let outcome = phases[i]->outcome;
        if i > 0 {
            assert(phases[i - 1].accepts(events[i - 1]));
            assert(phases[i] == phases[i - 1].after(events[i - 1]));
        }
        assert(!cause_is_success(StopCause::Waited(outcome)));
        assert(i < n);
        assert(phases[i].accepts(events[i]));
        assert(phases[i + 1] == phases[i].after(events[i]));
        assert(i + 1 < n);
        assert(phases[i + 1].accepts(events[i + 1]));
        assert(phases[i + 1 + 1] == phases[i + 1].after(events[i + 1]));
        lemma_cleanup_ends_without_trace(enabled, phases, events, i + 2);
    }
}

proof fn lemma_wait_goes_on_or_was_aborted(
    enabled: bool,
    phases: Seq<RecordingPhase>,
    events: Seq<RecordingEvent>,
    polled: int,
    n: int,
)
    requires
        is_run(enabled, phases, events),
        0 <= polled <= n < phases.len(),
        phases[polled] is Polling,
    ensures
        (exists|j: int| polled < j <= n && #[trigger] phases[j] is Aborting) || phases[n] is Polling
            || phases[n] is Sleeping || (phases[n] is Stopping && cause_is_success(
            phases[n]->Stopping_cause,
        )) || phases[n] is RemovingConfig || phases[n] == (RecordingPhase::Finished {
            recorded: true,
        }),
    decreases n,
{
    if polled < n {
        lemma_wait_goes_on_or_was_aborted(enabled, phases, events, polled, n - 1);
        assert(phases[n - 1].accepts(events[n - 1]));
        assert(phases[n - 1 + 1] == phases[n - 1].after(events[n - 1]));
        if phases[n] is Aborting {
            assert(polled < n <= n && phases[n] is Aborting);
        }
    }
}

/// A recording whose VM has a memory device aborts on that device exactly when
/// it ends without a trace.
pub proof fn law_wait_without_trace_is_aborted(
    enabled: bool,
    phases: Seq<RecordingPhase>,
    events: Seq<RecordingEvent>,
    polled: int,
)
    requires
        is_run(enabled, phases, events),
        0 <= polled < phases.len(),
        phases[polled] is Polling,
        phases.last() is Finished,
    ensures
        phases.last() == (RecordingPhase::Finished { recorded: false }) <==> exists|j: int|
            polled < j < phases.len() && #[trigger] phases[j] is Aborting,
        forall|j: int|
            polled < j < phases.len() && #[trigger] phases[j] is Aborting
                ==> phases[j]->Aborting_device == phases[polled]->Polling_device,
{
    let n = phases.len() - 1;
    lemma_wait_goes_on_or_was_aborted(enabled, phases, events, polled, n);
    if exists|j: int| polled < j < phases.len() && #[trigger] phases[j] is Aborting {
        let j = choose|j: int| polled < j < phases.len() && #[trigger] phases[j] is Aborting;
        if phases.last() == (RecordingPhase::Finished { recorded: true }) {
            law_success_keeps_the_trace(enabled, phases, events, j);
        }
    }
    assert forall|j: int|
        polled < j < phases.len() && #[trigger] phases[j] is Aborting implies
        phases[j]->Aborting_device == phases[polled]->Polling_device by {
        lemma_device_stays(enabled, phases, events, polled, j);
    }
}

proof fn lemma_device_stays(
    enabled: bool,
    phases: Seq<RecordingPhase>,
    events: Seq<RecordingEvent>,
    polled: int,
    n: int,
)
    requires
        is_run(enabled, phases, events),
        0 <= polled <= n < phases.len(),
        phases[polled] is Polling,
    ensures
        match phases[n] {
            RecordingPhase::Polling { device } => device == phases[polled]->Polling_device,
            RecordingPhase::Sleeping { device } => device == phases[polled]->Polling_device,
            RecordingPhase::Aborting { device, .. } => device == phases[polled]->Polling_device,
            RecordingPhase::Stopping { .. } => true,
            RecordingPhase::RemovingConfig => true,
            RecordingPhase::CleaningUp => true,
            RecordingPhase::Finished { .. } => true,
            _ => false,
        },
    decreases n,
{
    if polled < n {
        lemma_device_stays(enabled, phases, events, polled, n - 1);
        assert(phases[n - 1].accepts(events[n - 1]));
        assert(phases[n - 1 + 1] == phases[n - 1].after(events[n - 1]));
    }
}

proof fn lemma_cleanup_ends_without_trace(
    enabled: bool,
    phases: Seq<RecordingPhase>,
    events: Seq<RecordingEvent>,
    i: int,
)
    requires
        is_run(enabled, phases, events),
        0 <= i < phases.len(),
        phases[i] is CleaningUp,
    ensures
        phases.len() <= i + 2,
        phases.last() != (RecordingPhase::Finished { recorded: true }),
{
    if i + 1 < phases.len() {
        assert(phases[i].accepts(events[i]));
        assert(phases[i + 1] == phases[i].after(events[i]));
        if i + 2 < phases.len() {
            assert(phases[i + 1].accepts(events[i + 1]));
        }
    }
}

/// Running out of budget, or a shutdown, ends the wait: the abort, the stop
/// and the cleanup follow, and nothing else does.
pub proof fn law_interruption_ends_the_recording(
    enabled: bool,
    phases: Seq<RecordingPhase>,
    events: Seq<RecordingEvent>,
    i: int,
)
    requires
        is_run(enabled, phases, events),
        0 <= i < events.len(),
        events[i] is BudgetElapsed || events[i] is ShutdownRequested,
    ensures
        phases[i + 1] is Aborting,
        i + 2 < phases.len() ==> phases[i + 2] is Stopping,
        i + 3 < phases.len() ==> phases[i + 3] is CleaningUp,
        i + 4 < phases.len() ==> phases[i + 4] == (RecordingPhase::Finished { recorded: false }),
        phases.len() <= i + 5,
{
    assert(phases[i].accepts(events[i]));
    assert(phases[i + 1] == phases[i].after(events[i]));
    if i + 2 < phases.len() {
        assert(phases[i + 1].accepts(events[i + 1]));
        assert(phases[i + 1 + 1] == phases[i + 1].after(events[i + 1]));
        if i + 3 < phases.len() {
            assert(phases[i + 2].accepts(events[i + 2]));
            assert(phases[i + 2 + 1] == phases[i + 2].after(events[i + 2]));
            if i + 4 < phases.len() {
                assert(phases[i + 3].accepts(events[i + 3]));
                assert(phases[i + 3 + 1] == phases[i + 3].after(events[i + 3]));
                if i + 5 < phases.len() {
                    assert(phases[i + 4].accepts(events[i + 4]));
                }
            }
        }
    }
}

/// A complete trace is kept: once the daemon says that the recording is done,
/// however many pages and bytes it has, the recording ends with a trace.
pub proof fn law_complete_recording_is_kept(
    enabled: bool,
    phases: Seq<RecordingPhase>,
    events: Seq<RecordingEvent>,
    i: int,
)
    requires
        is_run(enabled, phases, events),
        0 <= i < events.len(),
        events[i] matches RecordingEvent::StatusPolled {
            state: Some(PackRecordingState::Done { .. }),
        },
    ensures
        phases[i] is Polling,
        phases[i + 1] is Stopping,
        i + 2 < phases.len() ==> phases[i + 2] is RemovingConfig,
        i + 3 < phases.len() ==> phases[i + 3] == (RecordingPhase::Finished { recorded: true }),
        phases.len() <= i + 4,
        phases.last() is Finished ==> phases.last() == (RecordingPhase::Finished {
            recorded: true,
        }),
{
    assert(phases[i].accepts(events[i]));
    assert(phases[i + 1] == phases[i].after(events[i]));
    if i + 2 < phases.len() {
        assert(phases[i + 1].accepts(events[i + 1]));
        assert(phases[i + 1 + 1] == phases[i + 1].after(events[i + 1]));
        if i + 3 < phases.len() {
            assert(phases[i + 2].accepts(events[i + 2]));
            assert(phases[i + 2 + 1] == phases[i + 2].after(events[i + 2]));
            if i + 4 < phases.len() {
                assert(phases[i + 3].accepts(events[i + 3]));
            }
        }
    }
}

/// A recording that finishes has a trace exactly when the daemon said that it is
/// done.
pub proof fn law_trace_is_kept_exactly_when_done(
    enabled: bool,
    phases: Seq<RecordingPhase>,
    events: Seq<RecordingEvent>,
)
    requires
        is_run(enabled, phases, events),
        phases.last() is Finished,
    ensures
        phases.last() == (RecordingPhase::Finished { recorded: true }) <==> exists|i: int|
            0 <= i < events.len() && (#[trigger] events[i] matches RecordingEvent::StatusPolled {
                state: Some(PackRecordingState::Done { .. }),
            }),
{
    if phases.last() == (RecordingPhase::Finished { recorded: true }) {
        law_reported_trace_is_complete(enabled, phases, events);
        let done = events.len() - 3;
        assert(0 <= done < events.len() && (events[done] matches RecordingEvent::StatusPolled {
            state: Some(PackRecordingState::Done { .. }),
        }));
    }
    if exists|i: int|
        0 <= i < events.len() && (#[trigger] events[i] matches RecordingEvent::StatusPolled {
            state: Some(PackRecordingState::Done { .. }),
        }) {
        let i = choose|i: int|
            0 <= i < events.len() && (#[trigger] events[i] matches RecordingEvent::StatusPolled {
                state: Some(PackRecordingState::Done { .. }),
            });
        law_complete_recording_is_kept(enabled, phases, events, i);
    }
}

/// A recording is aborted only after the daemon could not be asked or gave up,
/// or after the budget ran out or a shutdown began.
pub proof fn law_abort_has_a_cause(
    enabled: bool,
    phases: Seq<RecordingPhase>,
    events: Seq<RecordingEvent>,
    j: int,
)
    requires
        is_run(enabled, phases, events),
        0 <= j < phases.len(),
        phases[j] is Aborting,
    ensures
        j > 0,
        phases[j - 1] is Polling || phases[j - 1] is Sleeping,
        events[j - 1] == (RecordingEvent::StatusPolled { state: None }) || events[j - 1] == (
        RecordingEvent::StatusPolled { state: Some(PackRecordingState::Failed) })
            || events[j - 1] is BudgetElapsed || events[j - 1] is ShutdownRequested,
{
    assert(j > 0);
    assert(phases[j - 1].accepts(events[j - 1]));
    assert(phases[j - 1 + 1] == phases[j - 1].after(events[j - 1]));
}

/// Where each event leads: a step that succeeded leads to the next step, one that
/// failed to the part of the cleanup that is due, and a recording that is under
/// way to the next look at the same device.
pub proof fn law_every_event_leads_on(
    enabled: bool,
    phases: Seq<RecordingPhase>,
    events: Seq<RecordingEvent>,
    i: int,
)
    requires
        is_run(enabled, phases, events),
        0 <= i < events.len(),
    ensures
        match events[i] {
            RecordingEvent::ConfigDerived { succeeded } => if succeeded {
                phases[i + 1] is BuildingVm
            } else {
                phases[i + 1] is CleaningUp
            },
            RecordingEvent::VmBuilt { succeeded } => if succeeded {
                phases[i + 1] is StartingVm
            } else {
                phases[i + 1] is CleaningUp
            },
            RecordingEvent::VmStarted { succeeded } => if succeeded {
                phases[i + 1] is FindingDevice
            } else {
                phases[i + 1] is Stopping
            },
            RecordingEvent::DeviceLookedUp { device: Some(device) } => phases[i + 1] == (
            RecordingPhase::Polling { device }),
            RecordingEvent::DeviceLookedUp { device: None } => phases[i + 1] is Stopping,
            RecordingEvent::StatusPolled { state: Some(PackRecordingState::Recording) } => phases[i]
                is Polling && phases[i + 1] == (RecordingPhase::Sleeping {
                device: phases[i]->Polling_device,
            }),
            RecordingEvent::StatusPolled { state: Some(PackRecordingState::Done { .. }) } =>
                phases[i + 1] is Stopping,
            RecordingEvent::StatusPolled { .. } => phases[i] is Polling && phases[i + 1] is Aborting
                && phases[i + 1]->Aborting_device == phases[i]->Polling_device,
            RecordingEvent::Slept => phases[i] is Sleeping && phases[i + 1] == (
            RecordingPhase::Polling { device: phases[i]->Sleeping_device }),
            RecordingEvent::BudgetElapsed | RecordingEvent::ShutdownRequested => phases[i + 1]
                is Aborting,
            RecordingEvent::AbortEnded => phases[i + 1] is Stopping,
            RecordingEvent::StopEnded => phases[i + 1] is RemovingConfig || phases[i + 1]
                is CleaningUp,
            RecordingEvent::FilesRemoved => phases[i + 1] is Finished,
        },
{
    assert(phases[i].accepts(events[i]));
    assert(phases[i + 1] == phases[i].after(events[i]));
}

/// Whatever comes of what a phase asks for is an event that it accepts, and the
/// wait for the daemon can be cut short at any time.
pub proof fn law_every_outcome_is_accepted(phase: RecordingPhase, event: RecordingEvent)
    ensures
        phase is DerivingConfig && event is ConfigDerived ==> phase.accepts(event),
        phase is BuildingVm && event is VmBuilt ==> phase.accepts(event),
        phase is StartingVm && event is VmStarted ==> phase.accepts(event),
        phase is FindingDevice && event is DeviceLookedUp ==> phase.accepts(event),
        phase is Polling && (event is StatusPolled || event is BudgetElapsed
            || event is ShutdownRequested) ==> phase.accepts(event),
        phase is Sleeping && (event is Slept || event is BudgetElapsed
            || event is ShutdownRequested) ==> phase.accepts(event),
        phase is Aborting && event is AbortEnded ==> phase.accepts(event),
        phase is Stopping && event is StopEnded ==> phase.accepts(event),
        phase is RemovingConfig && event is FilesRemoved ==> phase.accepts(event),
        phase is CleaningUp && event is FilesRemoved ==> phase.accepts(event),
        phase is Finished ==> !phase.accepts(event),
{
}

} // verus!
