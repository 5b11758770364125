//! One restore's interest in a shared prefetch.
//!
//! A subscriber watches the shared run until it is finished. When it is told
//! to go, it gives up its lease; the last one to go has cancelled the run and
//! stays until the run has drained its reads.

use vstd::prelude::*;

verus! {

/// Pause between two looks at the shared run, in milliseconds.
pub const RUN_POLL_MILLIS: u64 = 10;

/// Where a subscriber stands.
#[derive(Clone, Copy, Debug, PartialEq, Eq)]
pub enum SubscriberPhase {
    /// Looking at the run.
    Watching,
    /// Pausing before the next look.
    Pausing,
    /// Giving up the lease.
    Leaving,
    /// Having cancelled the run, looking whether it has drained.
    Draining,
    /// Pausing before the next look at a draining run.
    DrainPausing,
    Finished,
}

/// What the current phase asks to be done.
#[derive(Clone, Copy, Debug, PartialEq, Eq)]
pub enum SubscriberAction {
    /// Look whether the run is finished and whether this subscriber is to go.
    ReadFlags,
    Sleep { millis: u64 },
    /// Release the lease.
    Release,
    Return,
}

/// What came of an action.
#[derive(Clone, Copy, Debug, PartialEq, Eq)]
pub enum SubscriberEvent {
    /// Whether the run is finished, and whether this subscriber is to go.
    Flags { finished: bool, cancelled: bool },
    Slept,
    /// Whether this was the last lease on the run.
    Released { last: bool },
}

impl SubscriberPhase {
    /// Whether the event can occur in this phase.
    pub open spec fn accepts(self, event: SubscriberEvent) -> bool {
        match self {
            SubscriberPhase::Watching | SubscriberPhase::Draining => event is Flags,
            SubscriberPhase::Pausing | SubscriberPhase::DrainPausing => event is Slept,
            SubscriberPhase::Leaving => event is Released,
            SubscriberPhase::Finished => false,
        }
    }

    /// The phase that follows an accepted event.
    pub open spec fn after(self, event: SubscriberEvent) -> SubscriberPhase {
        match self {
            SubscriberPhase::Watching => if event->finished {
                SubscriberPhase::Finished
            } else if event->cancelled {
                SubscriberPhase::Leaving
            } else {
                SubscriberPhase::Pausing
            },
            SubscriberPhase::Pausing => SubscriberPhase::Watching,
            SubscriberPhase::Leaving => if event->last {
                SubscriberPhase::Draining
            } else {
                SubscriberPhase::Finished
            },
            SubscriberPhase::Draining => if event->finished {
                SubscriberPhase::Finished
            } else {
                SubscriberPhase::DrainPausing
            },
            SubscriberPhase::DrainPausing => SubscriberPhase::Draining,
            SubscriberPhase::Finished => self,
        }
    }

    /// What this phase asks to be done.
    pub fn action(&self) -> (action: SubscriberAction)
        ensures
            action == (match *self {
                SubscriberPhase::Watching | SubscriberPhase::Draining =>
                    SubscriberAction::ReadFlags,
                SubscriberPhase::Pausing | SubscriberPhase::DrainPausing =>
                    SubscriberAction::Sleep { millis: RUN_POLL_MILLIS },
                SubscriberPhase::Leaving => SubscriberAction::Release,
                SubscriberPhase::Finished => SubscriberAction::Return,
            }),
    {
        match *self {
            SubscriberPhase::Watching | SubscriberPhase::Draining => SubscriberAction::ReadFlags,
            SubscriberPhase::Pausing | SubscriberPhase::DrainPausing => SubscriberAction::Sleep {
                millis: RUN_POLL_MILLIS,
            },
            SubscriberPhase::Leaving => SubscriberAction::Release,
            SubscriberPhase::Finished => SubscriberAction::Return,
        }
    }

    /// Moves on after an event that this phase accepts.
    pub fn advance(self, event: SubscriberEvent) -> (next: SubscriberPhase)
        requires
            self.accepts(event),
        ensures
            next == self.after(event),
    {
        match (self, event) {
            (SubscriberPhase::Watching, SubscriberEvent::Flags { finished: true, .. }) =>
                SubscriberPhase::Finished,
            (SubscriberPhase::Watching, SubscriberEvent::Flags { cancelled: true, .. }) =>
                SubscriberPhase::Leaving,
            (SubscriberPhase::Watching, _) => SubscriberPhase::Pausing,
            (SubscriberPhase::Pausing, _) => SubscriberPhase::Watching,
            (SubscriberPhase::Leaving, SubscriberEvent::Released { last: true }) =>
                SubscriberPhase::Draining,
            (SubscriberPhase::Draining, SubscriberEvent::Flags { finished: false, .. }) =>
                SubscriberPhase::DrainPausing,
            (SubscriberPhase::DrainPausing, _) => SubscriberPhase::Draining,
            _ => SubscriberPhase::Finished,
        }
    }
}

/// Whether `phases` is the history of a subscriber that saw exactly `events`.
pub open spec fn is_run(phases: Seq<SubscriberPhase>, events: Seq<SubscriberEvent>) -> bool {
    &&& phases.len() == events.len() + 1
    &&& phases[0] is Watching
    &&& forall|i: int|
        0 <= i < events.len() ==> phases[i].accepts(#[trigger] events[i]) && phases[i + 1]
            == phases[i].after(events[i])
}

proof fn lemma_drains_until_finished(
    phases: Seq<SubscriberPhase>,
    events: Seq<SubscriberEvent>,
    released: int,
    n: int,
)
    requires
        is_run(phases, events),
        0 <= released < n < phases.len(),
        events[released] == (SubscriberEvent::Released { last: true }),
    ensures
        phases[n] is Draining || phases[n] is DrainPausing || exists|j: int|
            released < j < n && (#[trigger] events[j] matches SubscriberEvent::Flags {
                finished,
                ..
            } && finished),
    decreases n,
{
    assert(phases[n - 1].accepts(events[n - 1]));
    assert(phases[n - 1 + 1] == phases[n - 1].after(events[n - 1]));
    if released < n - 1 {
        lemma_drains_until_finished(phases, events, released, n - 1);
        if phases[n - 1] is Draining && phases[n] is Finished {
            assert(events[n - 1] matches SubscriberEvent::Flags { finished, .. } && finished);
        }
    }
}

/// The last subscriber to leave returns only after it saw the run finished.
pub proof fn law_last_subscriber_waits_for_the_run(
    phases: Seq<SubscriberPhase>,
    events: Seq<SubscriberEvent>,
    released: int,
)
    requires
        is_run(phases, events),
        0 <= released < events.len(),
        events[released] == (SubscriberEvent::Released { last: true }),
        phases.last() is Finished,
    ensures
        exists|j: int|
            released < j < events.len() && (#[trigger] events[j] matches SubscriberEvent::Flags {
                finished,
                ..
            } && finished),
{
    lemma_drains_until_finished(phases, events, released, phases.len() - 1);
}

/// A subscriber gives up its lease only after it was told to go.
pub proof fn law_lease_is_kept_until_told_to_go(
    phases: Seq<SubscriberPhase>,
    events: Seq<SubscriberEvent>,
    released: int,
)
    requires
        is_run(phases, events),
        0 <= released < events.len(),
        events[released] is Released,
    ensures
        released > 0,
        events[released - 1] == (SubscriberEvent::Flags { finished: false, cancelled: true }),
{
    assert(phases[released].accepts(events[released]));
    assert(released > 0);
    assert(phases[released - 1].accepts(events[released - 1]));
    assert(phases[released - 1 + 1] == phases[released - 1].after(events[released - 1]));
}

/// A subscriber that sees the run finished returns, whether or not it was told to
/// go, and whether or not it has given up its lease.
pub proof fn law_finished_run_lets_its_subscribers_go(
    phases: Seq<SubscriberPhase>,
    events: Seq<SubscriberEvent>,
    i: int,
)
    requires
        is_run(phases, events),
        0 <= i < events.len(),
        events[i] matches SubscriberEvent::Flags { finished, .. } && finished,
    ensures
        phases[i + 1] is Finished,
        phases.len() == i + 2,
{
    assert(phases[i].accepts(events[i]));
    assert(phases[i + 1] == phases[i].after(events[i]));
    if i + 1 < events.len() {
        assert(phases[i + 1].accepts(events[i + 1]));
    }
}

/// A subscriber that is not told to go looks at the run again and again until it
/// is finished: a look that shows neither makes it pause, and after the pause it
/// looks again.
pub proof fn law_subscriber_watches_until_it_may_go(
    phases: Seq<SubscriberPhase>,
    events: Seq<SubscriberEvent>,
    i: int,
)
    requires
        is_run(phases, events),
        0 <= i < events.len(),
    ensures
        events[i] == (SubscriberEvent::Flags { finished: false, cancelled: false }) ==> {
            &&& !(phases[i + 1] is Finished)
            &&& !(phases[i + 1] is Leaving)
            &&& phases[i] is Watching ==> phases[i + 1] is Pausing
            &&& phases[i] is Draining ==> phases[i + 1] is DrainPausing
        },
        events[i] is Slept ==> {
            &&& phases[i] is Pausing ==> phases[i + 1] is Watching
            &&& phases[i] is DrainPausing ==> phases[i + 1] is Draining
        },
{
    assert(phases[i].accepts(events[i]));
    assert(phases[i + 1] == phases[i].after(events[i]));
}

/// A subscriber that is told to go gives up its lease at once, unless the run is
/// finished or the lease is given up already; then it returns, unless it was the
/// last one.
pub proof fn law_subscriber_goes_when_told(
    phases: Seq<SubscriberPhase>,
    events: Seq<SubscriberEvent>,
    i: int,
)
    requires
        is_run(phases, events),
        0 <= i < events.len(),
    ensures
        events[i] == (SubscriberEvent::Flags { finished: false, cancelled: true })
            && phases[i] is Watching ==> phases[i + 1] is Leaving,
        events[i] == (SubscriberEvent::Flags { finished: false, cancelled: true })
            && phases[i] is Draining ==> phases[i + 1] is DrainPausing,
        events[i] == (SubscriberEvent::Released { last: false }) ==> phases[i + 1] is Finished,
        events[i] == (SubscriberEvent::Released { last: true }) ==> phases[i + 1] is Draining,
{
    assert(phases[i].accepts(events[i]));
    assert(phases[i + 1] == phases[i].after(events[i]));
}

/// A subscriber gives up its lease at most once.
pub proof fn law_lease_is_given_up_once(
    phases: Seq<SubscriberPhase>,
    events: Seq<SubscriberEvent>,
    i: int,
    j: int,
)
    requires
        is_run(phases, events),
        0 <= i < j < events.len(),
        events[i] is Released,
    ensures
        !(events[j] is Released),
{
    lemma_never_leaves_again(phases, events, i, j);
    assert(phases[j].accepts(events[j]));
}

proof fn lemma_never_leaves_again(
    phases: Seq<SubscriberPhase>,
    events: Seq<SubscriberEvent>,
    released: int,
    n: int,
)
    requires
        is_run(phases, events),
        0 <= released < n < phases.len(),
        events[released] is Released,
    ensures
        phases[n] is Draining || phases[n] is DrainPausing || phases[n] is Finished,
    decreases n,
{
    assert(phases[n - 1].accepts(events[n - 1]));
    assert(phases[n - 1 + 1] == phases[n - 1].after(events[n - 1]));
    if released < n - 1 {
        lemma_never_leaves_again(phases, events, released, n - 1);
    }
}

/// Whatever comes of what a phase asks for is an event that it accepts.
pub proof fn law_every_outcome_is_accepted(phase: SubscriberPhase, event: SubscriberEvent)
    ensures
        (phase is Watching || phase is Draining) && event is Flags ==> phase.accepts(event),
        (phase is Pausing || phase is DrainPausing) && event is Slept ==> phase.accepts(event),
        phase is Leaving && event is Released ==> phase.accepts(event),
        phase is Finished ==> !phase.accepts(event),
{
}

} // verus!
