//! What holds of a registry however subscribers come and go.

use crate::startup_pack::registry::{RegistryView, SharedLocalPrefetch};
use vstd::prelude::*;

verus! {

/// What can happen to a registry.
pub enum LeaseStep {
    /// A subscriber of the identity comes.
    Acquire { identity: Seq<char> },
    /// A lease on the run is released.
    Release { run: u64 },
    /// The worker of the run is told to stop, or stops by itself.
    Cancel { run: u64 },
    /// The worker of the run is done.
    Finish { run: u64 },
    /// Someone takes one more hold on the run.
    Hold { run: u64 },
    /// Someone lets a hold on the run go.
    DropHold { run: u64 },
}

/// A registry and the leases that were taken on it.
#[verifier::ext_equal]
pub struct Ledger {
    pub registry: RegistryView,
    /// Number of leases on each run that were taken and not released.
    pub leases: Map<u64, nat>,
    /// The identity under which each run was started.
    pub names: Map<u64, Seq<char>>,
    /// The runs that were cancelled other than by their last release.
    pub stopped: Set<u64>,
}

impl Ledger {
    /// A registry without runs.
    pub open spec fn empty() -> Ledger {
        Ledger {
            registry: RegistryView { serving: Map::empty(), runs: Map::empty(), holds: Map::empty(), next_run: 0 },
            leases: Map::empty(),
            names: Map::empty(),
            stopped: Set::empty(),
        }
    }

    /// Whether the step can happen: only what is leased is released, a lease
    /// keeps a hold of its own, and no count runs over.
    pub open spec fn accepts(self, step: LeaseStep) -> bool {
        match step {
            LeaseStep::Acquire { identity } => {
                &&& self.registry.has_room(identity)
                &&& self.registry.joins(identity)
                    ==> self.registry.runs[self.registry.serving[identity]].subscribers
                    < usize::MAX
            },
            LeaseStep::Release { run } => self.leases.contains_key(run) && self.leases[run] > 0,
            LeaseStep::Cancel { run } => self.registry.runs.contains_key(run),
            LeaseStep::Finish { run } => self.registry.runs.contains_key(run),
            LeaseStep::Hold { run } => self.registry.runs.contains_key(run)
                && self.registry.holds[run] < usize::MAX,
            LeaseStep::DropHold { run } => self.registry.runs.contains_key(run)
                && self.registry.holds[run] > self.leases[run],
        }
    }

    /// What is known after the step.
    pub open spec fn after(self, step: LeaseStep) -> Ledger {
        match step {
            LeaseStep::Acquire { identity } => {
                let run = self.registry.run_for(identity);
                Ledger {
                    registry: self.registry.acquired(identity),
                    leases: self.leases.insert(
                        run,
                        if self.registry.joins(identity) {
                            self.leases[run] + 1
                        } else {
                            1
                        },
                    ),
                    names: self.names.insert(run, identity),
                    ..self
                }
            },
            LeaseStep::Release { run } => Ledger {
                registry: self.registry.released(self.names[run], run),
                leases: self.leases.insert(run, (self.leases[run] - 1) as nat),
                ..self
            },
            LeaseStep::Cancel { run } => Ledger {
                registry: RegistryView {
                    runs: self.registry.runs.insert(
                        run,
                        SharedLocalPrefetch { cancel: true, ..self.registry.runs[run] },
                    ),
                    ..self.registry
                },
                stopped: self.stopped.insert(run),
                ..self
            },
            LeaseStep::Finish { run } => Ledger {
                registry: RegistryView {
                    runs: self.registry.runs.insert(
                        run,
                        SharedLocalPrefetch { finished: true, ..self.registry.runs[run] },
                    ),
                    ..self.registry
                },
                ..self
            },
            LeaseStep::Hold { run } => Ledger { registry: self.registry.held(run), ..self },
            LeaseStep::DropHold { run } => if self.registry.holds[run] == 1 {
                Ledger {
                    registry: self.registry.dropped(run),
                    leases: self.leases.remove(run),
                    names: self.names.remove(run),
                    ..self
                }
            } else {
                Ledger { registry: self.registry.dropped(run), ..self }
            },
        }
    }

    /// Whether a run is counted right: it has as many subscribers as there are
    /// leases on it and at least as many holds, and it is cancelled exactly
    /// when there are no leases or when it was stopped.
    pub open spec fn counts(self, run: u64) -> bool {
        &&& self.leases.contains_key(run)
        &&& self.names.contains_key(run)
        &&& self.registry.runs[run].subscribers == self.leases[run]
        &&& self.leases[run] <= self.registry.holds[run]
        &&& self.registry.runs[run].cancel <==> self.leases[run] == 0 || self.stopped.contains(run)
    }

    /// What holds of every ledger.
    pub open spec fn wf(self) -> bool {
        &&& self.registry.wf()
        &&& forall|run: u64| #[trigger] self.registry.runs.contains_key(run) ==> self.counts(run)
        &&& forall|run: u64| #[trigger]
            self.leases.contains_key(run) ==> self.registry.runs.contains_key(run)
        &&& forall|run: u64| #[trigger] self.stopped.contains(run) ==> run < self.registry.next_run
        &&& forall|identity: Seq<char>| #[trigger]
            self.registry.serving.contains_key(identity) ==> {
                &&& self.leases[self.registry.serving[identity]] > 0
                &&& self.names[self.registry.serving[identity]] == identity
            }
    }
}

/// Whether `ledgers` is the history of a registry that saw exactly `steps`.
pub open spec fn is_history(ledgers: Seq<Ledger>, steps: Seq<LeaseStep>) -> bool {
    &&& ledgers.len() == steps.len() + 1
    &&& ledgers[0] == Ledger::empty()
    &&& forall|i: int|
        0 <= i < steps.len() ==> ledgers[i].accepts(#[trigger] steps[i]) && ledgers[i + 1]
            == ledgers[i].after(steps[i])
}

proof fn lemma_acquire_keeps_wf(ledger: Ledger, identity: Seq<char>)
    requires
        ledger.wf(),
        ledger.accepts(LeaseStep::Acquire { identity }),
    ensures
        ledger.after(LeaseStep::Acquire { identity }).wf(),
{
    let now = ledger.after(LeaseStep::Acquire { identity });
    let run = ledger.registry.run_for(identity);
    let old = ledger.registry;
    let new = now.registry;
    if old.joins(identity) {
        assert(old.serving.contains_key(identity));
        assert(old.runs.contains_key(run));
        assert(ledger.counts(run));
    }
    assert forall|j: Seq<char>, k: Seq<char>|
        #![trigger new.serving.contains_key(j), new.serving.contains_key(k)]
        new.serving.contains_key(j) && new.serving.contains_key(k) && new.serving[j]
            == new.serving[k] implies j == k by {
        if j != identity {
            assert(old.serving.contains_key(j));
        }
        if k != identity {
            assert(old.serving.contains_key(k));
        }
    }
    assert forall|other: u64| #[trigger] new.runs.contains_key(other) implies now.counts(other)
        && other < new.next_run by {
        if other != run {
            assert(old.runs.contains_key(other));
            assert(ledger.counts(other));
        }
    }
    assert forall|other: u64| #[trigger] now.leases.contains_key(other) implies
        new.runs.contains_key(other) by {
        if other != run {
            assert(ledger.leases.contains_key(other));
        }
    }
    assert forall|k: Seq<char>| #[trigger] new.serving.contains_key(k) implies
        new.runs.contains_key(new.serving[k]) && now.leases[new.serving[k]] > 0
        && now.names[new.serving[k]] == k by {
        if k != identity {
            assert(old.serving.contains_key(k));
            assert(old.runs.contains_key(old.serving[k]));
            if old.joins(identity) {
                assert(old.serving[k] != run);
            }
        }
    }
}

proof fn lemma_release_keeps_wf(ledger: Ledger, run: u64)
    requires
        ledger.wf(),
        ledger.accepts(LeaseStep::Release { run }),
    ensures
        ledger.after(LeaseStep::Release { run }).wf(),
{
    let now = ledger.after(LeaseStep::Release { run });
    let old = ledger.registry;
    let new = now.registry;
    assert(old.runs.contains_key(run));
    assert(ledger.counts(run));
    assert forall|j: Seq<char>, k: Seq<char>|
        #![trigger new.serving.contains_key(j), new.serving.contains_key(k)]
        new.serving.contains_key(j) && new.serving.contains_key(k) && new.serving[j]
            == new.serving[k] implies j == k by {
        assert(old.serving.contains_key(j) && old.serving.contains_key(k));
    }
    assert forall|other: u64| #[trigger] new.runs.contains_key(other) implies now.counts(other)
        && other < new.next_run by {
        assert(old.runs.contains_key(other));
        assert(ledger.counts(other));
    }
    assert forall|other: u64| #[trigger] now.leases.contains_key(other) implies
        new.runs.contains_key(other) by {
        assert(ledger.leases.contains_key(other));
    }
    assert forall|k: Seq<char>| #[trigger] new.serving.contains_key(k) implies
        new.runs.contains_key(new.serving[k]) && now.leases[new.serving[k]] > 0
        && now.names[new.serving[k]] == k by {
        assert(old.serving.contains_key(k));
        assert(old.runs.contains_key(old.serving[k]));
    }
}

proof fn lemma_mark_keeps_wf(ledger: Ledger, step: LeaseStep)
    requires
        ledger.wf(),
        ledger.accepts(step),
        step is Cancel || step is Finish,
    ensures
        ledger.after(step).wf(),
{
    let now = ledger.after(step);
    let old = ledger.registry;
    let new = now.registry;
    assert forall|other: u64| #[trigger] new.runs.contains_key(other) implies now.counts(other)
        && other < new.next_run by {
        assert(old.runs.contains_key(other));
        assert(ledger.counts(other));
    }
    assert forall|other: u64| #[trigger] now.leases.contains_key(other) implies
        new.runs.contains_key(other) by {
        assert(ledger.leases.contains_key(other));
    }
    assert forall|j: Seq<char>, k: Seq<char>|
        #![trigger new.serving.contains_key(j), new.serving.contains_key(k)]
        new.serving.contains_key(j) && new.serving.contains_key(k) && new.serving[j]
            == new.serving[k] implies j == k by {
        assert(old.serving.contains_key(j) && old.serving.contains_key(k));
    }
    assert forall|k: Seq<char>| #[trigger] new.serving.contains_key(k) implies
        new.runs.contains_key(new.serving[k]) && now.leases[new.serving[k]] > 0
        && now.names[new.serving[k]] == k by {
        assert(old.serving.contains_key(k));
        assert(old.runs.contains_key(old.serving[k]));
    }
}

proof fn lemma_holds_keep_wf(ledger: Ledger, step: LeaseStep)
    requires
        ledger.wf(),
        ledger.accepts(step),
        step is Hold || step is DropHold,
    ensures
        ledger.after(step).wf(),
{
    let now = ledger.after(step);
    let old = ledger.registry;
    let new = now.registry;
    assert forall|other: u64| #[trigger] new.runs.contains_key(other) implies now.counts(other)
        && other < new.next_run by {
        assert(old.runs.contains_key(other));
        assert(ledger.counts(other));
    }
    assert forall|other: u64| #[trigger] now.leases.contains_key(other) implies
        new.runs.contains_key(other) by {
        assert(ledger.leases.contains_key(other));
    }
    assert forall|j: Seq<char>, k: Seq<char>|
        #![trigger new.serving.contains_key(j), new.serving.contains_key(k)]
        new.serving.contains_key(j) && new.serving.contains_key(k) && new.serving[j]
            == new.serving[k] implies j == k by {
        assert(old.serving.contains_key(j) && old.serving.contains_key(k));
    }
    assert forall|k: Seq<char>| #[trigger] new.serving.contains_key(k) implies
        new.runs.contains_key(new.serving[k]) && now.leases[new.serving[k]] > 0
        && now.names[new.serving[k]] == k by {
        assert(old.serving.contains_key(k));
        assert(old.runs.contains_key(old.serving[k]));
    }
}

/// However subscribers and holds come and go, every run on which there is a
/// lease is known, and every run that is known has as many subscribers as there
/// are leases on it, is cancelled exactly when there are none or when it was
/// stopped, and is in service only for the identity under which it was started
/// and only while there are leases on it.
pub proof fn law_every_lease_is_accounted_for(ledgers: Seq<Ledger>, steps: Seq<LeaseStep>, n: int)
    requires
        is_history(ledgers, steps),
        0 <= n < ledgers.len(),
    ensures
        ledgers[n].wf(),
    decreases n,
{
    if n > 0 {
        law_every_lease_is_accounted_for(ledgers, steps, n - 1);
        let before = ledgers[n - 1];
        let step = steps[n - 1];
        assert(before.accepts(step) && ledgers[n - 1 + 1] == before.after(step));
        match step {
            LeaseStep::Acquire { identity } => lemma_acquire_keeps_wf(before, identity),
            LeaseStep::Release { run } => lemma_release_keeps_wf(before, run),
            LeaseStep::Hold { .. } | LeaseStep::DropHold { .. } => lemma_holds_keep_wf(
                before,
                step,
            ),
            _ => lemma_mark_keeps_wf(before, step),
        }
    }
}

/// Whichever comes first, a subscriber that comes while a lease is released
/// gets a run that is not cancelled and that stays so.
pub proof fn law_newcomer_is_spared_by_a_release(
    registry: RegistryView,
    identity: Seq<char>,
    run: u64,
)
    requires
        registry.wf(),
        registry.next_run < u64::MAX,
        registry.runs.contains_key(run),
        0 < registry.runs[run].subscribers < usize::MAX,
    ensures
        ({
            let got = registry.run_for(identity);
            !registry.acquired(identity).released(identity, run).runs[got].cancel
        }),
        ({
            let released = registry.released(identity, run);
            !released.acquired(identity).runs[released.run_for(identity)].cancel
        }),
{
}

} // verus!
