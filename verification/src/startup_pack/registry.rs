//! Which restores share which prefetch.
//!
//! Restores that would read the same blocks share one run. A run is cancelled
//! when its last subscriber leaves, and from then on nobody joins it: a new
//! restore starts a run of its own. A run is known for as long as someone holds
//! it: its subscribers, its worker, its reads. The registry is meant to be used under one
//! lock, so that joining and leaving never interleave.

use std::collections::BTreeMap;
use vstd::prelude::*;

verus! {

/// The state of a shared run.
#[derive(Clone, Copy, Debug, PartialEq, Eq)]
pub struct SharedLocalPrefetch {
    /// Number of leases that were taken and not released.
    pub subscribers: usize,
    /// Whether no further read is to be handed out.
    pub cancel: bool,
    /// Whether the worker is done with every read it handed out.
    pub finished: bool,
}

/// An identity and the run that serves it.
struct RegistryEntry {
    identity: String,
    run: u64,
}

/// The runs that are known, and the run that serves each identity.
pub struct PrefetchRegistry {
    entries: Vec<RegistryEntry>,
    runs: BTreeMap<u64, SharedLocalPrefetch>,
    holds: BTreeMap<u64, usize>,
    next_run: u64,
}

/// What a registry holds.
#[verifier::ext_equal]
pub struct RegistryView {
    /// The run that serves an identity.
    pub serving: Map<Seq<char>, u64>,
    /// The state of each run that someone still holds.
    pub runs: Map<u64, SharedLocalPrefetch>,
    /// How many holds there are on each run.
    pub holds: Map<u64, usize>,
    /// The number of the next run to be started.
    pub next_run: u64,
}

impl RegistryView {
    /// A serving run exists, serves one identity only, run numbers are never
    /// used twice, and a run is known exactly while there is a hold on it.
    pub open spec fn wf(self) -> bool {
        &&& forall|k: Seq<char>| #[trigger]
            self.serving.contains_key(k) ==> self.runs.contains_key(self.serving[k])
        &&& forall|j: Seq<char>, k: Seq<char>|
            #![trigger self.serving.contains_key(j), self.serving.contains_key(k)]
            self.serving.contains_key(j) && self.serving.contains_key(k) && self.serving[j]
                == self.serving[k] ==> j == k
        &&& forall|run: u64| #[trigger] self.runs.contains_key(run) ==> run < self.next_run
        &&& forall|run: u64|
            #![trigger self.runs.contains_key(run)]
            #![trigger self.holds.contains_key(run)]
            self.runs.contains_key(run) <==> self.holds.contains_key(run)
        &&& forall|run: u64| #[trigger] self.holds.contains_key(run) ==> self.holds[run] > 0
    }

    /// Whether neither the run numbers nor the holds run over when a
    /// subscriber of the identity comes.
    pub open spec fn has_room(self, identity: Seq<char>) -> bool {
        &&& self.next_run < u64::MAX
        &&& self.joins(identity) ==> self.holds[self.serving[identity]] < usize::MAX
    }

    /// Whether a new subscriber of the identity joins a run that is under way.
    pub open spec fn joins(self, identity: Seq<char>) -> bool {
        &&& self.serving.contains_key(identity)
        &&& !self.runs[self.serving[identity]].cancel
        &&& !self.runs[self.serving[identity]].finished
    }

    /// The run that a new subscriber of the identity gets.
    pub open spec fn run_for(self, identity: Seq<char>) -> u64 {
        if self.joins(identity) {
            self.serving[identity]
        } else {
            self.next_run
        }
    }

    /// What the registry holds after a subscriber of the identity came, who
    /// has a hold on the run.
    pub open spec fn acquired(self, identity: Seq<char>) -> RegistryView {
        if self.joins(identity) {
            let run = self.serving[identity];
            let state = self.runs[run];
            RegistryView {
                runs: self.runs.insert(
                    run,
                    SharedLocalPrefetch {
                        subscribers: state.subscribers.wrapping_add(1),
                        ..state
                    },
                ),
                holds: self.holds.insert(run, (self.holds[run] + 1) as usize),
                ..self
            }
        } else {
            RegistryView {
                serving: self.serving.insert(identity, self.next_run),
                runs: self.runs.insert(
                    self.next_run,
                    SharedLocalPrefetch { subscribers: 1, cancel: false, finished: false },
                ),
                holds: self.holds.insert(self.next_run, 1),
                next_run: (self.next_run + 1) as u64,
            }
        }
    }

    /// What the registry holds after a lease on the run was released. The
    /// last release cancels the run and takes it out of service.
    pub open spec fn released(self, identity: Seq<char>, run: u64) -> RegistryView {
        let state = self.runs[run];
        let last = state.subscribers == 1;
        RegistryView {
            serving: if last && self.serving.contains_key(identity) && self.serving[identity]
                == run {
                self.serving.remove(identity)
            } else {
                self.serving
            },
            runs: self.runs.insert(
                run,
                SharedLocalPrefetch {
                    subscribers: state.subscribers.wrapping_sub(1),
                    cancel: state.cancel || last,
                    ..state
                },
            ),
            ..self
        }
    }

    /// What the registry holds after a run was forgotten.
    pub open spec fn retired(self, run: u64) -> RegistryView {
        RegistryView {
            serving: Map::new(
                |identity: Seq<char>|
                    self.serving.contains_key(identity) && self.serving[identity] != run,
                |identity: Seq<char>| self.serving[identity],
            ),
            runs: self.runs.remove(run),
            holds: self.holds.remove(run),
            ..self
        }
    }

    /// What the registry holds after one more hold on the run.
    pub open spec fn held(self, run: u64) -> RegistryView {
        RegistryView { holds: self.holds.insert(run, (self.holds[run] + 1) as usize), ..self }
    }

    /// What the registry holds after a hold on the run went. With the last
    /// one, the run is forgotten.
    pub open spec fn dropped(self, run: u64) -> RegistryView {
        if self.holds[run] == 1 {
            self.retired(run)
        } else {
            RegistryView { holds: self.holds.insert(run, (self.holds[run] - 1) as usize), ..self }
        }
    }
}

/// Taking identities out of service, and runs that serve none, keeps order.
proof fn lemma_smaller_view_is_well_formed(before: RegistryView, after: RegistryView)
    requires
        before.wf(),
        after.next_run == before.next_run,
        forall|run: u64| #[trigger] after.runs.contains_key(run) ==> before.runs.contains_key(run),
        forall|run: u64|
            #![trigger after.runs.contains_key(run)]
            #![trigger after.holds.contains_key(run)]
            after.runs.contains_key(run) <==> after.holds.contains_key(run),
        forall|run: u64| #[trigger]
            after.holds.contains_key(run) ==> before.holds.contains_key(run) && after.holds[run]
                == before.holds[run],
        forall|k: Seq<char>| #[trigger]
            after.serving.contains_key(k) ==> before.serving.contains_key(k) && after.serving[k]
                == before.serving[k] && after.runs.contains_key(after.serving[k]),
    ensures
        after.wf(),
{
    assert forall|j: Seq<char>, k: Seq<char>|
        #![trigger after.serving.contains_key(j), after.serving.contains_key(k)]
        after.serving.contains_key(j) && after.serving.contains_key(k) && after.serving[j]
            == after.serving[k] implies j == k by {
        assert(before.serving.contains_key(j) && before.serving.contains_key(k));
    }
}

/// Counting the holds on a known run anew keeps order.
proof fn lemma_counted_view_is_well_formed(before: RegistryView, run: u64, count: usize)
    requires
        before.wf(),
        before.runs.contains_key(run),
        count > 0,
    ensures
        (RegistryView { holds: before.holds.insert(run, count), ..before }).wf(),
{
    let after = RegistryView { holds: before.holds.insert(run, count), ..before };
    assert forall|k: Seq<char>| #[trigger] after.serving.contains_key(k) implies
        after.runs.contains_key(after.serving[k]) by {
        assert(before.serving.contains_key(k));
    }
    assert forall|j: Seq<char>, k: Seq<char>|
        #![trigger after.serving.contains_key(j), after.serving.contains_key(k)]
        after.serving.contains_key(j) && after.serving.contains_key(k) && after.serving[j]
            == after.serving[k] implies j == k by {
        assert(before.serving.contains_key(j) && before.serving.contains_key(k));
    }
    assert forall|other: u64| #[trigger] after.holds.contains_key(other) implies
        after.runs.contains_key(other) && after.holds[other] > 0 by {
        if other != run {
            assert(before.holds.contains_key(other));
        }
    }
    assert forall|other: u64| #[trigger] after.runs.contains_key(other) implies
        after.holds.contains_key(other) by {
        assert(before.runs.contains_key(other));
    }
}

/// Whether the entry at `i` is about the identity.
spec fn entry_is(entries: Seq<RegistryEntry>, i: int, identity: Seq<char>) -> bool {
    0 <= i < entries.len() && entries[i].identity@ == identity
}

/// The run that serves each identity, as the entries have it.
spec fn serving_of(entries: Seq<RegistryEntry>) -> Map<Seq<char>, u64> {
    Map::new(
        |identity: Seq<char>| exists|i: int| entry_is(entries, i, identity),
        |identity: Seq<char>| entries[choose|i: int| entry_is(entries, i, identity)].run,
    )
}

/// Whether no identity has two entries.
spec fn entries_are_distinct(entries: Seq<RegistryEntry>) -> bool {
    forall|i: int, j: int|
        0 <= i < j < entries.len() ==> (#[trigger] entries[i]).identity@ != (
        #[trigger] entries[j]).identity@
}

proof fn lemma_entry_serves(entries: Seq<RegistryEntry>, i: int)
    requires
        entries_are_distinct(entries),
        0 <= i < entries.len(),
    ensures
        serving_of(entries).contains_key(entries[i].identity@),
        serving_of(entries)[entries[i].identity@] == entries[i].run,
{
    let identity = entries[i].identity@;
    assert(entry_is(entries, i, identity));
    let j = choose|j: int| entry_is(entries, j, identity);
    assert(i == j);
}

proof fn lemma_entry_pushed(entries: Seq<RegistryEntry>, entry: RegistryEntry)
    requires
        entries_are_distinct(entries),
        !serving_of(entries).contains_key(entry.identity@),
    ensures
        entries_are_distinct(entries.push(entry)),
        serving_of(entries.push(entry)) == serving_of(entries).insert(entry.identity@, entry.run),
{
    let all = entries.push(entry);
    assert forall|i: int, j: int| 0 <= i < j < all.len() implies (#[trigger] all[i]).identity@ != (
    #[trigger] all[j]).identity@ by {
        if j == entries.len() {
            if all[i].identity@ == entry.identity@ {
                assert(entry_is(entries, i, entry.identity@));
            }
        }
    }
    let want = serving_of(entries).insert(entry.identity@, entry.run);
    assert forall|k: Seq<char>| #[trigger]
        serving_of(all).contains_key(k) <==> want.contains_key(k) by {
        if serving_of(all).contains_key(k) {
            let i = choose|i: int| entry_is(all, i, k);
            if i < entries.len() {
                assert(entry_is(entries, i, k));
            }
        }
        if want.contains_key(k) {
            if k == entry.identity@ {
                assert(entry_is(all, entries.len() as int, k));
            } else {
                let i = choose|i: int| entry_is(entries, i, k);
                assert(entry_is(all, i, k));
            }
        }
    }
    assert forall|k: Seq<char>| #[trigger] serving_of(all).contains_key(k) implies serving_of(
        all,
    )[k] == want[k] by {
        let i = choose|i: int| entry_is(all, i, k);
        lemma_entry_serves(all, i);
        if i < entries.len() {
            lemma_entry_serves(entries, i);
            assert(entry_is(entries, i, k));
        }
    }
    assert(serving_of(all) =~= want);
}

proof fn lemma_entry_removed(entries: Seq<RegistryEntry>, at: int)
    requires
        entries_are_distinct(entries),
        0 <= at < entries.len(),
    ensures
        entries_are_distinct(entries.remove(at)),
        serving_of(entries.remove(at)) == serving_of(entries).remove(entries[at].identity@),
{
    let rest = entries.remove(at);
    let gone = entries[at].identity@;
    assert forall|i: int, j: int| 0 <= i < j < rest.len() implies (#[trigger] rest[i]).identity@
        != (#[trigger] rest[j]).identity@ by {
        let a = if i < at { i } else { i + 1 };
        let b = if j < at { j } else { j + 1 };
        assert(rest[i] == entries[a]);
        assert(rest[j] == entries[b]);
    }
    let want = serving_of(entries).remove(gone);
    assert forall|k: Seq<char>| #[trigger]
        serving_of(rest).contains_key(k) <==> want.contains_key(k) by {
        if serving_of(rest).contains_key(k) {
            let i = choose|i: int| entry_is(rest, i, k);
            let a = if i < at { i } else { i + 1 };
            assert(rest[i] == entries[a]);
            assert(entry_is(entries, a, k));
            if a < at {
                assert(entries[a].identity@ != entries[at].identity@);
            } else {
                assert(entries[at].identity@ != entries[a].identity@);
            }
        }
        if want.contains_key(k) {
            let a = choose|a: int| entry_is(entries, a, k);
            let i = if a < at { a } else { a - 1 };
            assert(rest[i] == entries[a]);
            assert(entry_is(rest, i, k));
        }
    }
    assert forall|k: Seq<char>| #[trigger] serving_of(rest).contains_key(k) implies serving_of(
        rest,
    )[k] == want[k] by {
        let i = choose|i: int| entry_is(rest, i, k);
        let a = if i < at { i } else { i + 1 };
        assert(rest[i] == entries[a]);
        lemma_entry_serves(rest, i);
        lemma_entry_serves(entries, a);
    }
    assert(serving_of(rest) =~= want);
}

impl PrefetchRegistry {
    /// What the registry holds.
    pub closed spec fn view(&self) -> RegistryView {
        RegistryView {
            serving: serving_of(self.entries@),
            runs: self.runs@,
            holds: self.holds@,
            next_run: self.next_run,
        }
    }

    /// Whether the registry is in order.
    pub closed spec fn wf(&self) -> bool {
        &&& entries_are_distinct(self.entries@)
        &&& self@.wf()
    }

    /// A registry that is in order holds what the laws below ask of it.
    pub proof fn law_order_is_kept_in_what_is_held(&self)
        requires
            self.wf(),
        ensures
            self@.wf(),
    {
    }

    /// A registry without runs.
    pub fn new() -> (registry: PrefetchRegistry)
        ensures
            registry.wf(),
            registry@ == (RegistryView {
                serving: Map::empty(),
                runs: Map::empty(),
                holds: Map::empty(),
                next_run: 0,
            }),
    {
        let registry = PrefetchRegistry {
            entries: Vec::new(),
            runs: BTreeMap::new(),
            holds: BTreeMap::new(),
            next_run: 0,
        };
        proof {
            assert(serving_of(registry.entries@) =~= Map::empty());
        }
        registry
    }

    /// The position of the identity's entry.
    fn position(&self, identity: &String) -> (found: Option<usize>)
        requires
            self.wf(),
        ensures
            match found {
                Some(i) => i < self.entries@.len() && self.entries@[i as int].identity@ == identity@
                    && self@.serving.contains_key(identity@) && self@.serving[identity@]
                    == self.entries@[i as int].run,
                None => !self@.serving.contains_key(identity@),
            },
    {
        let mut i: usize = 0;
        while i < self.entries.len()
            invariant
                self.wf(),
                i <= self.entries@.len(),
                forall|j: int| 0 <= j < i ==> (#[trigger] self.entries@[j]).identity@ != identity@,
            decreases self.entries@.len() - i,
        {
            if self.entries[i].identity == *identity {
                proof {
                    lemma_entry_serves(self.entries@, i as int);
                }
                return Some(i);
            }
            i += 1;
        }
        None
    }

    /// The state of a run.
    pub fn run(&self, run: u64) -> (state: Option<SharedLocalPrefetch>)
        ensures
            state == (if self@.runs.contains_key(run) {
                Some(self@.runs[run])
            } else {
                None
            }),
    {
        match self.runs.get(&run) {
            Some(state) => Some(*state),
            None => None,
        }
    }

    /// The run that serves an identity.
    pub fn serving(&self, identity: &String) -> (run: Option<u64>)
        requires
            self.wf(),
        ensures
            run == (if self@.serving.contains_key(identity@) {
                Some(self@.serving[identity@])
            } else {
                None
            }),
    {
        match self.position(identity) {
            Some(i) => Some(self.entries[i].run),
            None => None,
        }
    }

    /// How many holds there are on a run; none on one that is not known.
    pub fn hold_count(&self, run: u64) -> (count: usize)
        requires
            self.wf(),
        ensures
            count == (if self@.runs.contains_key(run) {
                self@.holds[run]
            } else {
                0
            }),
            self@.runs.contains_key(run) <==> count > 0,
    {
        match self.holds.get(&run) {
            Some(count) => *count,
            None => 0,
        }
    }

    /// Whether a subscriber of the identity can come.
    pub fn has_room(&self, identity: &String) -> (room: bool)
        requires
            self.wf(),
        ensures
            room == self@.has_room(identity@),
    {
        if self.next_run == u64::MAX {
            return false;
        }
        match self.serving(identity) {
            None => true,
            Some(run) => match self.run(run) {
                None => true,
                Some(state) => state.cancel || state.finished || self.hold_count(run) < usize::MAX,
            },
        }
    }

    /// Subscribes to the run that serves the identity, and starts one where
    /// there is none or where it is cancelled or finished. Tells the run, on
    /// which the subscriber has a hold, and whether it was started.
    pub fn acquire_local_prefetch(&mut self, identity: String) -> (got: (u64, bool))
        requires
            old(self).wf(),
            old(self)@.has_room(identity@),
        ensures
            final(self).wf(),
            final(self)@ == old(self)@.acquired(identity@),
            got.0 == old(self)@.run_for(identity@),
            got.1 == !old(self)@.joins(identity@),
            final(self)@.runs.contains_key(got.0),
            !final(self)@.runs[got.0].cancel,
            !final(self)@.runs[got.0].finished,
    {
        let ghost before = self@;
        match self.position(&identity) {
            Some(i) => {
                let run: u64 = self.entries[i].run;
                if let Some(state) = self.run(run) {
                    if !state.cancel && !state.finished {
                        let joined = SharedLocalPrefetch {
                            subscribers: state.subscribers.wrapping_add(1),
                            ..state
                        };
                        let count: usize = self.hold_count(run);
                        self.runs.insert(run, joined);
                        self.holds.insert(run, count + 1);
                        proof {
                            assert(self@ =~= before.acquired(identity@));
                        }
                        return (run, false);
                    }
                }
                let ghost entries = self.entries@;
                self.entries.remove(i);
                proof {
                    lemma_entry_removed(entries, i as int);
                    assert(self@.serving =~= before.serving.remove(identity@));
                }
            },
            None => {
                proof {
                    assert(self@.serving =~= before.serving.remove(identity@));
                }
            },
        }
        let run: u64 = self.next_run;
        let ghost entries = self.entries@;
        let ghost name = identity@;
        let entry = RegistryEntry { identity, run };
        proof {
            lemma_entry_pushed(entries, entry);
        }
        self.entries.push(entry);
        self.runs.insert(
            run,
            SharedLocalPrefetch { subscribers: 1, cancel: false, finished: false },
        );
        self.holds.insert(run, 1);
        self.next_run = run + 1;
        proof {
            assert(before.serving.remove(name).insert(name, run) =~= before.serving.insert(
                name,
                run,
            ));
            assert(self@ =~= before.acquired(name));
        }
        (run, true)
    }

    /// Marks a run as cancelled: nobody joins it any more.
    pub fn cancel_run(&mut self, run: u64)
        requires
            old(self).wf(),
            old(self)@.runs.contains_key(run),
        ensures
            final(self).wf(),
            final(self)@ == (RegistryView {
                runs: old(self)@.runs.insert(
                    run,
                    SharedLocalPrefetch { cancel: true, ..old(self)@.runs[run] },
                ),
                ..old(self)@
            }),
    {
        if let Some(state) = self.run(run) {
            self.runs.insert(run, SharedLocalPrefetch { cancel: true, ..state });
        }
    }

    /// Marks a run as finished: nobody joins it any more.
    pub fn finish_run(&mut self, run: u64)
        requires
            old(self).wf(),
            old(self)@.runs.contains_key(run),
        ensures
            final(self).wf(),
            final(self)@ == (RegistryView {
                runs: old(self)@.runs.insert(
                    run,
                    SharedLocalPrefetch { finished: true, ..old(self)@.runs[run] },
                ),
                ..old(self)@
            }),
    {
        if let Some(state) = self.run(run) {
            self.runs.insert(run, SharedLocalPrefetch { finished: true, ..state });
        }
    }

    /// Takes a run out of service.
    fn unserve(&mut self, at: usize)
        requires
            old(self).wf(),
            at < old(self).entries@.len(),
        ensures
            final(self).wf(),
            final(self)@ == (RegistryView {
                serving: old(self)@.serving.remove(old(self).entries@[at as int].identity@),
                ..old(self)@
            }),
            final(self).entries@ == old(self).entries@.remove(at as int),
    {
        let ghost entries = self.entries@;
        let ghost before = self@;
        self.entries.remove(at);
        proof {
            lemma_entry_removed(entries, at as int);
            assert forall|k: Seq<char>| #[trigger] self@.serving.contains_key(k) implies
                before.serving.contains_key(k) && self@.serving[k] == before.serving[k]
                && self@.runs.contains_key(self@.serving[k]) by {
                assert(before.serving.contains_key(k));
            }
            lemma_smaller_view_is_well_formed(before, self@);
        }
    }

    /// Takes one more hold on a run.
    pub fn hold(&mut self, run: u64)
        requires
            old(self).wf(),
            old(self)@.runs.contains_key(run),
            old(self)@.holds[run] < usize::MAX,
        ensures
            final(self).wf(),
            final(self)@ == old(self)@.held(run),
            final(self)@.runs.contains_key(run),
    {
        let count: usize = self.hold_count(run);
        self.holds.insert(run, count + 1);
        proof {
            lemma_counted_view_is_well_formed(old(self)@, run, (count + 1) as usize);
            assert(self@ =~= old(self)@.held(run));
        }
    }

    /// Lets a hold on a run go. Tells whether it was the last one: then the run
    /// is forgotten, and otherwise it stays known.
    pub fn drop_hold(&mut self, run: u64) -> (gone: bool)
        requires
            old(self).wf(),
            old(self)@.runs.contains_key(run),
        ensures
            final(self).wf(),
            gone == (old(self)@.holds[run] == 1),
            final(self)@ == old(self)@.dropped(run),
            final(self)@.runs.contains_key(run) <==> !gone,
    {
        let count: usize = self.hold_count(run);
        if count == 1 {
            self.retire(run);
            true
        } else {
            self.holds.insert(run, count - 1);
            proof {
                lemma_counted_view_is_well_formed(old(self)@, run, (count - 1) as usize);
                assert(self@ =~= old(self)@.dropped(run));
            }
            false
        }
    }

    /// Forgets a run.
    fn retire(&mut self, run: u64)
        requires
            old(self).wf(),
        ensures
            final(self).wf(),
            final(self)@ == old(self)@.retired(run),
    {
        let mut i: usize = 0;
        while i < self.entries.len()
            invariant
                old(self).wf(),
                *self == *old(self),
                i <= self.entries@.len(),
                forall|j: int| 0 <= j < i ==> (#[trigger] self.entries@[j]).run != run,
            ensures
                i < self.entries@.len() ==> self.entries@[i as int].run == run,
            decreases self.entries@.len() - i,
        {
            if self.entries[i].run == run {
                break;
            }
            i += 1;
        }
        if i < self.entries.len() {
            proof {
                lemma_entry_serves(self.entries@, i as int);
            }
            self.unserve(i);
        } else {
            proof {
                assert forall|identity: Seq<char>| #[trigger]
                    self@.serving.contains_key(identity) implies self@.serving[identity]
                    != run by {
                    let j = choose|j: int| entry_is(self.entries@, j, identity);
                    lemma_entry_serves(self.entries@, j);
                }
            }
        }
        self.runs.remove(&run);
        self.holds.remove(&run);
        proof {
            assert forall|k: Seq<char>| #[trigger] self@.serving.contains_key(k) implies
                old(self)@.serving.contains_key(k) && self@.serving[k] == old(self)@.serving[k]
                && self@.runs.contains_key(self@.serving[k]) by {
                assert(old(self)@.serving.contains_key(k));
                if i < old(self).entries@.len() {
                    assert(old(self)@.serving.contains_key(
                        old(self).entries@[i as int].identity@,
                    ));
                }
            }
            assert forall|other: u64|
                #![trigger self@.runs.contains_key(other)]
                #![trigger self@.holds.contains_key(other)]
                self@.runs.contains_key(other) <==> self@.holds.contains_key(other) by {
                assert(old(self)@.runs.contains_key(other) <==> old(self)@.holds.contains_key(
                    other,
                ));
            }
            lemma_smaller_view_is_well_formed(old(self)@, self@);
            assert(self@ =~= old(self)@.retired(run));
        }
    }
}

/// One subscriber's share in a run.
#[derive(Debug)]
pub struct LocalPrefetchLease {
    /// The identity under which the run was acquired.
    pub identity: String,
    /// The run.
    pub shared: u64,
    /// Whether the share was given up.
    pub released: bool,
}

impl LocalPrefetchLease {
    /// Gives up this share, once. Tells whether it was the last one: then the
    /// run is cancelled, and taken out of service where it still serves this
    /// lease's identity, so that a new restore starts a replacement instead of
    /// joining a run that only drains.
    pub fn release(&mut self, registry: &mut PrefetchRegistry) -> (last: bool)
        requires
            old(registry).wf(),
            !old(self).released ==> old(registry)@.runs.contains_key(old(self).shared),
        ensures
            final(registry).wf(),
            final(self).released,
            final(self).identity == old(self).identity,
            final(self).shared == old(self).shared,
            old(self).released ==> !last && final(registry)@ == old(registry)@,
            !old(self).released ==> {
                &&& last == (old(registry)@.runs[old(self).shared].subscribers == 1)
                &&& final(registry)@ == old(registry)@.released(
                    old(self).identity@,
                    old(self).shared,
                )
            },
    {
        if self.released {
            return false;
        }
        self.released = true;
        let ghost before = registry@;
        let run: u64 = self.shared;
        let state = match registry.run(run) {
            Some(state) => state,
            None => {
                return false;
            },
        };
        let last = state.subscribers == 1;
        registry.runs.insert(
            run,
            SharedLocalPrefetch {
                subscribers: state.subscribers.wrapping_sub(1),
                cancel: state.cancel || last,
                ..state
            },
        );
        proof {
            assert(registry@.runs =~= before.released(self.identity@, run).runs);
        }
        if last {
            if let Some(i) = registry.position(&self.identity) {
                if registry.entries[i].run == run {
                    registry.unserve(i);
                }
            }
        }
        proof {
            assert(registry@ =~= before.released(self.identity@, run));
        }
        last
    }
}

/// Two subscribers of one identity share a run: the first starts it, the
/// second joins it.
pub proof fn law_same_identity_shares_a_run(registry: RegistryView, identity: Seq<char>)
    requires
        registry.wf(),
        registry.next_run < u64::MAX,
    ensures
        registry.acquired(identity).joins(identity),
        registry.acquired(identity).run_for(identity) == registry.run_for(identity),
{
}

/// Different identities never share a run.
pub proof fn law_identities_do_not_share_runs(
    registry: RegistryView,
    one: Seq<char>,
    other: Seq<char>,
)
    requires
        registry.wf(),
        registry.has_room(one),
        one != other,
    ensures
        registry.acquired(one).wf(),
        registry.acquired(one).run_for(other) != registry.run_for(one),
{
    let after = registry.acquired(one);
    assert forall|j: Seq<char>, k: Seq<char>|
        #![trigger after.serving.contains_key(j), after.serving.contains_key(k)]
        after.serving.contains_key(j) && after.serving.contains_key(k) && after.serving[j]
            == after.serving[k] implies j == k by {
        if j != one {
            assert(registry.serving.contains_key(j));
        }
        if k != one {
            assert(registry.serving.contains_key(k));
        }
    }
    if after.joins(other) {
        assert(registry.serving.contains_key(other));
        assert(after.serving.contains_key(one));
    } else if registry.joins(one) {
        assert(registry.serving.contains_key(one));
        assert(registry.runs.contains_key(registry.serving[one]));
    }
}

/// What the registry holds after `n` leases on a run were released.
pub open spec fn released_times(
    registry: RegistryView,
    identity: Seq<char>,
    run: u64,
    n: nat,
) -> RegistryView
    decreases n,
{
    if n == 0 {
        registry
    } else {
        released_times(registry, identity, run, (n - 1) as nat).released(identity, run)
    }
}

/// A subscriber that leaves never cancels the run of those that stay: of a
/// run with `subscribers` leases, releasing fewer leaves it in service and
/// as it was, but for the count.
pub proof fn law_remaining_subscribers_keep_the_run(
    registry: RegistryView,
    identity: Seq<char>,
    run: u64,
    n: nat,
)
    requires
        registry.runs.contains_key(run),
        n < registry.runs[run].subscribers,
    ensures
        ({
            let after = released_times(registry, identity, run, n);
            &&& after.serving == registry.serving
            &&& after.runs.contains_key(run)
            &&& after.runs[run].cancel == registry.runs[run].cancel
            &&& after.runs[run].finished == registry.runs[run].finished
            &&& after.runs[run].subscribers == registry.runs[run].subscribers - n
        }),
    decreases n,
{
    if n > 0 {
        law_remaining_subscribers_keep_the_run(registry, identity, run, (n - 1) as nat);
    }
}

/// Releasing every lease on a run cancels it and takes it out of service, and
/// the next restore of that identity starts another run, which is not
/// cancelled.
pub proof fn law_last_release_retires_the_run(registry: RegistryView, identity: Seq<char>, run: u64)
    requires
        registry.wf(),
        registry.next_run < u64::MAX,
        registry.runs.contains_key(run),
        registry.runs[run].subscribers > 0,
        registry.serving.contains_key(identity),
        registry.serving[identity] == run,
    ensures
        ({
            let after = released_times(
                registry,
                identity,
                run,
                registry.runs[run].subscribers as nat,
            );
            &&& after.runs[run].cancel
            &&& !after.serving.contains_key(identity)
            &&& !after.joins(identity)
            &&& after.run_for(identity) != run
            &&& !after.acquired(identity).runs[after.run_for(identity)].cancel
        }),
{
    let n = registry.runs[run].subscribers as nat;
    law_remaining_subscribers_keep_the_run(registry, identity, run, (n - 1) as nat);
    lemma_release_keeps_next_run(registry, identity, run, n);
}

proof fn lemma_release_keeps_next_run(
    registry: RegistryView,
    identity: Seq<char>,
    run: u64,
    n: nat,
)
    ensures
        released_times(registry, identity, run, n).next_run == registry.next_run,
    decreases n,
{
    if n > 0 {
        lemma_release_keeps_next_run(registry, identity, run, (n - 1) as nat);
    }
}

/// Releasing a run that was replaced leaves the replacement in service.
pub proof fn law_release_spares_the_replacement(
    registry: RegistryView,
    identity: Seq<char>,
    run: u64,
)
    requires
        registry.runs.contains_key(run),
        registry.serving.contains_key(identity),
        registry.serving[identity] != run,
    ensures
        registry.released(identity, run).serving == registry.serving,
        registry.released(identity, run).runs[registry.serving[identity]]
            == registry.runs[registry.serving[identity]],
{
}

/// Who comes for an identity that a run serves joins that run, as long as it is
/// neither cancelled nor finished; else a run of its own is started, under a
/// number that no run had. Either way the run has one subscriber and one hold
/// more than before, and nobody else's run changes.
pub proof fn law_newcomer_joins_or_starts_a_run(
    registry: RegistryView,
    identity: Seq<char>,
    other: u64,
    other_identity: Seq<char>,
)
    requires
        registry.wf(),
        registry.has_room(identity),
    ensures
        ({
            let after = registry.acquired(identity);
            let run = registry.run_for(identity);
            let joined = registry.serving.contains_key(identity)
                && !registry.runs[registry.serving[identity]].cancel
                && !registry.runs[registry.serving[identity]].finished;
            &&& registry.joins(identity) <==> joined
            &&& joined ==> run == registry.serving[identity]
            &&& joined && registry.runs[run].subscribers < usize::MAX ==> after.runs[run]
                == (SharedLocalPrefetch {
                subscribers: (registry.runs[run].subscribers + 1) as usize,
                cancel: false,
                finished: false,
            }) && after.holds[run] == registry.holds[run] + 1
            &&& !joined ==> !registry.runs.contains_key(run) && after.runs[run]
                == (SharedLocalPrefetch { subscribers: 1, cancel: false, finished: false })
                && after.holds[run] == 1
            &&& after.serving.contains_key(identity) && after.serving[identity] == run
            &&& other != run ==> (after.runs.contains_key(other) <==> registry.runs.contains_key(
                other,
            )) && (registry.runs.contains_key(other) ==> after.runs[other] == registry.runs[other]
                && after.holds[other] == registry.holds[other])
            &&& other_identity != identity ==> (after.serving.contains_key(other_identity)
                <==> registry.serving.contains_key(other_identity)) && (
            registry.serving.contains_key(other_identity) ==> after.serving[other_identity]
                == registry.serving[other_identity])
            &&& registry.runs.contains_key(other) ==> other < after.next_run
            &&& run < after.next_run
        }),
{
    if registry.serving.contains_key(identity) {
        assert(registry.runs.contains_key(registry.serving[identity]));
        assert(registry.holds.contains_key(registry.serving[identity]));
    }
    if registry.runs.contains_key(registry.next_run) {
        assert(registry.next_run < registry.next_run);
    }
}

/// Who releases a lease takes one subscriber from its run. With the last one the
/// run is cancelled and serves the identity no more; with any other, the run goes
/// on as it was. No hold is let go, and nobody else's run changes.
pub proof fn law_release_takes_one_subscriber(
    registry: RegistryView,
    identity: Seq<char>,
    run: u64,
    other: u64,
    other_identity: Seq<char>,
)
    requires
        registry.runs.contains_key(run),
        registry.runs[run].subscribers > 0,
    ensures
        ({
            let after = registry.released(identity, run);
            let before = registry.runs[run];
            &&& after.runs.contains_key(run)
            &&& after.runs[run].subscribers == before.subscribers - 1
            &&& after.runs[run].cancel <==> before.cancel || before.subscribers == 1
            &&& after.runs[run].finished == before.finished
            &&& after.holds == registry.holds
            &&& after.next_run == registry.next_run
            &&& other != run ==> (after.runs.contains_key(other) <==> registry.runs.contains_key(
                other,
            )) && after.runs[other] == registry.runs[other]
            &&& after.serving.contains_key(other_identity) <==> registry.serving.contains_key(
                other_identity,
            ) && !(other_identity == identity && registry.serving[identity] == run
                && before.subscribers == 1)
            &&& after.serving.contains_key(other_identity) ==> after.serving[other_identity]
                == registry.serving[other_identity]
        }),
{
}

/// A hold that is taken keeps the run known until it is let go: after both, the
/// registry is as it was; and a run is forgotten, and out of service, exactly
/// when its last hold goes.
pub proof fn law_holds_keep_the_run(
    registry: RegistryView,
    run: u64,
    other: u64,
    identity: Seq<char>,
)
    requires
        registry.wf(),
        registry.runs.contains_key(run),
        registry.holds[run] < usize::MAX,
    ensures
        registry.held(run).runs == registry.runs,
        registry.held(run).serving == registry.serving,
        registry.held(run).dropped(run) == registry,
        ({
            let after = registry.dropped(run);
            &&& after.runs.contains_key(run) <==> registry.holds[run] > 1
            &&& after.runs.contains_key(run) ==> after.runs[run] == registry.runs[run]
                && after.holds[run] == registry.holds[run] - 1
            &&& other != run ==> (after.runs.contains_key(other) <==> registry.runs.contains_key(
                other,
            )) && after.runs[other] == registry.runs[other] && after.holds[other]
                == registry.holds[other]
            &&& after.serving.contains_key(identity) <==> registry.serving.contains_key(identity)
                && !(registry.holds[run] == 1 && registry.serving[identity] == run)
            &&& after.serving.contains_key(identity) ==> after.serving[identity]
                == registry.serving[identity]
            &&& after.next_run == registry.next_run
        }),
{
    assert(registry.holds.contains_key(run));
    assert(registry.held(run).dropped(run) =~= registry);
}

/// There is room unless the run numbers are used up, or the holds of the run that
/// would be joined are.
pub proof fn law_there_is_room_short_of_the_limits(registry: RegistryView, identity: Seq<char>)
    ensures
        registry.next_run < u64::MAX && (registry.serving.contains_key(identity)
            ==> registry.holds[registry.serving[identity]] < usize::MAX) ==> registry.has_room(
            identity,
        ),
{
}

} // verus!
