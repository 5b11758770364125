//! What two scans and the idle bits between them say of each page.

use crate::idle_page_tracking::coalesce;
use crate::idle_page_tracking::error::TrackingError;
use crate::idle_page_tracking::regions::PAGE_SIZE;
use crate::manifest;
use crate::manifest::{
    GuestMemoryRange, GuestMemoryRegion, GuestMemoryWorkingSet, GuestMemoryWorkingSetLimits,
    LINUX_IDLE_PAGE_TRACKER,
};
use crate::ordered;
use std::collections::{BTreeMap, BTreeSet};
use vstd::prelude::*;

verus! {

/// Where a page lay when tracking began.
#[derive(Clone, Copy, Debug, PartialEq, Eq)]
pub struct BaselinePage {
    pub pfn: u64,
}

/// What became of the pages, by GPA.
#[derive(Clone, Debug, PartialEq, Eq)]
pub struct IdlePageTrackingObservation {
    /// Pages that did not move and were touched.
    pub accessed_baseline_gpas: BTreeSet<u64>,
    /// Pages that did not move and were not touched.
    pub still_idle_baseline_gpas: BTreeSet<u64>,
    /// Pages that are present and were not, or not at the same PFN.
    pub newly_present_gpas: BTreeSet<u64>,
    /// Pages that were present and are, at another PFN.
    pub replaced_baseline_gpas: BTreeSet<u64>,
    /// Pages that were present and are not.
    pub no_longer_present_gpas: BTreeSet<u64>,
}

/// What became of the pages, by GPA.
#[verifier::ext_equal]
pub struct ObservationView {
    pub accessed: Set<u64>,
    pub still_idle: Set<u64>,
    pub newly_present: Set<u64>,
    pub replaced: Set<u64>,
    pub no_longer_present: Set<u64>,
}

impl View for IdlePageTrackingObservation {
    type V = ObservationView;

    open spec fn view(&self) -> ObservationView {
        ObservationView {
            accessed: self.accessed_baseline_gpas@,
            still_idle: self.still_idle_baseline_gpas@,
            newly_present: self.newly_present_gpas@,
            replaced: self.replaced_baseline_gpas@,
            no_longer_present: self.no_longer_present_gpas@,
        }
    }
}

impl Default for IdlePageTrackingObservation {
    fn default() -> (observation: IdlePageTrackingObservation)
        ensures
            observation@ == (ObservationView {
                accessed: Set::empty(),
                still_idle: Set::empty(),
                newly_present: Set::empty(),
                replaced: Set::empty(),
                no_longer_present: Set::empty(),
            }),
    {
        IdlePageTrackingObservation {
            accessed_baseline_gpas: BTreeSet::new(),
            still_idle_baseline_gpas: BTreeSet::new(),
            newly_present_gpas: BTreeSet::new(),
            replaced_baseline_gpas: BTreeSet::new(),
            no_longer_present_gpas: BTreeSet::new(),
        }
    }
}

impl ObservationView {
    /// What became of the pages of a set.
    spec fn within(self, gpas: Set<u64>) -> ObservationView {
        ObservationView {
            accessed: self.accessed.intersect(gpas),
            still_idle: self.still_idle.intersect(gpas),
            newly_present: self.newly_present.intersect(gpas),
            replaced: self.replaced.intersect(gpas),
            no_longer_present: self.no_longer_present.intersect(gpas),
        }
    }
}

/// Whether a page was present and still is, at the same PFN.
pub open spec fn is_stable(
    baseline: Map<u64, BaselinePage>,
    current: Map<u64, u64>,
    gpa: u64,
) -> bool {
    &&& baseline.contains_key(gpa)
    &&& current.contains_key(gpa)
    &&& current[gpa] == baseline[gpa].pfn
}

/// Whether a stable page has no idle bit.
pub open spec fn lacks_idle_bit(
    baseline: Map<u64, BaselinePage>,
    current: Map<u64, u64>,
    idle_bits: Map<u64, bool>,
    gpa: u64,
) -> bool {
    is_stable(baseline, current, gpa) && !idle_bits.contains_key(baseline[gpa].pfn)
}

/// What became of the pages.
pub open spec fn observed(
    baseline: Map<u64, BaselinePage>,
    current: Map<u64, u64>,
    idle_bits: Map<u64, bool>,
) -> ObservationView {
    ObservationView {
        accessed: Set::new(
            |gpa: u64| is_stable(baseline, current, gpa) && !idle_bits[baseline[gpa].pfn],
        ),
        still_idle: Set::new(
            |gpa: u64| is_stable(baseline, current, gpa) && idle_bits[baseline[gpa].pfn],
        ),
        newly_present: Set::new(
            |gpa: u64| current.contains_key(gpa) && !is_stable(baseline, current, gpa),
        ),
        replaced: Set::new(
            |gpa: u64|
                baseline.contains_key(gpa) && current.contains_key(gpa) && !is_stable(
                    baseline,
                    current,
                    gpa,
                ),
        ),
        no_longer_present: Set::new(
            |gpa: u64| baseline.contains_key(gpa) && !current.contains_key(gpa),
        ),
    }
}

/// Whether `result` is what the pages come to. Either every stable page has an
/// idle bit and the pages are sorted by what became of them, or the first
/// stable page without one, by GPA, is named.
pub open spec fn classifies(
    baseline: Map<u64, BaselinePage>,
    current: Map<u64, u64>,
    idle_bits: Map<u64, bool>,
    result: Result<IdlePageTrackingObservation, TrackingError>,
) -> bool {
    match result {
        Ok(observation) => {
            &&& observation@ == observed(baseline, current, idle_bits)
            &&& forall|gpa: u64| !#[trigger] lacks_idle_bit(baseline, current, idle_bits, gpa)
        },
        Err(error) => exists|gpa: u64| #[trigger]
            lacks_idle_bit(baseline, current, idle_bits, gpa) && error
                == (TrackingError::MissingIdleBit { pfn: baseline[gpa].pfn }) && forall|other: u64|
             #[trigger]
                lacks_idle_bit(baseline, current, idle_bits, other) ==> gpa <= other,
    }
}

/// Sorts the pages by what became of them. That a stable page has no idle bit
/// is an error; the first such page, by GPA, is named.
pub fn classify_observation(
    baseline: &BTreeMap<u64, BaselinePage>,
    current: BTreeMap<u64, u64>,
    idle_bits: &BTreeMap<u64, bool>,
) -> (result: Result<IdlePageTrackingObservation, TrackingError>)
    ensures
        classifies(baseline@, current@, idle_bits@, result),
{
    let ghost whole = current@;
    let ghost all = observed(baseline@, whole, idle_bits@);
    let ghost mut seen: Set<u64> = Set::empty();
    let mut left = current;
    let mut result = IdlePageTrackingObservation::default();
    let gpas = ordered::ascending_keys(baseline);
    let mut i: usize = 0;
    proof {
        assert(left@ =~= whole.remove_keys(seen));
        assert(result@ =~= all.within(seen));
    }
    while i < gpas.len()
        invariant
            i <= gpas@.len(),
            ordered::lists_ascending(gpas@, baseline@.dom()),
            all == observed(baseline@, whole, idle_bits@),
            forall|gpa: u64| #[trigger]
                seen.contains(gpa) <==> exists|j: int| 0 <= j < i && #[trigger] gpas@[j] == gpa,
            whole == current@,
            left@ == whole.remove_keys(seen),
            result@ == all.within(seen),
            forall|gpa: u64|
                seen.contains(gpa) ==> !#[trigger] lacks_idle_bit(
                    baseline@,
                    whole,
                    idle_bits@,
                    gpa,
                ),
        decreases gpas@.len() - i,
    {
        let gpa: u64 = gpas[i];
        let ghost before = seen;
        assert(gpas@.contains(gpa));
        assert(baseline@.dom().contains(gpa));
        assert(!seen.contains(gpa));
        let page: BaselinePage = match baseline.get(&gpa) {
            Some(page) => *page,
            None => BaselinePage { pfn: 0 },
        };
        assert(page == baseline@[gpa]);
        match left.remove(&gpa) {
            Some(pfn) => {
                if pfn == page.pfn {
                    match idle_bits.get(&pfn) {
                        None => {
                            proof {
                                assert(lacks_idle_bit(baseline@, whole, idle_bits@, gpa));
                                assert forall|other: u64| #[trigger]
                                    lacks_idle_bit(
                                        baseline@,
                                        whole,
                                        idle_bits@,
                                        other,
                                    ) implies gpa <= other by {
                                    assert(!before.contains(other));
                                    assert(baseline@.dom().contains(other));
                                    let j = choose|j: int|
                                        0 <= j < gpas@.len() && gpas@[j] == other;
                                    assert(i <= j);
                                }
                            }
                            return Err(TrackingError::MissingIdleBit { pfn });
                        },
                        Some(idle) => {
                            if *idle {
                                result.still_idle_baseline_gpas.insert(gpa);
                            } else {
                                result.accessed_baseline_gpas.insert(gpa);
                            }
                        },
                    }
                } else {
                    result.replaced_baseline_gpas.insert(gpa);
                    result.newly_present_gpas.insert(gpa);
                }
            },
            None => {
                result.no_longer_present_gpas.insert(gpa);
            },
        }
        i += 1;
        proof {
            seen = before.insert(gpa);
            assert forall|other: u64| #[trigger] seen.contains(other) <==> exists|j: int|
                0 <= j < i && #[trigger] gpas@[j] == other by {
                if before.contains(other) {
                    let j = choose|j: int| 0 <= j < i - 1 && #[trigger] gpas@[j] == other;
                    assert(gpas@[j] == other);
                }
                if other == gpa {
                    assert(gpas@[i - 1] == other);
                }
            }
            assert(left@ =~= whole.remove_keys(seen));
            assert(result@ =~= all.within(seen));
        }
    }
    proof {
        assert forall|gpa: u64| #[trigger] seen.contains(gpa) <==> baseline@.dom().contains(
            gpa,
        ) by {
            if baseline@.dom().contains(gpa) {
                assert(gpas@.contains(gpa));
                let j = choose|j: int| 0 <= j < gpas@.len() && gpas@[j] == gpa;
                assert(gpas@[j] == gpa);
            }
            if seen.contains(gpa) {
                let j = choose|j: int| 0 <= j < i && #[trigger] gpas@[j] == gpa;
                assert(gpas@.contains(gpa));
            }
        }
        assert(seen =~= baseline@.dom());
    }
    let others = ordered::ascending_keys(&left);
    insert_all(&mut result.newly_present_gpas, &others);
    proof {
        assert(result@ =~= all);
    }
    Ok(result)
}

/// Adds the elements of a list to a set.
fn insert_all(set: &mut BTreeSet<u64>, elements: &Vec<u64>)
    ensures
        final(set)@ == old(set)@.union(elements@.to_set()),
{
    let ghost before = set@;
    let mut i: usize = 0;
    assert(set@ =~= before.union(elements@.take(0).to_set()));
    while i < elements.len()
        invariant
            i <= elements@.len(),
            set@ == before.union(elements@.take(i as int).to_set()),
        decreases elements@.len() - i,
    {
        set.insert(elements[i]);
        proof {
            let prefix = elements@.take(i as int);
            let longer = elements@.take(i + 1);
            assert(longer =~= prefix.push(elements@[i as int]));
            assert forall|k: u64| #[trigger] longer.to_set().contains(k)
                <==> prefix.to_set().contains(k) || k == elements@[i as int] by {
                if prefix.contains(k) {
                    let j = choose|j: int| 0 <= j < prefix.len() && prefix[j] == k;
                    assert(longer[j] == k);
                }
                if k == elements@[i as int] {
                    assert(longer[i as int] == k);
                }
            }
            assert(set@ =~= before.union(longer.to_set()));
        }
        i += 1;
    }
    assert(elements@.take(elements@.len() as int) =~= elements@);
}

impl ObservationView {
    /// The pages that a restore is going to touch.
    pub open spec fn wanted(self) -> Set<u64> {
        self.accessed.union(self.newly_present)
    }
}

impl IdlePageTrackingObservation {
    /// The pages that a restore is going to touch: those that were touched and
    /// those that appeared.
    pub fn tracked_pages(&self) -> (pages: BTreeSet<u64>)
        ensures
            pages@ == self@.wanted(),
    {
        let mut pages: BTreeSet<u64> = BTreeSet::new();
        let accessed = ordered::ascending_elements(&self.accessed_baseline_gpas);
        insert_all(&mut pages, &accessed);
        let appeared = ordered::ascending_elements(&self.newly_present_gpas);
        insert_all(&mut pages, &appeared);
        assert(pages@ =~= self@.wanted());
        pages
    }

    /// The tracked pages as ranges.
    pub fn tracked_ranges(&self) -> (result: Result<Vec<GuestMemoryRange>, TrackingError>)
        ensures
            match result {
                Ok(ranges) => {
                    &&& coalesce::coalesced(self@.wanted()) == Ok::<
                        Seq<GuestMemoryRange>,
                        TrackingError,
                    >(ranges@)
                    &&& coalesce::covers(ranges@, self@.wanted())
                    &&& manifest::total_size(ranges@) == self@.wanted().len() * PAGE_SIZE
                },
                Err(error) => coalesce::coalesced(self@.wanted()) == Err::<
                    Seq<GuestMemoryRange>,
                    TrackingError,
                >(error),
            },
    {
        coalesce::coalesce_gpa_pages(&self.tracked_pages())
    }

    /// Number of bytes in the tracked pages.
    pub fn tracked_bytes(&self) -> (bytes: u64)
        requires
            self@.wanted().len() * PAGE_SIZE <= u64::MAX,
        ensures
            bytes == self@.wanted().len() * PAGE_SIZE,
    {
        self.tracked_page_count() as u64 * PAGE_SIZE
    }

    /// Number of tracked pages.
    pub fn tracked_page_count(&self) -> (count: usize)
        ensures
            count == self@.wanted().len(),
    {
        self.tracked_pages().len()
    }

    /// The working set that the tracked pages make, once it has passed the
    /// checks that it has to pass again at a restore. It is refused as a whole
    /// and never shortened; a caller is to publish the snapshot without it.
    pub fn to_working_set(
        &self,
        regions: &[GuestMemoryRegion],
        limits: GuestMemoryWorkingSetLimits,
    ) -> (result: Result<GuestMemoryWorkingSet, TrackingError>)
        ensures
            match coalesce::coalesced(self@.wanted()) {
                Err(error) => result == Err::<GuestMemoryWorkingSet, TrackingError>(error),
                Ok(ranges) => match manifest::verdict(ranges, regions@, limits) {
                    Err(error) => result == Err::<GuestMemoryWorkingSet, TrackingError>(
                        TrackingError::WorkingSet { error },
                    ),
                    Ok(_) => {
                        &&& result matches Ok(working_set)
                        &&& working_set.ranges@ == ranges
                        &&& working_set.tracker@ == LINUX_IDLE_PAGE_TRACKER@
                    },
                },
            },
            result matches Ok(working_set) ==> coalesce::covers(
                working_set.ranges@,
                self@.wanted(),
            ) && manifest::total_size(working_set.ranges@) == self@.wanted().len() * PAGE_SIZE,
    {
        let ranges = match self.tracked_ranges() {
            Ok(ranges) => ranges,
            Err(error) => {
                return Err(error);
            },
        };
        let working_set = GuestMemoryWorkingSet::new_with_tracker(LINUX_IDLE_PAGE_TRACKER, ranges);
        match working_set.validate_for_regions(regions, limits) {
            Ok(()) => Ok(working_set),
            Err(error) => Err(TrackingError::WorkingSet { error }),
        }
    }
}

/// Every page that was present is in exactly one of four: touched, not
/// touched, at another PFN, gone. These hold no other page.
pub proof fn law_baseline_is_partitioned(
    baseline: Map<u64, BaselinePage>,
    current: Map<u64, u64>,
    idle_bits: Map<u64, bool>,
    gpa: u64,
)
    ensures
        ({
            let seen = observed(baseline, current, idle_bits);
            let times = (if seen.accessed.contains(gpa) {
                1int
            } else {
                0
            }) + (if seen.still_idle.contains(gpa) {
                1int
            } else {
                0
            }) + (if seen.replaced.contains(gpa) {
                1int
            } else {
                0
            }) + (if seen.no_longer_present.contains(gpa) {
                1int
            } else {
                0
            });
            times == (if baseline.contains_key(gpa) {
                1int
            } else {
                0
            })
        }),
{
}

/// A page appeared exactly when it is present and was not, or is at another
/// PFN.
pub proof fn law_what_appeared(
    baseline: Map<u64, BaselinePage>,
    current: Map<u64, u64>,
    idle_bits: Map<u64, bool>,
)
    ensures
        observed(baseline, current, idle_bits).newly_present == observed(
            baseline,
            current,
            idle_bits,
        ).replaced.union(current.dom().difference(baseline.dom())),
{
    assert(observed(baseline, current, idle_bits).newly_present =~= observed(
        baseline,
        current,
        idle_bits,
    ).replaced.union(current.dom().difference(baseline.dom())));
}

/// Every page that is present is either tracked or still idle, and no other
/// page is tracked.
pub proof fn law_present_pages_are_tracked_or_idle(
    baseline: Map<u64, BaselinePage>,
    current: Map<u64, u64>,
    idle_bits: Map<u64, bool>,
)
    ensures
        ({
            let seen = observed(baseline, current, idle_bits);
            &&& seen.wanted().union(seen.still_idle) == current.dom()
            &&& seen.wanted().disjoint(seen.still_idle)
        }),
{
    let seen = observed(baseline, current, idle_bits);
    assert(seen.wanted().union(seen.still_idle) =~= current.dom());
}

/// What becomes of a page, by where it lay before, where it lies now, and its
/// idle bit.
pub proof fn law_what_becomes_of_a_page(
    baseline: Map<u64, BaselinePage>,
    current: Map<u64, u64>,
    idle_bits: Map<u64, bool>,
    gpa: u64,
)
    ensures
        ({
            let seen = observed(baseline, current, idle_bits);
            let before = baseline.contains_key(gpa);
            let after = current.contains_key(gpa);
            let stayed = before && after && current[gpa] == baseline[gpa].pfn;
            &&& seen.accessed.contains(gpa) <==> stayed && !idle_bits[baseline[gpa].pfn]
            &&& seen.still_idle.contains(gpa) <==> stayed && idle_bits[baseline[gpa].pfn]
            &&& seen.replaced.contains(gpa) <==> before && after && !stayed
            &&& seen.no_longer_present.contains(gpa) <==> before && !after
            &&& seen.newly_present.contains(gpa) <==> after && !stayed
            &&& seen.wanted().contains(gpa) <==> after && (!stayed
                || !idle_bits[baseline[gpa].pfn])
        }),
{
}

/// Pages are sorted exactly when every page that did not move has an idle bit.
pub proof fn law_sorting_needs_the_idle_bits(
    baseline: Map<u64, BaselinePage>,
    current: Map<u64, u64>,
    idle_bits: Map<u64, bool>,
    result: Result<IdlePageTrackingObservation, TrackingError>,
)
    requires
        classifies(baseline, current, idle_bits, result),
    ensures
        result is Ok <==> forall|gpa: u64| #[trigger]
            baseline.contains_key(gpa) && current.contains_key(gpa) && current[gpa]
                == baseline[gpa].pfn ==> idle_bits.contains_key(current[gpa]),
        result matches Ok(seen) ==> seen@ == observed(baseline, current, idle_bits),
        result matches Err(error) ==> exists|gpa: u64| #[trigger]
            baseline.contains_key(gpa) && current.contains_key(gpa) && current[gpa]
                == baseline[gpa].pfn && !idle_bits.contains_key(current[gpa]) && error
                == (TrackingError::MissingIdleBit { pfn: current[gpa] }) && forall|other: u64|
             #[trigger]
                baseline.contains_key(other) && current.contains_key(other) && current[other]
                    == baseline[other].pfn && !idle_bits.contains_key(current[other]) ==> gpa
                    <= other,
{
    match result {
        Ok(_) => {
            assert forall|gpa: u64| #[trigger]
                baseline.contains_key(gpa) && current.contains_key(gpa) && current[gpa]
                    == baseline[gpa].pfn implies idle_bits.contains_key(current[gpa]) by {
                assert(!lacks_idle_bit(baseline, current, idle_bits, gpa));
            }
        },
        Err(_) => {
            let gpa = choose|gpa: u64| #[trigger]
                lacks_idle_bit(baseline, current, idle_bits, gpa) && result == Err::<
                    IdlePageTrackingObservation,
                    TrackingError,
                >(TrackingError::MissingIdleBit { pfn: baseline[gpa].pfn }) && forall|other: u64|
                 #[trigger]
                    lacks_idle_bit(baseline, current, idle_bits, other) ==> gpa <= other;
            assert(baseline.contains_key(gpa));
            assert forall|other: u64| #[trigger]
                baseline.contains_key(other) && current.contains_key(other) && current[other]
                    == baseline[other].pfn && !idle_bits.contains_key(current[other]) implies gpa
                <= other by {
                assert(lacks_idle_bit(baseline, current, idle_bits, other));
            }
        },
    }
}

/// A restore is going to touch the pages that were touched and those that
/// appeared, all of them and no other.
pub proof fn law_touched_and_new_pages_are_wanted(seen: ObservationView, gpa: u64)
    ensures
        seen.wanted().contains(gpa) <==> seen.accessed.contains(gpa)
            || seen.newly_present.contains(gpa),
{
}

} // verus!
