//! The tracker: a baseline while the guest is paused, an observation at the
//! next pause.

use crate::idle_page_tracking::bitmap;
use crate::idle_page_tracking::error::TrackingError;
use crate::idle_page_tracking::observation;
use crate::idle_page_tracking::observation::{BaselinePage, IdlePageTrackingObservation};
use crate::idle_page_tracking::regions;
use crate::idle_page_tracking::regions::IdlePageTrackingTarget;
use crate::ordered;
use std::collections::BTreeMap;
use vstd::prelude::*;

verus! {

/// Access to the page table of the guest's process and to the idle bitmap.
pub trait IdlePageTrackingIo: Sized {
    /// Why an access fails.
    type Error;

    /// The PFN of each present guest page, by GPA.
    fn scan_present_pages(&self, target: &IdlePageTrackingTarget) -> Result<
        BTreeMap<u64, u64>,
        Self::Error,
    >;

    /// Sets the idle bits of the pages.
    fn mark_pfns_idle(&self, pfns: &[u64]) -> Result<(), Self::Error>;

    /// The idle bits of the pages, by PFN.
    fn read_idle_bits(&self, pfns: &[u64]) -> Result<BTreeMap<u64, bool>, Self::Error>;
}

/// Why a step of the tracker fails.
#[derive(Clone, Copy, Debug, PartialEq, Eq)]
pub enum TrackingFailure<E> {
    /// An access failed.
    Io(E),
    /// What the accesses gave cannot be used.
    Tracking(TrackingError),
}

/// What a baseline holds.
#[derive(Clone, Copy, Debug, PartialEq, Eq)]
pub struct IdlePageTrackingBaseline {
    pub present_pages: usize,
}

impl Default for IdlePageTrackingBaseline {
    fn default() -> (baseline: IdlePageTrackingBaseline)
        ensures
            baseline.present_pages == 0,
    {
        IdlePageTrackingBaseline { present_pages: 0 }
    }
}

/// Tracks the pages of a guest.
pub struct IdlePageTracker<I> {
    target: IdlePageTrackingTarget,
    baseline: BTreeMap<u64, BaselinePage>,
    io: I,
}

/// A baseline of present pages.
pub open spec fn baseline_of(present: Map<u64, u64>) -> Map<u64, BaselinePage> {
    present.map_values(|pfn: u64| BaselinePage { pfn })
}

/// The PFNs of a baseline, in the order of the GPAs.
pub open spec fn baseline_pfns_of(baseline: Map<u64, BaselinePage>) -> Seq<u64> {
    ordered::ascending(baseline.dom()).map_values(|gpa: u64| baseline[gpa].pfn)
}

/// The PFNs of present pages, in the order of the GPAs.
pub open spec fn present_pfns_of(present: Map<u64, u64>) -> Seq<u64> {
    ordered::ascending(present.dom()).map_values(|gpa: u64| present[gpa])
}

/// The PFNs of present pages, in the order of the GPAs.
pub fn present_pfns(present: &BTreeMap<u64, u64>) -> (pfns: Vec<u64>)
    ensures
        pfns@ == present_pfns_of(present@),
{
    proof {
        lemma_same_pfns(present@);
    }
    baseline_pfns(&record_baseline(present))
}

/// The PFNs of a baseline, in the order of the GPAs.
pub fn baseline_pfns(baseline: &BTreeMap<u64, BaselinePage>) -> (pfns: Vec<u64>)
    ensures
        pfns@ == baseline_pfns_of(baseline@),
{
    let gpas = ordered::ascending_keys(baseline);
    let mut pfns: Vec<u64> = Vec::new();
    let mut i: usize = 0;
    while i < gpas.len()
        invariant
            i <= gpas@.len(),
            ordered::lists_ascending(gpas@, baseline@.dom()),
            pfns@ =~= gpas@.take(i as int).map_values(|gpa: u64| baseline@[gpa].pfn),
        decreases gpas@.len() - i,
    {
        let gpa: u64 = gpas[i];
        assert(gpas@.contains(gpa));
        let pfn: u64 = match baseline.get(&gpa) {
            Some(page) => page.pfn,
            None => 0,
        };
        pfns.push(pfn);
        i += 1;
    }
    assert(gpas@.take(gpas@.len() as int) =~= gpas@);
    pfns
}

/// Records present pages as a baseline.
pub fn record_baseline(present: &BTreeMap<u64, u64>) -> (baseline: BTreeMap<u64, BaselinePage>)
    ensures
        baseline@ == baseline_of(present@),
{
    let gpas = ordered::ascending_keys(present);
    let mut baseline: BTreeMap<u64, BaselinePage> = BTreeMap::new();
    let mut i: usize = 0;
    while i < gpas.len()
        invariant
            i <= gpas@.len(),
            ordered::lists_ascending(gpas@, present@.dom()),
            forall|gpa: u64| #[trigger]
                baseline@.contains_key(gpa) <==> exists|j: int|
                    0 <= j < i && #[trigger] gpas@[j] == gpa,
            forall|gpa: u64| #[trigger]
                baseline@.contains_key(gpa) ==> baseline@[gpa].pfn == present@[gpa],
        decreases gpas@.len() - i,
    {
        let gpa: u64 = gpas[i];
        let ghost before = baseline@;
        assert(gpas@.contains(gpa));
        let pfn: u64 = match present.get(&gpa) {
            Some(pfn) => *pfn,
            None => 0,
        };
        baseline.insert(gpa, BaselinePage { pfn });
        i += 1;
        assert forall|other: u64| #[trigger] baseline@.contains_key(other) <==> exists|j: int|
            0 <= j < i && #[trigger] gpas@[j] == other by {
            if before.contains_key(other) {
                let j = choose|j: int| 0 <= j < i - 1 && #[trigger] gpas@[j] == other;
                assert(gpas@[j] == other);
            }
            if other == gpa {
                assert(gpas@[i - 1] == other);
            }
        }
    }
    proof {
        assert forall|gpa: u64| #[trigger] baseline@.contains_key(gpa) <==> present@.contains_key(
            gpa,
        ) by {
            if present@.dom().contains(gpa) {
                assert(gpas@.contains(gpa));
                let j = choose|j: int| 0 <= j < gpas@.len() && gpas@[j] == gpa;
                assert(gpas@[j] == gpa);
            }
            if baseline@.contains_key(gpa) {
                let j = choose|j: int| 0 <= j < i && #[trigger] gpas@[j] == gpa;
                assert(gpas@.contains(gpa));
            }
        }
        assert(baseline@ =~= baseline_of(present@));
    }
    baseline
}

impl<I> IdlePageTracker<I> {
    /// What is tracked.
    pub closed spec fn spec_target(self) -> IdlePageTrackingTarget {
        self.target
    }

    /// Where each page lay when tracking began.
    pub closed spec fn spec_baseline(self) -> Map<u64, BaselinePage> {
        self.baseline@
    }

    /// The access to the host.
    pub closed spec fn spec_io(self) -> I {
        self.io
    }

    /// A tracker without a baseline. The process must be given, the host must
    /// be one whose page tables are understood, and the regions must be valid.
    pub fn new_with_io(target: IdlePageTrackingTarget, is_x86_64: bool, io: I) -> (result: Result<
        IdlePageTracker<I>,
        TrackingError,
    >)
        ensures
            ({
                let error = if target.firecracker_pid == 0 {
                    Some(TrackingError::NoProcess)
                } else if !is_x86_64 {
                    Some(TrackingError::UnsupportedHost)
                } else {
                    match regions::verdict(target.regions@) {
                        Err(error) => Some(error),
                        Ok(_) => None,
                    }
                };
                match error {
                    Some(error) => result == Err::<IdlePageTracker<I>, TrackingError>(error),
                    None => {
                        &&& result matches Ok(tracker)
                        &&& tracker.spec_target() == target
                        &&& tracker.spec_baseline() == Map::<u64, BaselinePage>::empty()
                        &&& tracker.spec_io() == io
                    },
                }
            }),
    {
        if target.firecracker_pid == 0 {
            return Err(TrackingError::NoProcess);
        }
        if !is_x86_64 {
            return Err(TrackingError::UnsupportedHost);
        }
        match regions::validate_regions(target.regions.as_slice()) {
            Err(error) => Err(error),
            Ok(()) => Ok(IdlePageTracker { target, baseline: BTreeMap::new(), io }),
        }
    }

    /// Takes present pages as the baseline.
    pub fn adopt_baseline(&mut self, present: &BTreeMap<u64, u64>) -> (baseline:
        IdlePageTrackingBaseline)
        ensures
            final(self).spec_target() == old(self).spec_target(),
            final(self).spec_io() == old(self).spec_io(),
            final(self).spec_baseline() == baseline_of(present@),
            baseline.present_pages == present@.len(),
    {
        self.baseline = record_baseline(present);
        assert(self.baseline@.dom() =~= present@.dom());
        IdlePageTrackingBaseline { present_pages: self.baseline.len() }
    }

    /// Whether a page was present when tracking began.
    pub fn was_baseline_present(&self, gpa: u64) -> (present: bool)
        ensures
            present == self.spec_baseline().contains_key(gpa),
    {
        self.baseline.contains_key(&gpa)
    }

    /// Whether there is a baseline.
    pub fn has_baseline(&self) -> (has: bool)
        ensures
            has == (self.spec_baseline().len() > 0),
    {
        !self.baseline.is_empty()
    }
}

/// Whether a capture of the baseline may come to `result`, given what the scan
/// came to. The PFNs of all present pages are marked, in the order of the
/// GPAs.
pub open spec fn may_capture<I: IdlePageTrackingIo>(
    io: I,
    scan: Result<BTreeMap<u64, u64>, I::Error>,
    result: Result<BTreeMap<u64, u64>, TrackingFailure<I::Error>>,
) -> bool {
    match scan {
        Err(error) => result == Err::<BTreeMap<u64, u64>, TrackingFailure<I::Error>>(
            TrackingFailure::Io(error),
        ),
        Ok(present) => if present@.len() == 0 {
            result == Err::<BTreeMap<u64, u64>, TrackingFailure<I::Error>>(
                TrackingFailure::Tracking(TrackingError::NothingPresent),
            )
        } else {
            exists|pfns: &[u64], marked: Result<(), I::Error>| #[trigger]
                call_ensures(I::mark_pfns_idle, (&io, pfns), marked) && pfns@ == present_pfns_of(
                    present@,
                ) && result == (match marked {
                    Err(error) => Err::<BTreeMap<u64, u64>, TrackingFailure<I::Error>>(
                        TrackingFailure::Io(error),
                    ),
                    Ok(_) => Ok(present),
                })
        },
    }
}

/// Whether an observation may come to `result`, given what the scan came to.
/// The bits of all PFNs of the baseline are read, in the order of the GPAs.
pub open spec fn may_observe<I: IdlePageTrackingIo>(
    io: I,
    baseline: Map<u64, BaselinePage>,
    scan: Result<BTreeMap<u64, u64>, I::Error>,
    result: Result<IdlePageTrackingObservation, TrackingFailure<I::Error>>,
) -> bool {
    match scan {
        Err(error) => result == Err::<IdlePageTrackingObservation, TrackingFailure<I::Error>>(
            TrackingFailure::Io(error),
        ),
        Ok(current) => exists|pfns: &[u64], read: Result<BTreeMap<u64, bool>, I::Error>| #[trigger]
            call_ensures(I::read_idle_bits, (&io, pfns), read) && pfns@ == baseline_pfns_of(
                baseline,
            ) && (match read {
                Err(error) => result == Err::<
                    IdlePageTrackingObservation,
                    TrackingFailure<I::Error>,
                >(TrackingFailure::Io(error)),
                Ok(idle_bits) => match result {
                    Ok(seen) => observation::classifies(
                        baseline,
                        current@,
                        idle_bits@,
                        Ok(seen),
                    ),
                    Err(TrackingFailure::Tracking(error)) => observation::classifies(
                        baseline,
                        current@,
                        idle_bits@,
                        Err(error),
                    ),
                    Err(TrackingFailure::Io(_)) => false,
                },
            }),
    }
}

impl<I: IdlePageTrackingIo> IdlePageTracker<I> {
    /// Scans for present pages and marks them idle.
    pub fn capture_baseline_with_io(&self) -> (result: Result<
        BTreeMap<u64, u64>,
        TrackingFailure<I::Error>,
    >)
        ensures
            exists|scan: Result<BTreeMap<u64, u64>, I::Error>| #[trigger]
                call_ensures(I::scan_present_pages, (&self.spec_io(), &self.spec_target()), scan)
                    && may_capture(self.spec_io(), scan, result),
    {
        let scan = self.io.scan_present_pages(&self.target);
        let ghost scanned = scan;
        assert(call_ensures(
            I::scan_present_pages,
            (&self.spec_io(), &self.spec_target()),
            scanned,
        ));
        let present = match scan {
            Ok(present) => present,
            Err(error) => {
                let result = Err(TrackingFailure::Io(error));
                assert(may_capture(self.spec_io(), scanned, result));
                return result;
            },
        };
        if present.is_empty() {
            let result = Err(TrackingFailure::Tracking(TrackingError::NothingPresent));
            assert(may_capture(self.spec_io(), scanned, result));
            return result;
        }
        let list = present_pfns(&present);
        let pfns: &[u64] = list.as_slice();
        let marked = self.io.mark_pfns_idle(pfns);
        assert(call_ensures(I::mark_pfns_idle, (&self.spec_io(), pfns), marked));
        let result = match marked {
            Err(error) => Err(TrackingFailure::Io(error)),
            Ok(()) => Ok(present),
        };
        assert(may_capture(self.spec_io(), scanned, result));
        result
    }

    /// Records every present page and marks it idle. The guest must be paused.
    pub fn mark_baseline_idle(&mut self) -> (result: Result<
        IdlePageTrackingBaseline,
        TrackingFailure<I::Error>,
    >)
        ensures
            final(self).spec_target() == old(self).spec_target(),
            final(self).spec_io() == old(self).spec_io(),
            exists|
                scan: Result<BTreeMap<u64, u64>, I::Error>,
                captured: Result<BTreeMap<u64, u64>, TrackingFailure<I::Error>>,
            |
                #![trigger may_capture(old(self).spec_io(), scan, captured)]
                call_ensures(
                    I::scan_present_pages,
                    (&old(self).spec_io(), &old(self).spec_target()),
                    scan,
                ) && may_capture(old(self).spec_io(), scan, captured) && (match captured {
                    Err(error) => {
                        &&& result == Err::<IdlePageTrackingBaseline, TrackingFailure<I::Error>>(
                            error,
                        )
                        &&& final(self).spec_baseline() == old(self).spec_baseline()
                    },
                    Ok(present) => {
                        &&& result matches Ok(baseline)
                        &&& baseline.present_pages == present@.len()
                        &&& final(self).spec_baseline() == baseline_of(present@)
                    },
                }),
    {
        match self.capture_baseline_with_io() {
            Err(error) => Err(error),
            Ok(present) => Ok(self.adopt_baseline(&present)),
        }
    }

    /// Scans for present pages, reads the idle bits of the baseline, and sorts
    /// the pages by what became of them.
    pub fn observe_with_io(&self) -> (result: Result<
        IdlePageTrackingObservation,
        TrackingFailure<I::Error>,
    >)
        ensures
            exists|scan: Result<BTreeMap<u64, u64>, I::Error>| #[trigger]
                call_ensures(I::scan_present_pages, (&self.spec_io(), &self.spec_target()), scan)
                    && may_observe(self.spec_io(), self.spec_baseline(), scan, result),
    {
        let scan = self.io.scan_present_pages(&self.target);
        let ghost scanned = scan;
        assert(call_ensures(
            I::scan_present_pages,
            (&self.spec_io(), &self.spec_target()),
            scanned,
        ));
        let current = match scan {
            Ok(current) => current,
            Err(error) => {
                let result = Err(TrackingFailure::Io(error));
                assert(may_observe(self.spec_io(), self.spec_baseline(), scanned, result));
                return result;
            },
        };
        let list = baseline_pfns(&self.baseline);
        let pfns: &[u64] = list.as_slice();
        let read = self.io.read_idle_bits(pfns);
        assert(call_ensures(I::read_idle_bits, (&self.spec_io(), pfns), read));
        let result = match read {
            Err(error) => Err(TrackingFailure::Io(error)),
            Ok(idle_bits) => match observation::classify_observation(
                &self.baseline,
                current,
                &idle_bits,
            ) {
                Ok(seen) => Ok(seen),
                Err(error) => Err(TrackingFailure::Tracking(error)),
            },
        };
        assert(may_observe(self.spec_io(), self.spec_baseline(), scanned, result));
        result
    }

    /// What became of the pages since the baseline. The guest must be paused
    /// again, and nothing else may have read its memory meanwhile.
    pub fn observe_after_pause(&self) -> (result: Result<
        IdlePageTrackingObservation,
        TrackingFailure<I::Error>,
    >)
        ensures
            if self.spec_baseline().len() == 0 {
                result == Err::<IdlePageTrackingObservation, TrackingFailure<I::Error>>(
                    TrackingFailure::Tracking(TrackingError::NoBaseline),
                )
            } else {
                exists|scan: Result<BTreeMap<u64, u64>, I::Error>| #[trigger]
                    call_ensures(
                        I::scan_present_pages,
                        (&self.spec_io(), &self.spec_target()),
                        scan,
                    ) && may_observe(self.spec_io(), self.spec_baseline(), scan, result)
            },
    {
        if self.baseline.is_empty() {
            return Err(TrackingFailure::Tracking(TrackingError::NoBaseline));
        }
        self.observe_with_io()
    }
}

/// The PFN of every page of a baseline is among those that are read.
proof fn lemma_baseline_pfns(baseline: Map<u64, BaselinePage>, gpa: u64)
    requires
        baseline.dom().finite(),
        baseline.contains_key(gpa),
    ensures
        baseline_pfns_of(baseline).contains(baseline[gpa].pfn),
{
    ordered::lemma_listing_exists(baseline.dom());
    let gpas = ordered::ascending(baseline.dom());
    assert(baseline.dom().contains(gpa));
    let i = choose|i: int| 0 <= i < gpas.len() && gpas[i] == gpa;
    assert(baseline_pfns_of(baseline)[i] == baseline[gpa].pfn);
}

/// What is marked for present pages is what is read for the baseline that they
/// become.
proof fn lemma_same_pfns(present: Map<u64, u64>)
    requires
        present.dom().finite(),
    ensures
        baseline_pfns_of(baseline_of(present)) == present_pfns_of(present),
{
    assert(baseline_of(present).dom() =~= present.dom());
    ordered::lemma_listing_exists(present.dom());
    let gpas = ordered::ascending(present.dom());
    assert forall|i: int| 0 <= i < gpas.len() implies baseline_pfns_of(baseline_of(present))[i]
        == present_pfns_of(present)[i] by {
        assert(gpas.contains(gpas[i]));
        assert(present.dom().contains(gpas[i]));
    }
    assert(baseline_pfns_of(baseline_of(present)) =~= present_pfns_of(present));
}

/// With the bits that are read for a baseline, no page that did not move lacks
/// its bit, and it counts as touched exactly when the bit is clear.
pub proof fn law_bits_decide_what_was_touched(
    baseline: Map<u64, BaselinePage>,
    current: Map<u64, u64>,
    bitmap: bitmap::Bitmap,
    gpa: u64,
)
    requires
        baseline.dom().finite(),
    ensures
        ({
            let bits = bitmap::ReadingView::begin(baseline_pfns_of(baseline)).read(bitmap);
            let seen = observation::observed(baseline, current, bits);
            &&& !observation::lacks_idle_bit(baseline, current, bits, gpa)
            &&& observation::is_stable(baseline, current, gpa) ==> {
                &&& seen.accessed.contains(gpa) <==> !bitmap::is_idle(bitmap, baseline[gpa].pfn)
                &&& seen.still_idle.contains(gpa) <==> bitmap::is_idle(bitmap, baseline[gpa].pfn)
            }
        }),
{
    bitmap::law_reading_gives_the_bits_of_the_pages(baseline_pfns_of(baseline), bitmap);
    if baseline.contains_key(gpa) {
        lemma_baseline_pfns(baseline, gpa);
    }
}

/// A guest whose pages neither moved nor were touched since they were marked
/// has nothing that a restore is going to touch: all its pages are still idle.
pub proof fn law_untouched_guest_is_idle(present: Map<u64, u64>, before: bitmap::Bitmap)
    requires
        present.dom().finite(),
    ensures
        ({
            let baseline = baseline_of(present);
            let marked = bitmap::MarkingView::begin(present_pfns_of(present)).marked(before);
            let bits = bitmap::ReadingView::begin(baseline_pfns_of(baseline)).read(marked);
            let seen = observation::observed(baseline, present, bits);
            &&& seen.wanted() == Set::<u64>::empty()
            &&& seen.still_idle == present.dom()
        }),
{
    let baseline = baseline_of(present);
    let pfns = present_pfns_of(present);
    let marked = bitmap::MarkingView::begin(pfns).marked(before);
    let bits = bitmap::ReadingView::begin(baseline_pfns_of(baseline)).read(marked);
    let seen = observation::observed(baseline, present, bits);
    assert(baseline.dom() =~= present.dom());
    lemma_same_pfns(present);
    assert forall|gpa: u64| #[trigger] present.contains_key(gpa) implies seen.still_idle.contains(
        gpa,
    ) && !seen.accessed.contains(gpa) by {
        lemma_baseline_pfns(baseline, gpa);
        bitmap::law_marking_touches_the_marked_pages_only(pfns, before, present[gpa]);
        law_bits_decide_what_was_touched(baseline, present, marked, gpa);
    }
    assert(seen.still_idle =~= present.dom());
    assert(seen.wanted() =~= Set::empty());
}

/// A baseline holds the present pages, each with its PFN, and its PFNs are those
/// of all its pages, one for each, in the order of the GPAs.
pub proof fn law_baseline_holds_every_page(present: Map<u64, u64>, gpa: u64)
    requires
        present.dom().finite(),
    ensures
        baseline_of(present).contains_key(gpa) <==> present.contains_key(gpa),
        present.contains_key(gpa) ==> baseline_of(present)[gpa].pfn == present[gpa],
        present.contains_key(gpa) ==> present_pfns_of(present).contains(present[gpa]),
        present_pfns_of(present).len() == present.len(),
        baseline_pfns_of(baseline_of(present)) == present_pfns_of(present),
{
    assert(baseline_of(present).dom() =~= present.dom());
    lemma_same_pfns(present);
    ordered::lemma_listing_length(present.dom());
    if present.contains_key(gpa) {
        lemma_baseline_pfns(baseline_of(present), gpa);
    }
}

/// Every PFN that is marked is that of a present page.
pub proof fn law_only_present_pages_are_marked(present: Map<u64, u64>, i: int)
    requires
        present.dom().finite(),
        0 <= i < present_pfns_of(present).len(),
    ensures
        exists|gpa: u64| #[trigger]
            present.contains_key(gpa) && present[gpa] == present_pfns_of(present)[i],
{
    ordered::lemma_listing_exists(present.dom());
    let gpas = ordered::ascending(present.dom());
    assert(gpas.contains(gpas[i]));
    assert(present.dom().contains(gpas[i]));
    assert(present.contains_key(gpas[i]) && present[gpas[i]] == present_pfns_of(present)[i]);
}

/// A capture hands out what the scan found, and only after the PFN of every page
/// of it was marked; it fails where the scan or the marking does, with their
/// error, and where the scan found nothing.
pub proof fn law_captured_pages_were_marked<I: IdlePageTrackingIo>(
    io: I,
    scan: Result<BTreeMap<u64, u64>, I::Error>,
    result: Result<BTreeMap<u64, u64>, TrackingFailure<I::Error>>,
    gpa: u64,
)
    requires
        may_capture(io, scan, result),
    ensures
        match result {
            Ok(present) => scan == Ok::<BTreeMap<u64, u64>, I::Error>(present) && present@.len() > 0
                && exists|pfns: &[u64]| #[trigger]
                call_ensures(I::mark_pfns_idle, (&io, pfns), Ok::<(), I::Error>(())) && (
                present@.contains_key(gpa) ==> pfns@.contains(present@[gpa])),
            Err(TrackingFailure::Io(error)) => scan == Err::<BTreeMap<u64, u64>, I::Error>(error)
                || exists|pfns: &[u64]| #[trigger]
                call_ensures(I::mark_pfns_idle, (&io, pfns), Err::<(), I::Error>(error)),
            Err(TrackingFailure::Tracking(error)) => error is NothingPresent && scan is Ok
                && scan->Ok_0@.len() == 0,
        },
        scan matches Err(error) ==> result == Err::<BTreeMap<u64, u64>, TrackingFailure<I::Error>>(
            TrackingFailure::Io(error),
        ),
{
    if let Ok(present) = scan {
        if present@.len() > 0 {
            let (pfns, marked) = choose|pfns: &[u64], marked: Result<(), I::Error>| #[trigger]
                call_ensures(I::mark_pfns_idle, (&io, pfns), marked) && pfns@ == present_pfns_of(
                    present@,
                ) && result == (match marked {
                    Err(error) => Err::<BTreeMap<u64, u64>, TrackingFailure<I::Error>>(
                        TrackingFailure::Io(error),
                    ),
                    Ok(_) => Ok(present),
                });
            law_baseline_holds_every_page(present@, gpa);
            match marked {
                Ok(u) => {
                    assert(call_ensures(I::mark_pfns_idle, (&io, pfns), Ok::<(), I::Error>(())));
                },
                Err(error) => {
                    assert(call_ensures(
                        I::mark_pfns_idle,
                        (&io, pfns),
                        Err::<(), I::Error>(error),
                    ));
                },
            }
        }
    }
}

/// An observation is of what the scan found and of bits that were read for the
/// PFN of every page of the baseline; where it succeeds, a page that did not move
/// counts as touched exactly when the bit that was read for its PFN is clear.
pub proof fn law_observation_is_of_the_bits_read<I: IdlePageTrackingIo>(
    io: I,
    baseline: Map<u64, BaselinePage>,
    scan: Result<BTreeMap<u64, u64>, I::Error>,
    result: Result<IdlePageTrackingObservation, TrackingFailure<I::Error>>,
    gpa: u64,
)
    requires
        baseline.dom().finite(),
        may_observe(io, baseline, scan, result),
    ensures
        scan matches Err(error) ==> result == Err::<
            IdlePageTrackingObservation,
            TrackingFailure<I::Error>,
        >(TrackingFailure::Io(error)),
        result matches Ok(seen) ==> exists|
            pfns: &[u64],
            read: Result<BTreeMap<u64, bool>, I::Error>,
        |
            #[trigger]
            call_ensures(I::read_idle_bits, (&io, pfns), read) && read is Ok && scan is Ok && (
            baseline.contains_key(gpa) ==> pfns@.contains(baseline[gpa].pfn)) && (
            seen@.accessed.contains(gpa) <==> baseline.contains_key(gpa)
                && scan->Ok_0@.contains_key(gpa) && scan->Ok_0@[gpa] == baseline[gpa].pfn
                && !read->Ok_0@[baseline[gpa].pfn]) && (seen@.newly_present.contains(gpa)
                <==> scan->Ok_0@.contains_key(gpa) && !(baseline.contains_key(gpa)
                && scan->Ok_0@[gpa] == baseline[gpa].pfn)),
{
    if let Ok(current) = scan {
        let (pfns, read) = choose|pfns: &[u64], read: Result<BTreeMap<u64, bool>, I::Error>|
         #[trigger]
            call_ensures(I::read_idle_bits, (&io, pfns), read) && pfns@ == baseline_pfns_of(
                baseline,
            ) && (match read {
                Err(error) => result == Err::<
                    IdlePageTrackingObservation,
                    TrackingFailure<I::Error>,
                >(TrackingFailure::Io(error)),
                Ok(idle_bits) => match result {
                    Ok(seen) => observation::classifies(
                        baseline,
                        current@,
                        idle_bits@,
                        Ok(seen),
                    ),
                    Err(TrackingFailure::Tracking(error)) => observation::classifies(
                        baseline,
                        current@,
                        idle_bits@,
                        Err(error),
                    ),
                    Err(TrackingFailure::Io(_)) => false,
                },
            });
        if let Ok(seen) = result {
            if let Ok(bits) = read {
                observation::law_what_becomes_of_a_page(baseline, current@, bits@, gpa);
                if baseline.contains_key(gpa) {
                    lemma_baseline_pfns(baseline, gpa);
                }
            }
        }
    }
}

} // verus!
