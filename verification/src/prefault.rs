//! What to fault in before a restored guest resumes.
//!
//! A working set is requested whole or not at all, and nothing that goes wrong
//! here keeps the guest from resuming.

use crate::idle_page_tracking::coalesce;
use crate::idle_page_tracking::regions::PAGE_SIZE;
use crate::manifest;
use crate::manifest::{
    GuestMemoryRange, GuestMemoryRegion, GuestMemoryWorkingSet, GuestMemoryWorkingSetLimits,
};
use vstd::prelude::*;

verus! {

/// Why nothing is requested.
#[derive(Clone, Copy, Debug, PartialEq, Eq)]
pub enum PrefaultSkipReason {
    Disabled,
    UnsupportedArchitecture,
    NoWorkingSet,
    EmptyWorkingSet,
    InvalidWorkingSet,
    FirecrackerApiUnavailable,
}

/// What to request.
#[derive(Clone, Debug, PartialEq, Eq)]
pub enum PrefaultPlan {
    Skip(PrefaultSkipReason),
    Request { ranges: Vec<GuestMemoryRange>, bytes: u64 },
}

/// What to request.
pub enum PlanView {
    Skip(PrefaultSkipReason),
    Request { ranges: Seq<GuestMemoryRange>, bytes: int },
}

impl View for PrefaultPlan {
    type V = PlanView;

    open spec fn view(&self) -> PlanView {
        match *self {
            PrefaultPlan::Skip(reason) => PlanView::Skip(reason),
            PrefaultPlan::Request { ranges, bytes } => PlanView::Request {
                ranges: ranges@,
                bytes: bytes as int,
            },
        }
    }
}

/// What to request of the ranges of a working set, if there is one.
pub open spec fn planned(
    enabled: bool,
    is_x86_64: bool,
    working_set: Option<Seq<GuestMemoryRange>>,
    regions: Seq<GuestMemoryRegion>,
    limits: GuestMemoryWorkingSetLimits,
    firecracker_api_available: bool,
) -> PlanView {
    if !enabled {
        PlanView::Skip(PrefaultSkipReason::Disabled)
    } else if !is_x86_64 {
        PlanView::Skip(PrefaultSkipReason::UnsupportedArchitecture)
    } else {
        match working_set {
            None => PlanView::Skip(PrefaultSkipReason::NoWorkingSet),
            Some(ranges) => if ranges.len() == 0 {
                PlanView::Skip(PrefaultSkipReason::EmptyWorkingSet)
            } else if manifest::verdict(ranges, regions, limits) is Err {
                PlanView::Skip(PrefaultSkipReason::InvalidWorkingSet)
            } else if !firecracker_api_available {
                PlanView::Skip(PrefaultSkipReason::FirecrackerApiUnavailable)
            } else {
                PlanView::Request { ranges, bytes: manifest::total_size(ranges) }
            },
        }
    }
}

/// Plans the request: all of a working set that is valid for the guest's
/// memory and within the budget, or nothing.
pub fn build_prefault_plan(
    enabled: bool,
    is_x86_64: bool,
    working_set: Option<&GuestMemoryWorkingSet>,
    regions: &[GuestMemoryRegion],
    limits: GuestMemoryWorkingSetLimits,
    firecracker_api_available: bool,
) -> (plan: PrefaultPlan)
    ensures
        plan@ == planned(
            enabled,
            is_x86_64,
            (match working_set {
                Some(working_set) => Some(working_set.ranges@),
                None => None,
            }),
            regions@,
            limits,
            firecracker_api_available,
        ),
{
    if !enabled {
        return PrefaultPlan::Skip(PrefaultSkipReason::Disabled);
    }
    if !is_x86_64 {
        return PrefaultPlan::Skip(PrefaultSkipReason::UnsupportedArchitecture);
    }
    let working_set = match working_set {
        Some(working_set) => working_set,
        None => {
            return PrefaultPlan::Skip(PrefaultSkipReason::NoWorkingSet);
        },
    };
    if working_set.ranges.len() == 0 {
        return PrefaultPlan::Skip(PrefaultSkipReason::EmptyWorkingSet);
    }
    if working_set.validate_for_regions(regions, limits).is_err() {
        return PrefaultPlan::Skip(PrefaultSkipReason::InvalidWorkingSet);
    }
    if !firecracker_api_available {
        return PrefaultPlan::Skip(PrefaultSkipReason::FirecrackerApiUnavailable);
    }
    match working_set.total_bytes() {
        Ok(bytes) => {
            let ranges = working_set.ranges.clone();
            assert(ranges@ =~= working_set.ranges@);
            PrefaultPlan::Request { ranges, bytes }
        },
        Err(_) => PrefaultPlan::Skip(PrefaultSkipReason::InvalidWorkingSet),
    }
}

/// What came of a plan.
#[derive(Clone, Copy, Debug, PartialEq, Eq)]
pub enum PrefaultOutcome {
    Skipped(PrefaultSkipReason),
    Applied { range_count: usize, bytes: u64 },
    FailedFallback,
}

/// What came of a request, given the response to it.
pub fn requested_outcome<E>(range_count: usize, bytes: u64, response: Result<(), E>) -> (outcome:
    PrefaultOutcome)
    ensures
        outcome == (match response {
            Ok(_) => PrefaultOutcome::Applied { range_count, bytes },
            Err(_) => PrefaultOutcome::FailedFallback,
        }),
{
    match response {
        Ok(()) => PrefaultOutcome::Applied { range_count, bytes },
        Err(_) => PrefaultOutcome::FailedFallback,
    }
}

/// Executes a plan. A plan to skip sends nothing; a request is sent once, with
/// all of its ranges, and that it fails is an outcome like any other.
pub fn execute_prefault_plan<E, F: FnOnce(&[GuestMemoryRange]) -> Result<(), E>>(
    plan: PrefaultPlan,
    send_request: F,
) -> (outcome: PrefaultOutcome)
    requires
        plan matches PrefaultPlan::Request { ranges, .. } ==> forall|request: &[GuestMemoryRange]|
            request@ == ranges@ ==> #[trigger] call_requires(send_request, (request,)),
    ensures
        match plan {
            PrefaultPlan::Skip(reason) => outcome == PrefaultOutcome::Skipped(reason),
            PrefaultPlan::Request { ranges, bytes } => exists|
                request: &[GuestMemoryRange],
                response: Result<(), E>,
            |
                #[trigger]
                call_ensures(send_request, (request,), response) && request@ == ranges@ && outcome
                    == (match response {
                    Ok(_) => PrefaultOutcome::Applied { range_count: ranges@.len() as usize, bytes },
                    Err(_) => PrefaultOutcome::FailedFallback,
                }),
        },
{
    match plan {
        PrefaultPlan::Skip(reason) => PrefaultOutcome::Skipped(reason),
        PrefaultPlan::Request { ranges, bytes } => {
            let request: &[GuestMemoryRange] = ranges.as_slice();
            let response = send_request(request);
            assert(call_ensures(send_request, (request,), response));
            requested_outcome(request.len(), bytes, response)
        },
    }
}

/// Pages that made a working set at profiling time are all requested at a
/// restore with the same memory and budget, unless there are none.
pub proof fn law_profiled_pages_are_requested(
    pages: Set<u64>,
    regions: Seq<GuestMemoryRegion>,
    limits: GuestMemoryWorkingSetLimits,
)
    requires
        pages.finite(),
        coalesce::coalesced(pages) matches Ok(ranges) && manifest::verdict(
            ranges,
            regions,
            limits,
        ) is Ok,
    ensures
        ({
            let ranges = coalesce::coalesced(pages)->Ok_0;
            planned(true, true, Some(ranges), regions, limits, true) == (if pages.len() == 0 {
                PlanView::Skip(PrefaultSkipReason::EmptyWorkingSet)
            } else {
                PlanView::Request { ranges, bytes: (pages.len() * PAGE_SIZE) as int }
            })
        }),
{
    let ranges = coalesce::coalesced(pages)->Ok_0;
    coalesce::law_coalescing_keeps_the_pages(pages);
    if pages.len() == 0 {
        assert(pages =~= Set::empty());
        if ranges.len() > 0 {
            coalesce::lemma_last_page(ranges, pages);
        }
    } else if ranges.len() == 0 {
        assert(manifest::total_size(ranges) == 0);
    }
}

/// Only what passes is requested: a request is made for an enabled restore on
/// x86-64 with the API at hand, of the whole of a working set that is not empty
/// and that is valid for the guest's memory, and it asks for no more bytes and no
/// larger a share of that memory than is allowed.
pub proof fn law_request_is_within_budget(
    enabled: bool,
    is_x86_64: bool,
    working_set: Option<Seq<GuestMemoryRange>>,
    regions: Seq<GuestMemoryRegion>,
    limits: GuestMemoryWorkingSetLimits,
    firecracker_api_available: bool,
    i: int,
)
    requires
        planned(
            enabled,
            is_x86_64,
            working_set,
            regions,
            limits,
            firecracker_api_available,
        ) is Request,
    ensures
        enabled && is_x86_64 && firecracker_api_available,
        ({
            let plan = planned(
                enabled,
                is_x86_64,
                working_set,
                regions,
                limits,
                firecracker_api_available,
            );
            &&& working_set == Some(plan->ranges)
            &&& plan->ranges.len() > 0
            &&& plan->ranges.len() <= limits.max_ranges
            &&& manifest::verdict(plan->ranges, regions, limits) is Ok
            &&& plan->bytes == manifest::total_size(plan->ranges)
            &&& plan->bytes <= limits.max_bytes
            &&& plan->bytes * 100 <= manifest::guest_memory_size(regions)
                * limits.max_guest_memory_ratio_percent
            &&& 0 <= i < plan->ranges.len() ==> plan->ranges[i].gpa % 4096 == 0
                && plan->ranges[i].size % 4096 == 0 && exists|j: int|
                0 <= j < regions.len() && (#[trigger] regions[j]).guest_phys_addr
                    <= plan->ranges[i].gpa && plan->ranges[i].gpa + plan->ranges[i].size
                    <= regions[j].guest_phys_addr + regions[j].size
        }),
{
    let ranges = working_set->Some_0;
    manifest::law_accepted_working_set_is_within_budget(ranges, regions, limits, 0, 0);
    if 0 <= i < ranges.len() {
        manifest::law_accepted_range_is_guest_memory(ranges, regions, limits, i);
    }
}

/// What passes is requested: a restore that is enabled, on x86-64 and with the
/// API at hand asks for a working set that is not empty and that passes, whole.
pub proof fn law_valid_working_set_is_requested(
    ranges: Seq<GuestMemoryRange>,
    regions: Seq<GuestMemoryRegion>,
    limits: GuestMemoryWorkingSetLimits,
)
    requires
        ranges.len() > 0,
        manifest::verdict(ranges, regions, limits) is Ok,
    ensures
        planned(true, true, Some(ranges), regions, limits, true) == (PlanView::Request {
            ranges,
            bytes: manifest::total_size(ranges),
        }),
{
}

/// Each reason for a skip is given exactly where it holds and no reason before
/// it does.
pub proof fn law_skip_reason_is_true(
    enabled: bool,
    is_x86_64: bool,
    working_set: Option<Seq<GuestMemoryRange>>,
    regions: Seq<GuestMemoryRegion>,
    limits: GuestMemoryWorkingSetLimits,
    firecracker_api_available: bool,
)
    ensures
        ({
            let plan = planned(
                enabled,
                is_x86_64,
                working_set,
                regions,
                limits,
                firecracker_api_available,
            );
            let usable = enabled && is_x86_64;
            let offered = usable && working_set is Some && working_set->Some_0.len() > 0;
            let passes = manifest::verdict(working_set->Some_0, regions, limits) is Ok;
            &&& plan == PlanView::Skip(PrefaultSkipReason::Disabled) <==> !enabled
            &&& plan == PlanView::Skip(PrefaultSkipReason::UnsupportedArchitecture) <==> enabled
                && !is_x86_64
            &&& plan == PlanView::Skip(PrefaultSkipReason::NoWorkingSet) <==> usable
                && working_set is None
            &&& plan == PlanView::Skip(PrefaultSkipReason::EmptyWorkingSet) <==> usable
                && working_set is Some && working_set->Some_0.len() == 0
            &&& plan == PlanView::Skip(PrefaultSkipReason::InvalidWorkingSet) <==> offered
                && !passes
            &&& plan == PlanView::Skip(PrefaultSkipReason::FirecrackerApiUnavailable) <==> offered
                && passes && !firecracker_api_available
        }),
{
}

} // verus!
