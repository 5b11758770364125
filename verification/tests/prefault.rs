use std::collections::BTreeSet;

use agentenv::idle_page_tracking::observation::IdlePageTrackingObservation;
use agentenv::manifest::{
    GuestMemoryRange, GuestMemoryRegion, GuestMemoryWorkingSet, GuestMemoryWorkingSetLimits,
    GUEST_MEMORY_PAGE_SIZE,
};
use agentenv::prefault::{
    build_prefault_plan, execute_prefault_plan, requested_outcome, PrefaultOutcome, PrefaultPlan,
    PrefaultSkipReason,
};

fn region() -> GuestMemoryRegion {
    GuestMemoryRegion {
        base_host_virt_addr: 0x1000_0000,
        guest_phys_addr: 0,
        size: 0x4000,
        page_size: GUEST_MEMORY_PAGE_SIZE,
    }
}

fn limits() -> GuestMemoryWorkingSetLimits {
    GuestMemoryWorkingSetLimits {
        max_bytes: 0x4000,
        max_ranges: 4,
        max_guest_memory_ratio_percent: 100,
    }
}

#[test]
fn no_metadata_or_empty_ranges_never_issue_request() {
    assert_eq!(
        build_prefault_plan(true, true, None, &[region()], limits(), true),
        PrefaultPlan::Skip(PrefaultSkipReason::NoWorkingSet)
    );
    assert_eq!(
        build_prefault_plan(
            true,
            true,
            Some(&GuestMemoryWorkingSet::new(vec![])),
            &[region()],
            limits(),
            true,
        ),
        PrefaultPlan::Skip(PrefaultSkipReason::EmptyWorkingSet)
    );
}

#[test]
fn invalid_metadata_and_missing_api_fall_back() {
    let invalid = GuestMemoryWorkingSet::new(vec![GuestMemoryRange {
        gpa: 0x4000,
        size: GUEST_MEMORY_PAGE_SIZE,
    }]);
    assert_eq!(
        build_prefault_plan(true, true, Some(&invalid), &[region()], limits(), true),
        PrefaultPlan::Skip(PrefaultSkipReason::InvalidWorkingSet)
    );

    let valid = GuestMemoryWorkingSet::new(vec![GuestMemoryRange {
        gpa: 0,
        size: GUEST_MEMORY_PAGE_SIZE,
    }]);
    assert_eq!(
        build_prefault_plan(true, true, Some(&valid), &[region()], limits(), false),
        PrefaultPlan::Skip(PrefaultSkipReason::FirecrackerApiUnavailable)
    );
}

#[test]
fn valid_request_requires_enabled_x86_and_api() {
    let working_set = GuestMemoryWorkingSet::new(vec![GuestMemoryRange {
        gpa: 0,
        size: GUEST_MEMORY_PAGE_SIZE,
    }]);
    assert_eq!(
        build_prefault_plan(false, true, Some(&working_set), &[region()], limits(), true),
        PrefaultPlan::Skip(PrefaultSkipReason::Disabled)
    );
    assert_eq!(
        build_prefault_plan(true, false, Some(&working_set), &[region()], limits(), true),
        PrefaultPlan::Skip(PrefaultSkipReason::UnsupportedArchitecture)
    );
    assert!(matches!(
        build_prefault_plan(true, true, Some(&working_set), &[region()], limits(), true),
        PrefaultPlan::Request { bytes: 4096, .. }
    ));
}

#[test]
fn request_errors_fall_back_without_blocking_resume() {
    let ranges = vec![GuestMemoryRange {
        gpa: 0,
        size: GUEST_MEMORY_PAGE_SIZE,
    }];
    let applied = execute_prefault_plan(
        PrefaultPlan::Request {
            ranges: ranges.clone(),
            bytes: GUEST_MEMORY_PAGE_SIZE,
        },
        |request: &[GuestMemoryRange]| -> Result<(), String> {
            assert_eq!(request, ranges.as_slice());
            Ok(())
        },
    );
    assert_eq!(
        applied,
        PrefaultOutcome::Applied {
            range_count: 1,
            bytes: GUEST_MEMORY_PAGE_SIZE,
        }
    );

    let fallback = execute_prefault_plan(
        PrefaultPlan::Request {
            ranges,
            bytes: GUEST_MEMORY_PAGE_SIZE,
        },
        |_: &[GuestMemoryRange]| Err("pre-fault endpoint rejected the request".to_string()),
    );
    assert_eq!(fallback, PrefaultOutcome::FailedFallback);

    let skipped = execute_prefault_plan(
        PrefaultPlan::Skip(PrefaultSkipReason::Disabled),
        |_: &[GuestMemoryRange]| -> Result<(), String> {
            panic!("skipped plan must not send a request")
        },
    );
    assert_eq!(
        skipped,
        PrefaultOutcome::Skipped(PrefaultSkipReason::Disabled)
    );
}

#[test]
fn outcome_follows_the_response() {
    assert_eq!(
        requested_outcome(3, 12288, Ok::<(), ()>(())),
        PrefaultOutcome::Applied {
            range_count: 3,
            bytes: 12288
        }
    );
    assert_eq!(
        requested_outcome(3, 12288, Err::<(), ()>(())),
        PrefaultOutcome::FailedFallback
    );
}

#[test]
fn profiled_pages_are_requested_at_restore() {
    let observation = IdlePageTrackingObservation {
        accessed_baseline_gpas: BTreeSet::from([0, 0x1000]),
        newly_present_gpas: BTreeSet::from([0x3000]),
        ..Default::default()
    };
    let working_set = observation.to_working_set(&[region()], limits()).unwrap();
    assert_eq!(
        build_prefault_plan(true, true, Some(&working_set), &[region()], limits(), true),
        PrefaultPlan::Request {
            ranges: vec![
                GuestMemoryRange {
                    gpa: 0,
                    size: 0x2000
                },
                GuestMemoryRange {
                    gpa: 0x3000,
                    size: 0x1000
                },
            ],
            bytes: 0x3000,
        }
    );
}
