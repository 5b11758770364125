use agentenv::manifest::{
    GuestMemoryRange, GuestMemoryRegion, GuestMemoryWorkingSet, GuestMemoryWorkingSetLimits,
    WorkingSetError, GUEST_MEMORY_PAGE_SIZE, LINUX_MINCORE_TRACKER,
};

const PAGE: u64 = GUEST_MEMORY_PAGE_SIZE;

fn region(gpa: u64, pages: u64) -> GuestMemoryRegion {
    GuestMemoryRegion {
        base_host_virt_addr: 0x1000_0000,
        guest_phys_addr: gpa,
        size: PAGE * pages,
        page_size: PAGE,
    }
}

fn limits() -> GuestMemoryWorkingSetLimits {
    GuestMemoryWorkingSetLimits {
        max_bytes: PAGE * 8,
        max_ranges: 3,
        max_guest_memory_ratio_percent: 50,
    }
}

fn check(
    ranges: Vec<(u64, u64)>,
    regions: &[GuestMemoryRegion],
) -> Result<(), WorkingSetError> {
    let ranges = ranges
        .into_iter()
        .map(|(gpa, size)| GuestMemoryRange { gpa, size })
        .collect();
    GuestMemoryWorkingSet::new(ranges).validate_for_regions(regions, limits())
}

#[test]
fn working_set_passes_within_memory_and_budget() {
    let regions = [region(0, 8), region(PAGE * 16, 8)];
    assert_eq!(check(vec![], &regions), Ok(()));
    assert_eq!(
        check(
            vec![(0, PAGE * 2), (PAGE * 2, PAGE * 2), (PAGE * 20, PAGE * 4)],
            &regions
        ),
        Ok(()),
        "ranges may touch, and may fill the budget"
    );
}

#[test]
fn working_set_faults_are_found_in_order() {
    let regions = [region(0, 8), region(PAGE * 8, 8)];
    assert_eq!(
        check(vec![(0, 0), (0, 0), (0, 0), (0, 0)], &regions),
        Err(WorkingSetError::TooManyRanges { count: 4, max: 3 })
    );
    assert_eq!(
        check(vec![(PAGE, PAGE), (PAGE * 3, 0)], &regions),
        Err(WorkingSetError::MalformedRange { gpa: PAGE * 3 })
    );
    assert_eq!(
        check(vec![(1, PAGE)], &regions),
        Err(WorkingSetError::MalformedRange { gpa: 1 })
    );
    assert_eq!(
        check(vec![(0, 1)], &regions),
        Err(WorkingSetError::MalformedRange { gpa: 0 })
    );
    assert_eq!(
        check(vec![(u64::MAX - 4095, PAGE)], &regions),
        Err(WorkingSetError::MalformedRange {
            gpa: u64::MAX - 4095
        })
    );
    assert_eq!(
        check(vec![(0, PAGE * 2), (PAGE, PAGE)], &regions),
        Err(WorkingSetError::UnorderedRange { gpa: PAGE })
    );
    assert_eq!(
        check(vec![(PAGE * 7, PAGE * 2)], &regions),
        Err(WorkingSetError::OutsideGuestMemory { gpa: PAGE * 7 }),
        "a range lies within one region"
    );
    assert_eq!(
        check(vec![(0, PAGE * 5), (PAGE * 8, PAGE * 4)], &regions),
        Err(WorkingSetError::TooManyBytes {
            bytes: PAGE * 9,
            max: PAGE * 8
        })
    );
    assert_eq!(
        check(vec![(0, PAGE * 5)], &[region(0, 8)]),
        Err(WorkingSetError::TooLargeShare {
            bytes: PAGE * 5,
            max_percent: 50
        })
    );
}

#[test]
fn share_is_exact_to_the_byte() {
    let set = GuestMemoryWorkingSet::new(vec![GuestMemoryRange { gpa: 0, size: PAGE }]);
    let mut limits = limits();
    limits.max_guest_memory_ratio_percent = 1;
    assert_eq!(
        set.validate_for_regions(&[region(0, 100)], limits),
        Ok(())
    );
    assert_eq!(
        set.validate_for_regions(&[region(0, 99)], limits),
        Err(WorkingSetError::TooLargeShare {
            bytes: PAGE,
            max_percent: 1
        })
    );
    limits.max_guest_memory_ratio_percent = 0;
    assert!(set
        .validate_for_regions(&[region(0, 1 << 40)], limits)
        .is_err());
    assert_eq!(
        GuestMemoryWorkingSet::new(vec![]).validate_for_regions(&[], limits),
        Ok(())
    );
}

#[test]
fn total_bytes_are_summed_without_overflow() {
    let set = |sizes: [u64; 2]| {
        GuestMemoryWorkingSet::new(
            sizes
                .into_iter()
                .map(|size| GuestMemoryRange { gpa: 0, size })
                .collect(),
        )
    };
    assert_eq!(set([PAGE, 3]).total_bytes(), Ok(4099));
    assert_eq!(set([u64::MAX, 0]).total_bytes(), Ok(u64::MAX));
    assert_eq!(
        set([u64::MAX, 1]).total_bytes(),
        Err(WorkingSetError::TotalOverflow)
    );
    assert_eq!(set([0, 0]).tracker, LINUX_MINCORE_TRACKER);
    assert_eq!(
        GuestMemoryWorkingSet::new_with_tracker("other", vec![]).tracker,
        "other"
    );
}

#[test]
fn working_set_errors_say_what_is_wrong() {
    let messages = [
        (
            WorkingSetError::TooManyRanges { count: 4, max: 3 },
            "guest-memory working set has 4 ranges, which exceeds configured maximum 3",
        ),
        (
            WorkingSetError::MalformedRange { gpa: 0xfff },
            "malformed guest-memory range at GPA 0xfff",
        ),
        (
            WorkingSetError::UnorderedRange { gpa: 0x2000 },
            "unordered or overlapping guest-memory range at GPA 0x2000",
        ),
        (
            WorkingSetError::OutsideGuestMemory { gpa: 0x10 },
            "guest-memory range at GPA 0x10 lies outside guest memory",
        ),
        (
            WorkingSetError::TotalOverflow,
            "guest-memory working set size overflows u64",
        ),
        (
            WorkingSetError::TooManyBytes {
                bytes: 8192,
                max: 4096,
            },
            "guest-memory working set of 8192 bytes exceeds configured maximum 4096",
        ),
        (
            WorkingSetError::TooLargeShare {
                bytes: 10,
                max_percent: 100,
            },
            "guest-memory working set of 10 bytes exceeds configured maximum share of guest memory, percent: 100",
        ),
    ];
    for (error, message) in messages {
        assert_eq!(error.message(), message);
    }
}
