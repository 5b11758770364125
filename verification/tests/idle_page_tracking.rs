use std::collections::{BTreeMap, BTreeSet, VecDeque};
use std::sync::Mutex;

use agentenv::idle_page_tracking::bitmap::{bitmap_words, IdleMarking, IdleReading};
use agentenv::idle_page_tracking::coalesce::coalesce_gpa_pages;
use agentenv::idle_page_tracking::error::{AddressSpace, TrackingError};
use agentenv::idle_page_tracking::native::{read_word, word_bytes};
use agentenv::idle_page_tracking::observation::{
    classify_observation, BaselinePage, IdlePageTrackingObservation,
};
use agentenv::idle_page_tracking::pagemap::{
    parse_present_pfn, PagemapRead, PagemapScan, PAGEMAP_PFN_MASK, PAGEMAP_PRESENT,
};
use agentenv::idle_page_tracking::regions::{
    ensure_non_overlapping, validate_regions, GuestRamRegion, IdlePageTrackingTarget, PAGE_SIZE,
};
use agentenv::idle_page_tracking::tracker::{
    baseline_pfns, present_pfns, record_baseline, IdlePageTracker, IdlePageTrackingBaseline,
    IdlePageTrackingIo, TrackingFailure,
};
use agentenv::idle_page_tracking::transfer::{Direction, Transfer, TransferStep};
use agentenv::manifest::{
    GuestMemoryRange, GuestMemoryRegion, GuestMemoryWorkingSetLimits, WorkingSetError,
    LINUX_IDLE_PAGE_TRACKER,
};

struct FakeIdlePageTrackingIo {
    scans: Mutex<VecDeque<BTreeMap<u64, u64>>>,
    marked_pfns: Mutex<Vec<Vec<u64>>>,
    read_pfns: Mutex<Vec<Vec<u64>>>,
    idle_bits: BTreeMap<u64, bool>,
    refuse_marking: bool,
}

impl FakeIdlePageTrackingIo {
    fn new(scans: Vec<BTreeMap<u64, u64>>, idle_bits: BTreeMap<u64, bool>) -> Self {
        FakeIdlePageTrackingIo {
            scans: Mutex::new(VecDeque::from(scans)),
            marked_pfns: Mutex::new(Vec::new()),
            read_pfns: Mutex::new(Vec::new()),
            idle_bits,
            refuse_marking: false,
        }
    }
}

impl IdlePageTrackingIo for &FakeIdlePageTrackingIo {
    type Error = String;

    fn scan_present_pages(
        &self,
        _target: &IdlePageTrackingTarget,
    ) -> Result<BTreeMap<u64, u64>, String> {
        self.scans
            .lock()
            .expect("fake scan queue mutex is not poisoned")
            .pop_front()
            .ok_or("fake backend ran out of pagemap scans".to_string())
    }

    fn mark_pfns_idle(&self, pfns: &[u64]) -> Result<(), String> {
        if self.refuse_marking {
            return Err("fake bitmap is read-only".to_string());
        }
        self.marked_pfns
            .lock()
            .expect("fake marked-PFN mutex is not poisoned")
            .push(pfns.to_vec());
        Ok(())
    }

    fn read_idle_bits(&self, pfns: &[u64]) -> Result<BTreeMap<u64, bool>, String> {
        self.read_pfns
            .lock()
            .expect("fake read-PFN mutex is not poisoned")
            .push(pfns.to_vec());
        Ok(self.idle_bits.clone())
    }
}

fn region(hva: u64, gpa: u64, pages: u64) -> GuestRamRegion {
    GuestRamRegion {
        base_host_virt_addr: hva,
        guest_phys_addr: gpa,
        size: PAGE_SIZE * pages,
        page_size: PAGE_SIZE,
    }
}

fn target() -> IdlePageTrackingTarget {
    IdlePageTrackingTarget {
        firecracker_pid: 1,
        regions: vec![region(0x1000, 0, 8)],
    }
}

/// Scans a page table that gives each page number its entry.
fn scan(
    regions: &Vec<GuestRamRegion>,
    table: impl Fn(u64) -> u64,
) -> Result<(BTreeMap<u64, u64>, Vec<PagemapRead>), TrackingError> {
    let mut scan = PagemapScan::begin(regions);
    let mut reads = Vec::new();
    while let Some(read) = scan.next_read()? {
        reads.push(read);
        let mut bytes = Vec::new();
        for i in 0..read.count as u64 {
            bytes.extend_from_slice(&table(read.offset / 8 + i).to_ne_bytes());
        }
        scan = scan.absorb_bytes(&bytes)?;
    }
    Ok((scan.into_pages(), reads))
}

fn mark(bitmap: &mut Vec<u64>, pfns: &[u64]) {
    let mut marking = IdleMarking::begin(pfns);
    while let Some(offset) = marking.next_offset() {
        let word = (offset / 8) as usize;
        let (next, written) = marking.mark(&bitmap[word].to_ne_bytes());
        bitmap[word] = read_word(&written, 0);
        marking = next;
    }
}

fn read(bitmap: &[u64], pfns: &[u64]) -> BTreeMap<u64, bool> {
    let mut reading = IdleReading::begin(pfns);
    while let Some(offset) = reading.next_offset() {
        let word = (offset / 8) as usize;
        reading = reading.absorb(&bitmap[word].to_ne_bytes());
    }
    reading.into_bits()
}

#[test]
fn fake_backend_exercises_baseline_and_observation_without_linux_privileges() {
    let io = FakeIdlePageTrackingIo::new(
        vec![
            BTreeMap::from([(0, 11), (PAGE_SIZE, 12)]),
            BTreeMap::from([(0, 11), (PAGE_SIZE, 13), (PAGE_SIZE * 2, 14)]),
        ],
        BTreeMap::from([(11, false)]),
    );
    let mut tracker = IdlePageTracker::new_with_io(target(), true, &io)
        .ok()
        .expect("target is valid");

    let present = tracker.capture_baseline_with_io().unwrap();
    assert_eq!(present, BTreeMap::from([(0, 11), (PAGE_SIZE, 12)]));
    tracker.adopt_baseline(&present);

    let observation = tracker.observe_with_io().unwrap();
    assert_eq!(observation.accessed_baseline_gpas, BTreeSet::from([0]));
    assert_eq!(
        observation.replaced_baseline_gpas,
        BTreeSet::from([PAGE_SIZE])
    );
    assert_eq!(
        observation.newly_present_gpas,
        BTreeSet::from([PAGE_SIZE, PAGE_SIZE * 2])
    );
    assert_eq!(
        io.marked_pfns
            .lock()
            .expect("fake marked-PFN mutex is not poisoned")
            .as_slice(),
        &[vec![11, 12]]
    );
}

#[test]
fn pagemap_entry_parser_handles_absent_present_and_masked_pfns() {
    assert_eq!(parse_present_pfn(0).unwrap(), None);
    assert_eq!(parse_present_pfn(PAGEMAP_PRESENT | 42).unwrap(), Some(42));
    assert!(parse_present_pfn(PAGEMAP_PRESENT).is_err());
}

#[test]
fn bitmap_words_groups_pfns_without_losing_bits() {
    assert_eq!(
        bitmap_words(&[1, 63, 64, 65, 64]),
        BTreeMap::from([(0, (1_u64 << 1) | (1_u64 << 63)), (1, 0b11)])
    );
}

#[test]
fn observation_classifies_accessed_new_replaced_and_disappeared_pages() {
    let baseline = BTreeMap::from([
        (0, BaselinePage { pfn: 10 }),
        (PAGE_SIZE, BaselinePage { pfn: 20 }),
        (PAGE_SIZE * 2, BaselinePage { pfn: 30 }),
    ]);
    let current = BTreeMap::from([(0, 10), (PAGE_SIZE, 21), (PAGE_SIZE * 3, 40)]);
    let idle_bits = BTreeMap::from([(10, false)]);

    let observation = classify_observation(&baseline, current, &idle_bits).unwrap();
    assert_eq!(observation.accessed_baseline_gpas, BTreeSet::from([0]));
    assert_eq!(
        observation.replaced_baseline_gpas,
        BTreeSet::from([PAGE_SIZE])
    );
    assert_eq!(
        observation.newly_present_gpas,
        BTreeSet::from([PAGE_SIZE, PAGE_SIZE * 3])
    );
    assert_eq!(
        observation.no_longer_present_gpas,
        BTreeSet::from([PAGE_SIZE * 2])
    );
    assert_eq!(
        observation.tracked_pages(),
        BTreeSet::from([0, PAGE_SIZE, PAGE_SIZE * 3])
    );
}

#[test]
fn observation_requires_idle_bitmap_for_stable_baseline_page() {
    let baseline = BTreeMap::from([(0, BaselinePage { pfn: 10 })]);
    let err = classify_observation(&baseline, BTreeMap::from([(0, 10)]), &BTreeMap::new())
        .expect_err("stable baseline page requires its idle bit");
    assert!(err.message().contains("missing idle bitmap"));
}

#[test]
fn coalesce_emits_sorted_manifest_ranges_and_rejects_unaligned_gpas() {
    let ranges = coalesce_gpa_pages(&BTreeSet::from([0, PAGE_SIZE, PAGE_SIZE * 3])).unwrap();
    assert_eq!(
        ranges,
        vec![
            GuestMemoryRange {
                gpa: 0,
                size: PAGE_SIZE * 2,
            },
            GuestMemoryRange {
                gpa: PAGE_SIZE * 3,
                size: PAGE_SIZE,
            },
        ]
    );
    assert!(coalesce_gpa_pages(&BTreeSet::from([1])).is_err());
}

#[test]
fn working_set_generation_applies_budget_without_silent_truncation() {
    let observation = IdlePageTrackingObservation {
        accessed_baseline_gpas: BTreeSet::from([0, PAGE_SIZE]),
        ..Default::default()
    };
    let regions = [GuestMemoryRegion {
        base_host_virt_addr: 0x1000,
        guest_phys_addr: 0,
        size: PAGE_SIZE * 4,
        page_size: PAGE_SIZE,
    }];
    let accepted = observation
        .to_working_set(
            &regions,
            GuestMemoryWorkingSetLimits {
                max_bytes: PAGE_SIZE * 2,
                max_ranges: 1,
                max_guest_memory_ratio_percent: 100,
            },
        )
        .unwrap();
    assert_eq!(accepted.ranges.len(), 1);
    assert_eq!(accepted.ranges[0].size, PAGE_SIZE * 2);

    let err = observation
        .to_working_set(
            &regions,
            GuestMemoryWorkingSetLimits {
                max_bytes: PAGE_SIZE,
                max_ranges: 1,
                max_guest_memory_ratio_percent: 100,
            },
        )
        .expect_err("over-budget working set must be rejected as a whole");
    assert!(err.message().contains("exceeds configured maximum"));
}

#[test]
fn region_validation_rejects_overlapping_hva_and_gpa_ranges() {
    let first = GuestRamRegion {
        base_host_virt_addr: 0x1000,
        guest_phys_addr: 0,
        size: PAGE_SIZE * 2,
        page_size: PAGE_SIZE,
    };
    let overlapping_hva = GuestRamRegion {
        base_host_virt_addr: 0x2000,
        guest_phys_addr: PAGE_SIZE * 4,
        size: PAGE_SIZE,
        page_size: PAGE_SIZE,
    };
    assert!(validate_regions(&[first.clone(), overlapping_hva]).is_err());

    let overlapping_gpa = GuestRamRegion {
        base_host_virt_addr: 0x4000,
        guest_phys_addr: PAGE_SIZE,
        size: PAGE_SIZE,
        page_size: PAGE_SIZE,
    };
    assert!(validate_regions(&[first, overlapping_gpa]).is_err());
}

#[test]
fn region_validation_names_the_first_fault() {
    assert_eq!(validate_regions(&[]), Err(TrackingError::NoRegions));
    let good = region(0x1000, 0, 2);
    assert_eq!(
        validate_regions(&[
            good,
            GuestRamRegion {
                page_size: 2 << 20,
                ..good
            }
        ]),
        Err(TrackingError::UnsupportedPageSize { page_size: 2 << 20 })
    );
    assert_eq!(
        validate_regions(&[GuestRamRegion { size: 0, ..good }]),
        Err(TrackingError::RegionSize)
    );
    assert_eq!(
        validate_regions(&[GuestRamRegion { size: 4097, ..good }]),
        Err(TrackingError::RegionSize)
    );
    assert_eq!(
        validate_regions(&[GuestRamRegion {
            guest_phys_addr: 1,
            ..good
        }]),
        Err(TrackingError::RegionAlignment)
    );
    assert_eq!(
        validate_regions(&[region(u64::MAX - 4095, 0, 1)]),
        Err(TrackingError::RegionOverflow {
            space: AddressSpace::Hva
        })
    );
    assert_eq!(
        validate_regions(&[region(0, u64::MAX - 4095, 1)]),
        Err(TrackingError::RegionOverflow {
            space: AddressSpace::Gpa
        })
    );
    assert_eq!(
        validate_regions(&[good, region(0x2000, 0x4000, 1)]),
        Err(TrackingError::RegionOverlap {
            space: AddressSpace::Hva
        })
    );
    assert_eq!(
        validate_regions(&[good, region(0x4000, 0x1000, 1)]),
        Err(TrackingError::RegionOverlap {
            space: AddressSpace::Gpa
        })
    );
    assert_eq!(
        validate_regions(&[region(0x3000, 0x8000, 1), good]),
        Ok(()),
        "regions that touch do not overlap, in whatever order they come"
    );
}

#[test]
fn empty_regions_overlap_by_their_order() {
    let empty = GuestRamRegion {
        size: 0,
        ..region(0x1000, 0, 1)
    };
    let full = region(0x1000, 0x8000, 1);
    assert_eq!(
        ensure_non_overlapping(&[empty, full], AddressSpace::Hva),
        Ok(())
    );
    assert_eq!(
        ensure_non_overlapping(&[full, empty], AddressSpace::Hva),
        Err(TrackingError::RegionOverlap {
            space: AddressSpace::Hva
        })
    );
}

#[test]
fn pagemap_entry_keeps_the_low_bits_only() {
    assert_eq!(PAGEMAP_PRESENT, 1 << 63);
    assert_eq!(PAGEMAP_PFN_MASK, (1 << 55) - 1);
    assert_eq!(
        parse_present_pfn(u64::MAX),
        Ok(Some(36_028_797_018_963_967))
    );
    assert_eq!(parse_present_pfn(PAGEMAP_PFN_MASK), Ok(None));
    assert_eq!(
        parse_present_pfn(PAGEMAP_PRESENT | (1 << 55)),
        Err(TrackingError::MaskedPfn)
    );
}

#[test]
fn scan_finds_the_present_pages_and_nothing_else() {
    let regions = vec![region(0x1000, 0, 3), region(0x10_0000, 0x8000, 2)];
    let table = |page: u64| match page {
        1 => PAGEMAP_PRESENT | 11,
        3 => PAGEMAP_PRESENT | 13,
        4 => PAGEMAP_PRESENT | 14,
        0x101 => PAGEMAP_PRESENT | 21,
        _ => 7,
    };
    let (pages, reads) = scan(&regions, table).unwrap();
    assert_eq!(
        pages,
        BTreeMap::from([(0, 11), (0x2000, 13), (0x9000, 21)])
    );
    assert_eq!(
        reads,
        vec![
            PagemapRead {
                hva: 0x1000,
                offset: 8,
                count: 3
            },
            PagemapRead {
                hva: 0x10_0000,
                offset: 0x800,
                count: 2
            },
        ]
    );
}

#[test]
fn scan_reads_large_regions_in_chunks() {
    let regions = vec![
        GuestRamRegion {
            size: 100,
            ..region(0, 0, 1)
        },
        region(0x1000, 0x1000, 5000),
    ];
    let (pages, reads) = scan(&regions, |page| PAGEMAP_PRESENT | (page + 1)).unwrap();
    assert_eq!(pages.len(), 5000);
    assert_eq!(pages[&(0x1000 * 5000)], 5001);
    assert_eq!(
        reads,
        vec![
            PagemapRead {
                hva: 0x1000,
                offset: 8,
                count: 4096
            },
            PagemapRead {
                hva: 0x100_1000,
                offset: 4097 * 8,
                count: 904
            },
        ]
    );
}

#[test]
fn scan_refuses_what_it_cannot_translate() {
    let hidden = scan(&vec![region(0x1000, 0, 8)], |page| {
        if page == 5 {
            PAGEMAP_PRESENT
        } else {
            0
        }
    });
    assert_eq!(
        hidden.err(),
        Some(TrackingError::MaskedEntry { hva: 0x1000 })
    );
    let past_hva = scan(&vec![region(u64::MAX - 4095, 0, 4097)], |_| 0);
    assert_eq!(past_hva.err(), Some(TrackingError::HvaOverflow));
    let past_gpa = scan(&vec![region(0, u64::MAX - 4095, 2)], |_| {
        PAGEMAP_PRESENT | 1
    });
    assert_eq!(past_gpa.err(), Some(TrackingError::GpaOverflow));
    let twice = scan(&vec![region(0, 0, 2), region(0x10_0000, 0x1000, 1)], |_| {
        PAGEMAP_PRESENT | 1
    });
    assert_eq!(
        twice.err(),
        Some(TrackingError::DuplicatePage { gpa: 0x1000 })
    );
    let absent = scan(&vec![region(0, u64::MAX - 4095, 2)], |_| 0);
    assert_eq!(absent.unwrap().0, BTreeMap::new());
}

#[test]
fn words_survive_memory() {
    for word in [0, 1, 0x0102_0304_0506_0708, u64::MAX] {
        let bytes = word_bytes(word);
        assert_eq!(bytes, word.to_ne_bytes().to_vec());
        assert_eq!(read_word(&bytes, 0), word);
    }
    let mut shifted = vec![9];
    shifted.extend_from_slice(&77_u64.to_ne_bytes());
    assert_eq!(read_word(&shifted, 1), 77);
}

#[test]
fn marking_sets_the_marked_bits_and_keeps_the_others() {
    let mut bitmap = vec![0b1000_u64, 0, 1 << 5];
    mark(&mut bitmap, &[1, 63, 130]);
    assert_eq!(bitmap, vec![0b1010 | (1 << 63), 0, (1 << 5) | (1 << 2)]);
}

#[test]
fn marking_visits_each_word_once_in_ascending_order() {
    let mut marking = IdleMarking::begin(&[640, 3, 641, 2]);
    let mut offsets = Vec::new();
    while let Some(offset) = marking.next_offset() {
        offsets.push(offset);
        marking = marking.mark(&[0; 8]).0;
    }
    assert_eq!(offsets, vec![0, 80]);
    assert_eq!(IdleMarking::begin(&[]).next_offset(), None);
    assert_eq!(
        IdleMarking::begin(&[u64::MAX]).next_offset(),
        Some(u64::MAX / 64 * 8)
    );
}

#[test]
fn reading_gives_the_bits_of_the_asked_pages_only() {
    let bitmap = vec![0b101, 1 << 63];
    assert_eq!(
        read(&bitmap, &[127, 0, 1, 64]),
        BTreeMap::from([(0, true), (1, false), (64, false), (127, true)])
    );
    assert_eq!(read(&bitmap, &[]), BTreeMap::new());
}

#[test]
fn untouched_pages_read_idle_after_marking() {
    let pfns = [5, 70, 191, 5];
    let mut bitmap = vec![0_u64; 3];
    mark(&mut bitmap, &pfns);
    assert_eq!(
        read(&bitmap, &pfns),
        BTreeMap::from([(5, true), (70, true), (191, true)])
    );
    bitmap[1] = 0;
    assert_eq!(
        read(&bitmap, &pfns),
        BTreeMap::from([(5, true), (70, false), (191, true)])
    );
}

#[test]
fn reading_other_pages_after_marking_sees_the_bits_that_were_there() {
    let mut bitmap = vec![0b100_u64, 0];
    mark(&mut bitmap, &[1, 64]);
    assert_eq!(
        read(&bitmap, &[0, 1, 2, 65]),
        BTreeMap::from([(0, false), (1, true), (2, true), (65, false)])
    );
}

#[test]
fn untouched_guest_has_nothing_to_restore() {
    let present = BTreeMap::from([(0, 9), (PAGE_SIZE, 3)]);
    let mut bitmap = vec![0_u64];
    mark(&mut bitmap, &present_pfns(&present));
    let baseline = record_baseline(&present);
    let bits = read(&bitmap, &baseline_pfns(&baseline));
    let seen = classify_observation(&baseline, present.clone(), &bits).unwrap();
    assert_eq!(
        seen.still_idle_baseline_gpas,
        BTreeSet::from([0, PAGE_SIZE])
    );
    assert_eq!(seen.tracked_page_count(), 0);
    assert_eq!(seen.tracked_ranges(), Ok(vec![]));

    bitmap[0] &= !(1 << 3);
    let bits = read(&bitmap, &baseline_pfns(&baseline));
    let seen = classify_observation(&baseline, present, &bits).unwrap();
    assert_eq!(seen.accessed_baseline_gpas, BTreeSet::from([PAGE_SIZE]));
    assert_eq!(seen.still_idle_baseline_gpas, BTreeSet::from([0]));
}

#[test]
fn pfns_come_in_the_order_of_the_gpas() {
    let present = BTreeMap::from([(0x3000, 1), (0x1000, 2), (0x2000, 2)]);
    assert_eq!(present_pfns(&present), vec![2, 2, 1]);
    let baseline = record_baseline(&present);
    assert_eq!(
        baseline,
        BTreeMap::from([
            (0x1000, BaselinePage { pfn: 2 }),
            (0x2000, BaselinePage { pfn: 2 }),
            (0x3000, BaselinePage { pfn: 1 }),
        ])
    );
    assert_eq!(baseline_pfns(&baseline), vec![2, 2, 1]);
}

#[test]
fn missing_idle_bit_names_the_first_stable_page() {
    let baseline = BTreeMap::from([
        (0, BaselinePage { pfn: 10 }),
        (PAGE_SIZE, BaselinePage { pfn: 20 }),
        (PAGE_SIZE * 2, BaselinePage { pfn: 30 }),
    ]);
    let current = BTreeMap::from([(0, 11), (PAGE_SIZE, 20), (PAGE_SIZE * 2, 30)]);
    assert_eq!(
        classify_observation(&baseline, current, &BTreeMap::from([(10, true)])),
        Err(TrackingError::MissingIdleBit { pfn: 20 })
    );
}

#[test]
fn every_page_is_accounted_for_once() {
    let baseline = BTreeMap::from([
        (0, BaselinePage { pfn: 1 }),
        (PAGE_SIZE, BaselinePage { pfn: 2 }),
        (PAGE_SIZE * 2, BaselinePage { pfn: 3 }),
        (PAGE_SIZE * 3, BaselinePage { pfn: 4 }),
    ]);
    let current = BTreeMap::from([
        (0, 1),
        (PAGE_SIZE, 2),
        (PAGE_SIZE * 2, 33),
        (PAGE_SIZE * 9, 9),
    ]);
    let bits = BTreeMap::from([(1, true), (2, false)]);
    let seen = classify_observation(&baseline, current, &bits).unwrap();
    assert_eq!(seen.still_idle_baseline_gpas, BTreeSet::from([0]));
    assert_eq!(seen.accessed_baseline_gpas, BTreeSet::from([PAGE_SIZE]));
    assert_eq!(seen.replaced_baseline_gpas, BTreeSet::from([PAGE_SIZE * 2]));
    assert_eq!(seen.no_longer_present_gpas, BTreeSet::from([PAGE_SIZE * 3]));
    assert_eq!(
        seen.newly_present_gpas,
        BTreeSet::from([PAGE_SIZE * 2, PAGE_SIZE * 9])
    );
    assert_eq!(seen.tracked_page_count(), 3);
    assert_eq!(seen.tracked_bytes(), 12288);
    assert_eq!(
        seen.tracked_ranges(),
        Ok(vec![
            GuestMemoryRange {
                gpa: PAGE_SIZE,
                size: PAGE_SIZE * 2
            },
            GuestMemoryRange {
                gpa: PAGE_SIZE * 9,
                size: PAGE_SIZE
            },
        ])
    );
}

#[test]
fn coalesce_handles_the_ends_of_the_address_space() {
    assert_eq!(coalesce_gpa_pages(&BTreeSet::new()), Ok(vec![]));
    let last = u64::MAX - 4095;
    assert_eq!(
        coalesce_gpa_pages(&BTreeSet::from([0, last - PAGE_SIZE, last])),
        Ok(vec![
            GuestMemoryRange {
                gpa: 0,
                size: PAGE_SIZE
            },
            GuestMemoryRange {
                gpa: last - PAGE_SIZE,
                size: PAGE_SIZE * 2
            },
        ])
    );
    assert_eq!(
        coalesce_gpa_pages(&BTreeSet::from([0, PAGE_SIZE + 1, PAGE_SIZE * 2 + 5])),
        Err(TrackingError::UnalignedPage { gpa: PAGE_SIZE + 1 })
    );
}

#[test]
fn working_set_names_its_tracker_and_its_faults() {
    let observation = IdlePageTrackingObservation {
        newly_present_gpas: BTreeSet::from([PAGE_SIZE * 4]),
        ..Default::default()
    };
    let region = GuestMemoryRegion {
        base_host_virt_addr: 0x1000,
        guest_phys_addr: 0,
        size: PAGE_SIZE * 5,
        page_size: PAGE_SIZE,
    };
    let limits = GuestMemoryWorkingSetLimits {
        max_bytes: PAGE_SIZE,
        max_ranges: 1,
        max_guest_memory_ratio_percent: 20,
    };
    let accepted = observation.to_working_set(&[region], limits).unwrap();
    assert_eq!(accepted.tracker, LINUX_IDLE_PAGE_TRACKER);
    let small = GuestMemoryRegion {
        size: PAGE_SIZE * 4,
        ..region
    };
    assert_eq!(
        observation.to_working_set(&[small], limits),
        Err(TrackingError::WorkingSet {
            error: WorkingSetError::OutsideGuestMemory { gpa: PAGE_SIZE * 4 }
        })
    );
    let unaligned = IdlePageTrackingObservation {
        newly_present_gpas: BTreeSet::from([7]),
        ..Default::default()
    };
    assert_eq!(
        unaligned.to_working_set(&[region], limits),
        Err(TrackingError::UnalignedPage { gpa: 7 })
    );
}

#[test]
fn tracker_is_made_for_valid_targets_only() {
    let io = FakeIdlePageTrackingIo::new(vec![], BTreeMap::new());
    let no_process = IdlePageTrackingTarget {
        firecracker_pid: 0,
        ..target()
    };
    assert_eq!(
        IdlePageTracker::new_with_io(no_process, false, &io).err(),
        Some(TrackingError::NoProcess)
    );
    assert_eq!(
        IdlePageTracker::new_with_io(target(), false, &io).err(),
        Some(TrackingError::UnsupportedHost)
    );
    let no_memory = IdlePageTrackingTarget {
        firecracker_pid: 1,
        regions: vec![],
    };
    assert_eq!(
        IdlePageTracker::new_with_io(no_memory, true, &io).err(),
        Some(TrackingError::NoRegions)
    );
}

#[test]
fn baseline_is_recorded_and_observed_through_the_io() {
    let io = FakeIdlePageTrackingIo::new(
        vec![
            BTreeMap::from([(PAGE_SIZE, 12), (0, 13)]),
            BTreeMap::from([(0, 13)]),
        ],
        BTreeMap::from([(13, true)]),
    );
    let mut tracker = IdlePageTracker::new_with_io(target(), true, &io)
        .ok()
        .expect("target is valid");
    assert!(!tracker.has_baseline());
    assert_eq!(
        tracker.observe_after_pause(),
        Err(TrackingFailure::Tracking(TrackingError::NoBaseline))
    );
    assert_eq!(
        tracker.mark_baseline_idle(),
        Ok(IdlePageTrackingBaseline { present_pages: 2 })
    );
    assert!(tracker.has_baseline());
    assert!(tracker.was_baseline_present(0));
    assert!(tracker.was_baseline_present(PAGE_SIZE));
    assert!(!tracker.was_baseline_present(PAGE_SIZE * 2));
    let seen = tracker.observe_after_pause().unwrap();
    assert_eq!(seen.still_idle_baseline_gpas, BTreeSet::from([0]));
    assert_eq!(seen.no_longer_present_gpas, BTreeSet::from([PAGE_SIZE]));
    assert_eq!(*io.marked_pfns.lock().unwrap(), vec![vec![13, 12]]);
    assert_eq!(*io.read_pfns.lock().unwrap(), vec![vec![13, 12]]);
    assert_eq!(
        tracker.observe_after_pause(),
        Err(TrackingFailure::Io(
            "fake backend ran out of pagemap scans".to_string()
        ))
    );
}

#[test]
fn failed_capture_leaves_no_baseline() {
    let nothing = FakeIdlePageTrackingIo::new(vec![BTreeMap::new()], BTreeMap::new());
    let mut tracker = IdlePageTracker::new_with_io(target(), true, &nothing)
        .ok()
        .expect("target is valid");
    assert_eq!(
        tracker.mark_baseline_idle(),
        Err(TrackingFailure::Tracking(TrackingError::NothingPresent))
    );
    assert!(!tracker.has_baseline());

    let mut refusing =
        FakeIdlePageTrackingIo::new(vec![BTreeMap::from([(0, 1)])], BTreeMap::new());
    refusing.refuse_marking = true;
    let mut tracker = IdlePageTracker::new_with_io(target(), true, &refusing)
        .ok()
        .expect("target is valid");
    assert_eq!(
        tracker.mark_baseline_idle(),
        Err(TrackingFailure::Io("fake bitmap is read-only".to_string()))
    );
    assert!(!tracker.has_baseline());
    assert_eq!(IdlePageTrackingBaseline::default().present_pages, 0);
}

#[test]
fn transfers_go_on_where_the_last_call_ended() {
    let transfer = Transfer::begin(Direction::Read, 100, 8);
    assert_eq!(
        transfer.next_step(),
        Some(TransferStep {
            offset: 100,
            from: 0
        })
    );
    let transfer = transfer.advance(3).unwrap();
    assert_eq!(
        transfer.next_step(),
        Some(TransferStep {
            offset: 103,
            from: 3
        })
    );
    assert_eq!(transfer.advance(0), Err(TrackingError::ShortRead));
    let transfer = transfer.advance(5).unwrap();
    assert_eq!(transfer.next_step(), None);
    assert_eq!(
        Transfer::begin(Direction::Write, 0, 8).advance(0),
        Err(TrackingError::ShortWrite)
    );
    assert_eq!(Transfer::begin(Direction::Write, 0, 0).next_step(), None);
}

#[test]
fn tracking_errors_say_what_is_wrong() {
    let messages = [
        (
            TrackingError::NoProcess,
            "Firecracker PID must be non-zero for idle-page tracking",
        ),
        (
            TrackingError::UnsupportedHost,
            "idle-page template profiling currently supports x86_64 hosts only",
        ),
        (
            TrackingError::NoRegions,
            "Firecracker returned no guest-memory regions",
        ),
        (
            TrackingError::UnsupportedPageSize { page_size: 2097152 },
            "the experiment supports only normal 4 KiB guest pages; Firecracker reported 2097152",
        ),
        (
            TrackingError::RegionSize,
            "guest memory region size must be a non-zero multiple of 4 KiB",
        ),
        (
            TrackingError::RegionAlignment,
            "guest memory HVA and GPA starts must be 4 KiB aligned",
        ),
        (
            TrackingError::RegionOverflow {
                space: AddressSpace::Hva,
            },
            "guest memory HVA range overflows u64",
        ),
        (
            TrackingError::RegionOverflow {
                space: AddressSpace::Gpa,
            },
            "guest memory GPA range overflows u64",
        ),
        (
            TrackingError::RegionOverlap {
                space: AddressSpace::Hva,
            },
            "Firecracker returned overlapping guest-memory HVA regions",
        ),
        (
            TrackingError::RegionOverlap {
                space: AddressSpace::Gpa,
            },
            "Firecracker returned overlapping guest-memory GPA regions",
        ),
        (
            TrackingError::HvaOverflow,
            "HVA overflow while reading pagemap",
        ),
        (
            TrackingError::MaskedPfn,
            "pagemap PFN is masked for a present page; run with CAP_SYS_ADMIN",
        ),
        (
            TrackingError::MaskedEntry { hva: 0xab000 },
            "read pagemap entry for Firecracker HVA 0xab000",
        ),
        (
            TrackingError::GpaOverflow,
            "GPA overflow while translating HVA",
        ),
        (
            TrackingError::DuplicatePage { gpa: 0x1000 },
            "duplicate guest physical page 0x1000",
        ),
        (
            TrackingError::NothingPresent,
            "no present guest-RAM pages found before tracking",
        ),
        (
            TrackingError::NoBaseline,
            "mark_baseline_idle must run before idle-page observation",
        ),
        (
            TrackingError::MissingIdleBit { pfn: 10 },
            "missing idle bitmap result for PFN 10",
        ),
        (
            TrackingError::UnalignedPage { gpa: 1 },
            "GPA 0x1 is not 4 KiB aligned",
        ),
        (
            TrackingError::RangeOverflow,
            "coalesced GPA range overflows u64",
        ),
        (TrackingError::ShortRead, "short page-tracking read"),
        (TrackingError::ShortWrite, "short page-idle write"),
        (
            TrackingError::WorkingSet {
                error: WorkingSetError::TotalOverflow,
            },
            "guest-memory working set size overflows u64",
        ),
    ];
    for (error, message) in messages {
        assert_eq!(error.message(), message);
    }
    assert_eq!(
        TrackingError::MaskedEntry { hva: 0xab000 }.cause(),
        Some(TrackingError::MaskedPfn)
    );
    assert_eq!(TrackingError::MaskedPfn.cause(), None);
}
