//! The guest-memory working set of a snapshot, as its manifest carries it.
//!
//! A working set is a hint: which guest-physical ranges a restore is going to
//! touch. It is used whole or not at all, so it is checked against the layout
//! of the guest's memory and against a budget.

use crate::text;
use vstd::prelude::*;

verus! {

/// Size of a guest page in bytes.
pub const GUEST_MEMORY_PAGE_SIZE: u64 = 4096;

/// Names the tracker that watches idle bits of host pages.
pub const LINUX_IDLE_PAGE_TRACKER: &'static str = "linux_idle_page";

/// Names the tracker that looks which pages are resident.
pub const LINUX_MINCORE_TRACKER: &'static str = "linux_mincore";

/// A guest-physical range.
#[derive(Clone, Copy, Debug, PartialEq, Eq)]
pub struct GuestMemoryRange {
    pub gpa: u64,
    pub size: u64,
}

/// A region of guest memory and where the host maps it.
#[derive(Clone, Copy, Debug, PartialEq, Eq)]
pub struct GuestMemoryRegion {
    pub base_host_virt_addr: u64,
    pub guest_phys_addr: u64,
    pub size: u64,
    pub page_size: u64,
}

/// How large a working set may be.
#[derive(Clone, Copy, Debug, PartialEq, Eq)]
pub struct GuestMemoryWorkingSetLimits {
    pub max_bytes: u64,
    pub max_ranges: usize,
    /// Share of the guest's memory, in percent.
    pub max_guest_memory_ratio_percent: u8,
}

/// The ranges that a tracker found.
#[derive(Clone, Debug, PartialEq, Eq)]
pub struct GuestMemoryWorkingSet {
    /// The tracker's name.
    pub tracker: String,
    pub ranges: Vec<GuestMemoryRange>,
}

/// Why a working set is refused.
#[derive(Clone, Copy, Debug, PartialEq, Eq)]
pub enum WorkingSetError {
    /// It has more ranges than are allowed.
    TooManyRanges { count: usize, max: usize },
    /// A range is empty, does not consist of whole pages, or runs past the
    /// end of the address space.
    MalformedRange { gpa: u64 },
    /// A range begins before the one before it ends.
    UnorderedRange { gpa: u64 },
    /// A range does not lie within one region of guest memory.
    OutsideGuestMemory { gpa: u64 },
    /// The ranges together are longer than the address space.
    TotalOverflow,
    /// The ranges together are longer than is allowed.
    TooManyBytes { bytes: u64, max: u64 },
    /// The ranges together are a larger share of the guest's memory than is
    /// allowed.
    TooLargeShare { bytes: u64, max_percent: u8 },
}

impl WorkingSetError {
    /// What the error says.
    pub open spec fn text(self) -> Seq<char> {
        match self {
            WorkingSetError::TooManyRanges { count, max } =>
                "guest-memory working set has "@ + text::decimal(count as nat)
                    + " ranges, which exceeds configured maximum "@ + text::decimal(max as nat),
            WorkingSetError::MalformedRange { gpa } => "malformed guest-memory range at GPA 0x"@
                + text::hexadecimal(gpa as nat),
            WorkingSetError::UnorderedRange { gpa } =>
                "unordered or overlapping guest-memory range at GPA 0x"@ + text::hexadecimal(
                    gpa as nat,
                ),
            WorkingSetError::OutsideGuestMemory { gpa } => "guest-memory range at GPA 0x"@
                + text::hexadecimal(gpa as nat) + " lies outside guest memory"@,
            WorkingSetError::TotalOverflow => "guest-memory working set size overflows u64"@,
            WorkingSetError::TooManyBytes { bytes, max } => "guest-memory working set of "@
                + text::decimal(bytes as nat) + " bytes exceeds configured maximum "@
                + text::decimal(max as nat),
            WorkingSetError::TooLargeShare { bytes, max_percent } =>
                "guest-memory working set of "@ + text::decimal(bytes as nat)
                    + " bytes exceeds configured maximum share of guest memory, percent: "@
                    + text::decimal(max_percent as nat),
        }
    }

    /// What the error says.
    pub fn message(&self) -> (message: String)
        ensures
            message@ == self.text(),
    {
        match *self {
            WorkingSetError::TooManyRanges { count, max } => {
                let mut out = "guest-memory working set has ".to_owned();
                text::push_decimal(&mut out, count as u64);
                out.append(" ranges, which exceeds configured maximum ");
                text::push_decimal(&mut out, max as u64);
                out
            },
            WorkingSetError::MalformedRange { gpa } => {
                let mut out = "malformed guest-memory range at GPA 0x".to_owned();
                text::push_hexadecimal(&mut out, gpa);
                out
            },
            WorkingSetError::UnorderedRange { gpa } => {
                let mut out = "unordered or overlapping guest-memory range at GPA 0x".to_owned();
                text::push_hexadecimal(&mut out, gpa);
                out
            },
            WorkingSetError::OutsideGuestMemory { gpa } => {
                let mut out = "guest-memory range at GPA 0x".to_owned();
                text::push_hexadecimal(&mut out, gpa);
                out.append(" lies outside guest memory");
                out
            },
            WorkingSetError::TotalOverflow => {
                "guest-memory working set size overflows u64".to_owned()
            },
            WorkingSetError::TooManyBytes { bytes, max } => {
                let mut out = "guest-memory working set of ".to_owned();
                text::push_decimal(&mut out, bytes);
                out.append(" bytes exceeds configured maximum ");
                text::push_decimal(&mut out, max);
                out
            },
            WorkingSetError::TooLargeShare { bytes, max_percent } => {
                let mut out = "guest-memory working set of ".to_owned();
                text::push_decimal(&mut out, bytes);
                out.append(
                    " bytes exceeds configured maximum share of guest memory, percent: ",
                );
                text::push_decimal(&mut out, max_percent as u64);
                out
            },
        }
    }
}

impl GuestMemoryRange {
    /// The first address after the range.
    pub open spec fn end(self) -> int {
        self.gpa + self.size
    }

    /// Whether the range consists of whole pages, at least one, within the
    /// address space.
    pub open spec fn is_well_formed(self) -> bool {
        &&& self.size > 0
        &&& self.gpa % GUEST_MEMORY_PAGE_SIZE == 0
        &&& self.size % GUEST_MEMORY_PAGE_SIZE == 0
        &&& self.end() <= u64::MAX
    }

    /// Whether the range lies within the region.
    pub open spec fn is_within(self, region: GuestMemoryRegion) -> bool {
        &&& region.guest_phys_addr <= self.gpa
        &&& self.end() <= region.guest_phys_addr + region.size
    }
}

/// Number of bytes in the ranges together.
pub open spec fn total_size(ranges: Seq<GuestMemoryRange>) -> int
    decreases ranges.len(),
{
    if ranges.len() == 0 {
        0
    } else {
        total_size(ranges.drop_last()) + ranges.last().size
    }
}

/// Number of bytes of guest memory.
pub open spec fn guest_memory_size(regions: Seq<GuestMemoryRegion>) -> int
    decreases regions.len(),
{
    if regions.len() == 0 {
        0
    } else {
        guest_memory_size(regions.drop_last()) + regions.last().size
    }
}

/// Whether one of the regions holds the range.
pub open spec fn is_guest_memory(
    range: GuestMemoryRange,
    regions: Seq<GuestMemoryRegion>,
) -> bool {
    exists|j: int| 0 <= j < regions.len() && range.is_within(#[trigger] regions[j])
}

/// What is wrong with the range at `i`, given the one before it.
pub open spec fn range_error(
    ranges: Seq<GuestMemoryRange>,
    regions: Seq<GuestMemoryRegion>,
    i: int,
) -> Option<WorkingSetError> {
    if !ranges[i].is_well_formed() {
        Some(WorkingSetError::MalformedRange { gpa: ranges[i].gpa })
    } else if i > 0 && ranges[i - 1].end() > ranges[i].gpa {
        Some(WorkingSetError::UnorderedRange { gpa: ranges[i].gpa })
    } else if !is_guest_memory(ranges[i], regions) {
        Some(WorkingSetError::OutsideGuestMemory { gpa: ranges[i].gpa })
    } else {
        None
    }
}

/// What is wrong with the first of the first `n` ranges that has anything
/// wrong.
pub open spec fn first_range_error(
    ranges: Seq<GuestMemoryRange>,
    regions: Seq<GuestMemoryRegion>,
    n: int,
) -> Option<WorkingSetError>
    decreases n,
{
    if n <= 0 {
        None
    } else {
        match first_range_error(ranges, regions, n - 1) {
            Some(error) => Some(error),
            None => range_error(ranges, regions, n - 1),
        }
    }
}

/// The verdict on ranges as a working set for the given memory and budget.
pub open spec fn verdict(
    ranges: Seq<GuestMemoryRange>,
    regions: Seq<GuestMemoryRegion>,
    limits: GuestMemoryWorkingSetLimits,
) -> Result<(), WorkingSetError> {
    if ranges.len() > limits.max_ranges {
        Err(
            WorkingSetError::TooManyRanges {
                count: ranges.len() as usize,
                max: limits.max_ranges,
            },
        )
    } else {
        match first_range_error(ranges, regions, ranges.len() as int) {
            Some(error) => Err(error),
            None => if total_size(ranges) > limits.max_bytes {
                Err(
                    WorkingSetError::TooManyBytes {
                        bytes: total_size(ranges) as u64,
                        max: limits.max_bytes,
                    },
                )
            } else if total_size(ranges) * 100 > guest_memory_size(regions)
                * limits.max_guest_memory_ratio_percent {
                Err(
                    WorkingSetError::TooLargeShare {
                        bytes: total_size(ranges) as u64,
                        max_percent: limits.max_guest_memory_ratio_percent,
                    },
                )
            } else {
                Ok(())
            },
        }
    }
}

proof fn lemma_no_range_error(
    ranges: Seq<GuestMemoryRange>,
    regions: Seq<GuestMemoryRegion>,
    n: int,
)
    requires
        0 <= n <= ranges.len(),
    ensures
        first_range_error(ranges, regions, n) is None <==> forall|i: int|
            0 <= i < n ==> (#[trigger] range_error(ranges, regions, i)) is None,
    decreases n,
{
    if n > 0 {
        lemma_no_range_error(ranges, regions, n - 1);
    }
}

/// The ranges up to `n` fill no more than the addresses up to their end.
proof fn lemma_total_is_bounded(
    ranges: Seq<GuestMemoryRange>,
    regions: Seq<GuestMemoryRegion>,
    n: int,
)
    requires
        0 <= n <= ranges.len(),
        first_range_error(ranges, regions, n) is None,
    ensures
        0 <= total_size(ranges.take(n)) <= (if n == 0 {
            0
        } else {
            ranges[n - 1].end()
        }),
        n > 0 ==> ranges[n - 1].end() <= u64::MAX,
    decreases n,
{
    if n > 0 {
        lemma_total_is_bounded(ranges, regions, n - 1);
        assert(ranges.take(n).drop_last() =~= ranges.take(n - 1));
        assert(range_error(ranges, regions, n - 1) is None);
    }
}

/// A working set passes exactly when it is within the budget and every range
/// of it consists of whole pages, comes after the one before it, and lies
/// within one region of guest memory.
pub proof fn law_verdict_means(
    ranges: Seq<GuestMemoryRange>,
    regions: Seq<GuestMemoryRegion>,
    limits: GuestMemoryWorkingSetLimits,
)
    ensures
        verdict(ranges, regions, limits) is Ok <==> {
            &&& ranges.len() <= limits.max_ranges
            &&& forall|i: int|
                0 <= i < ranges.len() ==> (#[trigger] ranges[i]).is_well_formed()
                    && is_guest_memory(ranges[i], regions)
            &&& forall|i: int, j: int|
                0 <= i < j < ranges.len() ==> (#[trigger] ranges[i]).end() <= (
                #[trigger] ranges[j]).gpa
            &&& total_size(ranges) <= limits.max_bytes
            &&& total_size(ranges) * 100 <= guest_memory_size(regions)
                * limits.max_guest_memory_ratio_percent
        },
{
    lemma_no_range_error(ranges, regions, ranges.len() as int);
    if first_range_error(ranges, regions, ranges.len() as int) is None {
        assert forall|i: int| 0 <= i < ranges.len() implies (
        #[trigger] ranges[i]).is_well_formed() && is_guest_memory(ranges[i], regions) by {
            assert(range_error(ranges, regions, i) is None);
        }
        assert forall|i: int, j: int| 0 <= i < j < ranges.len() implies (
        #[trigger] ranges[i]).end() <= (#[trigger] ranges[j]).gpa by {
            lemma_ranges_are_ordered(ranges, regions, i, j);
        }
    }
    if forall|i: int|
        0 <= i < ranges.len() ==> (#[trigger] ranges[i]).is_well_formed() && is_guest_memory(
            ranges[i],
            regions,
        ) {
        if forall|i: int, j: int|
            0 <= i < j < ranges.len() ==> (#[trigger] ranges[i]).end() <= (
            #[trigger] ranges[j]).gpa {
            assert forall|i: int| 0 <= i < ranges.len() implies (
            #[trigger] range_error(ranges, regions, i)) is None by {
                assert(ranges[i].is_well_formed());
                if i > 0 {
                    assert(ranges[i - 1].end() <= ranges[i].gpa);
                }
            }
        }
    }
}

proof fn lemma_ranges_are_ordered(
    ranges: Seq<GuestMemoryRange>,
    regions: Seq<GuestMemoryRegion>,
    i: int,
    j: int,
)
    requires
        0 <= i < j < ranges.len(),
        forall|k: int|
            0 <= k < ranges.len() ==> (#[trigger] range_error(ranges, regions, k)) is None,
    ensures
        ranges[i].end() <= ranges[j].gpa,
    decreases j - i,
{
    assert(range_error(ranges, regions, j) is None);
    assert(range_error(ranges, regions, j - 1) is None);
    if i < j - 1 {
        lemma_ranges_are_ordered(ranges, regions, i, j - 1);
    }
}

impl GuestMemoryWorkingSet {
    /// A working set that the resident-page tracker found.
    pub fn new(ranges: Vec<GuestMemoryRange>) -> (working_set: GuestMemoryWorkingSet)
        ensures
            working_set.ranges == ranges,
            working_set.tracker@ == LINUX_MINCORE_TRACKER@,
    {
        GuestMemoryWorkingSet { tracker: LINUX_MINCORE_TRACKER.to_owned(), ranges }
    }

    /// A working set that the named tracker found.
    pub fn new_with_tracker(tracker: &str, ranges: Vec<GuestMemoryRange>) -> (working_set:
        GuestMemoryWorkingSet)
        ensures
            working_set.ranges == ranges,
            working_set.tracker@ == tracker@,
    {
        GuestMemoryWorkingSet { tracker: tracker.to_owned(), ranges }
    }

    /// Number of bytes in the ranges together.
    pub fn total_bytes(&self) -> (total: Result<u64, WorkingSetError>)
        ensures
            total == (if total_size(self.ranges@) <= u64::MAX {
                Ok(total_size(self.ranges@) as u64)
            } else {
                Err(WorkingSetError::TotalOverflow)
            }),
            total matches Ok(bytes) ==> bytes == total_size(self.ranges@),
    {
        let mut total: u64 = 0;
        let mut i: usize = 0;
        proof {
            assert(self.ranges@.take(0) =~= Seq::empty());
        }
        while i < self.ranges.len()
            invariant
                i <= self.ranges@.len(),
                total == total_size(self.ranges@.take(i as int)),
            decreases self.ranges@.len() - i,
        {
            proof {
                let seen = self.ranges@.take(i + 1);
                assert(seen.drop_last() =~= self.ranges@.take(i as int));
                lemma_total_grows(self.ranges@, i + 1);
            }
            match total.checked_add(self.ranges[i].size) {
                Some(sum) => {
                    total = sum;
                },
                None => {
                    return Err(WorkingSetError::TotalOverflow);
                },
            }
            i += 1;
        }
        proof {
            assert(self.ranges@.take(self.ranges@.len() as int) =~= self.ranges@);
        }
        Ok(total)
    }

    /// Number of bytes of guest memory.
    fn guest_memory_bytes(regions: &[GuestMemoryRegion]) -> (total: u128)
        ensures
            total == guest_memory_size(regions@),
    {
        let mut total: u128 = 0;
        let mut i: usize = 0;
        proof {
            assert(regions@.take(0) =~= Seq::empty());
        }
        while i < regions.len()
            invariant
                i <= regions@.len(),
                total == guest_memory_size(regions@.take(i as int)),
                total <= i * 0xffff_ffff_ffff_ffff,
            decreases regions@.len() - i,
        {
            proof {
                assert(regions@.take(i + 1).drop_last() =~= regions@.take(i as int));
                assert(i * 0xffff_ffff_ffff_ffff + 0xffff_ffff_ffff_ffff <= 0xffff_ffff_ffff_ffff
                    * 0xffff_ffff_ffff_ffff) by (nonlinear_arith)
                    requires
                        i + 1 <= 0xffff_ffff_ffff_ffffu64,
                ;
            }
            total = total + regions[i].size as u128;
            i += 1;
        }
        proof {
            assert(regions@.take(regions@.len() as int) =~= regions@);
        }
        total
    }

    /// Whether one of the regions holds the range.
    fn is_guest_memory(range: &GuestMemoryRange, regions: &[GuestMemoryRegion]) -> (held: bool)
        requires
            range.is_well_formed(),
        ensures
            held == is_guest_memory(*range, regions@),
    {
        let mut j: usize = 0;
        while j < regions.len()
            invariant
                j <= regions@.len(),
                range.is_well_formed(),
                forall|k: int| 0 <= k < j ==> !range.is_within(#[trigger] regions@[k]),
            decreases regions@.len() - j,
        {
            let region = regions[j];
            if region.guest_phys_addr <= range.gpa && (range.gpa - region.guest_phys_addr)
                <= region.size && range.size <= region.size - (range.gpa
                - region.guest_phys_addr) {
                assert(range.is_within(regions@[j as int]));
                return true;
            }
            j += 1;
        }
        false
    }

    /// Checks the working set against the layout of the guest's memory and
    /// against the budget.
    pub fn validate_for_regions(
        &self,
        regions: &[GuestMemoryRegion],
        limits: GuestMemoryWorkingSetLimits,
    ) -> (result: Result<(), WorkingSetError>)
        ensures
            result == verdict(self.ranges@, regions@, limits),
            result is Ok ==> total_size(self.ranges@) <= u64::MAX,
    {
        if self.ranges.len() > limits.max_ranges {
            return Err(
                WorkingSetError::TooManyRanges {
                    count: self.ranges.len(),
                    max: limits.max_ranges,
                },
            );
        }
        let ghost ranges = self.ranges@;
        let mut i: usize = 0;
        while i < self.ranges.len()
            invariant
                ranges == self.ranges@,
                i <= ranges.len(),
                ranges.len() <= limits.max_ranges,
                first_range_error(ranges, regions@, i as int) is None,
            decreases ranges.len() - i,
        {
            let range = self.ranges[i];
            let mut error: Option<WorkingSetError> = None;
            if range.size == 0 || range.gpa % GUEST_MEMORY_PAGE_SIZE != 0 || range.size
                % GUEST_MEMORY_PAGE_SIZE != 0 || range.size > u64::MAX - range.gpa {
                error = Some(WorkingSetError::MalformedRange { gpa: range.gpa });
            } else if i > 0 && {
                assert(range_error(ranges, regions@, i - 1) is None);
                let before = self.ranges[i - 1];
                before.gpa + before.size > range.gpa
            } {
                error = Some(WorkingSetError::UnorderedRange { gpa: range.gpa });
            } else if !Self::is_guest_memory(&range, regions) {
                error = Some(WorkingSetError::OutsideGuestMemory { gpa: range.gpa });
            }
            assert(error == range_error(ranges, regions@, i as int));
            i += 1;
            assert(first_range_error(ranges, regions@, i as int) == error);
            if let Some(error) = error {
                proof {
                    lemma_first_error_stays(ranges, regions@, i as int, ranges.len() as int);
                }
                return Err(error);
            }
        }
        proof {
            lemma_total_is_bounded(ranges, regions@, ranges.len() as int);
            assert(ranges.take(ranges.len() as int) =~= ranges);
        }
        let bytes: u64 = match self.total_bytes() {
            Ok(bytes) => bytes,
            Err(error) => {
                return Err(error);
            },
        };
        if bytes > limits.max_bytes {
            return Err(WorkingSetError::TooManyBytes { bytes, max: limits.max_bytes });
        }
        let percent: u8 = limits.max_guest_memory_ratio_percent;
        let memory: u128 = Self::guest_memory_bytes(regions);
        if Self::is_too_large_share(bytes, memory, percent) {
            return Err(WorkingSetError::TooLargeShare { bytes, max_percent: percent });
        }
        Ok(())
    }

    /// Whether the bytes are more than so many percent of the memory.
    fn is_too_large_share(bytes: u64, memory: u128, percent: u8) -> (too_large: bool)
        ensures
            too_large == (bytes * 100 > memory * percent),
    {
        let scaled: u128 = bytes as u128 * 100;
        if percent == 0 {
            assert(memory * percent == 0) by (nonlinear_arith)
                requires
                    percent == 0,
            ;
            return scaled > 0;
        }
        if memory >= scaled {
            assert(memory * percent >= memory) by (nonlinear_arith)
                requires
                    percent >= 1,
                    memory >= 0,
            ;
            return false;
        }
        assert(memory * percent <= 0xffff_ffff_ffff_ffff * 100 * 255) by (nonlinear_arith)
            requires
                0 <= memory <= 0xffff_ffff_ffff_ffff * 100,
                0 <= percent <= 255,
        ;
        scaled > memory * percent as u128
    }
}

proof fn lemma_total_grows(ranges: Seq<GuestMemoryRange>, n: int)
    requires
        0 <= n <= ranges.len(),
    ensures
        total_size(ranges.take(n)) <= total_size(ranges),
    decreases ranges.len() - n,
{
    if n == ranges.len() {
        assert(ranges.take(n) =~= ranges);
    } else {
        lemma_total_grows(ranges, n + 1);
        assert(ranges.take(n + 1).drop_last() =~= ranges.take(n));
    }
}

proof fn lemma_first_error_stays(
    ranges: Seq<GuestMemoryRange>,
    regions: Seq<GuestMemoryRegion>,
    n: int,
    m: int,
)
    requires
        0 <= n <= m,
        first_range_error(ranges, regions, n) is Some,
    ensures
        first_range_error(ranges, regions, m) == first_range_error(ranges, regions, n),
    decreases m - n,
{
    if n < m {
        lemma_first_error_stays(ranges, regions, n, m - 1);
    }
}

/// A range of a working set that passes is made of whole 4 KiB pages within the
/// address space and lies within one region of guest memory.
pub proof fn law_accepted_range_is_guest_memory(
    ranges: Seq<GuestMemoryRange>,
    regions: Seq<GuestMemoryRegion>,
    limits: GuestMemoryWorkingSetLimits,
    i: int,
)
    requires
        verdict(ranges, regions, limits) is Ok,
        0 <= i < ranges.len(),
    ensures
        ranges[i].size > 0,
        ranges[i].gpa % 4096 == 0,
        ranges[i].size % 4096 == 0,
        ranges[i].gpa + ranges[i].size <= u64::MAX,
        exists|j: int|
            0 <= j < regions.len() && (#[trigger] regions[j]).guest_phys_addr <= ranges[i].gpa
                && ranges[i].gpa + ranges[i].size <= regions[j].guest_phys_addr + regions[j].size,
{
    law_verdict_means(ranges, regions, limits);
    assert(ranges[i].is_well_formed() && is_guest_memory(ranges[i], regions));
    let j = choose|j: int| 0 <= j < regions.len() && ranges[i].is_within(#[trigger] regions[j]);
    assert(ranges[i].is_within(regions[j]));
}

/// A working set that passes is within its budget: it has no more ranges, no
/// more bytes and no larger a share of the guest's memory than is allowed, and
/// its ranges are apart and in ascending order.
pub proof fn law_accepted_working_set_is_within_budget(
    ranges: Seq<GuestMemoryRange>,
    regions: Seq<GuestMemoryRegion>,
    limits: GuestMemoryWorkingSetLimits,
    i: int,
    j: int,
)
    requires
        verdict(ranges, regions, limits) is Ok,
    ensures
        ranges.len() <= limits.max_ranges,
        total_size(ranges) <= limits.max_bytes,
        total_size(ranges) * 100 <= guest_memory_size(regions)
            * limits.max_guest_memory_ratio_percent,
        0 <= i < j < ranges.len() ==> ranges[i].gpa + ranges[i].size <= ranges[j].gpa,
{
    law_verdict_means(ranges, regions, limits);
    if 0 <= i < j < ranges.len() {
        assert(ranges[i].end() <= ranges[j].gpa);
    }
}

/// A working set is not refused without need: one whose ranges are in place and
/// that is within its budget passes.
pub proof fn law_good_working_set_passes(
    ranges: Seq<GuestMemoryRange>,
    regions: Seq<GuestMemoryRegion>,
    limits: GuestMemoryWorkingSetLimits,
)
    requires
        ranges.len() <= limits.max_ranges,
        total_size(ranges) <= limits.max_bytes,
        total_size(ranges) * 100 <= guest_memory_size(regions)
            * limits.max_guest_memory_ratio_percent,
        forall|i: int|
            0 <= i < ranges.len() ==> {
                &&& (#[trigger] ranges[i]).size > 0
                &&& ranges[i].gpa % 4096 == 0
                &&& ranges[i].size % 4096 == 0
                &&& ranges[i].gpa + ranges[i].size <= u64::MAX
            },
        forall|i: int|
            0 <= i < ranges.len() ==> exists|j: int|
                0 <= j < regions.len() && (#[trigger] regions[j]).guest_phys_addr <= (
                #[trigger] ranges[i]).gpa && ranges[i].gpa + ranges[i].size
                    <= regions[j].guest_phys_addr + regions[j].size,
        forall|i: int, j: int|
            0 <= i < j < ranges.len() ==> (#[trigger] ranges[i]).gpa + ranges[i].size <= (
            #[trigger] ranges[j]).gpa,
    ensures
        verdict(ranges, regions, limits) is Ok,
{
    law_verdict_means(ranges, regions, limits);
    assert forall|i: int| 0 <= i < ranges.len() implies (#[trigger] ranges[i]).is_well_formed()
        && is_guest_memory(ranges[i], regions) by {
        let j = choose|j: int|
            0 <= j < regions.len() && (#[trigger] regions[j]).guest_phys_addr <= ranges[i].gpa
                && ranges[i].gpa + ranges[i].size <= regions[j].guest_phys_addr + regions[j].size;
        assert(ranges[i].is_within(regions[j]));
    }
    assert forall|i: int, j: int| 0 <= i < j < ranges.len() implies (#[trigger] ranges[i]).end() <= (
    #[trigger] ranges[j]).gpa by {}
}

/// The sizes of ranges add up: nothing is counted twice and nothing is left
/// out.
pub proof fn law_sizes_add_up(
    ranges: Seq<GuestMemoryRange>,
    range: GuestMemoryRange,
    regions: Seq<GuestMemoryRegion>,
    region: GuestMemoryRegion,
)
    ensures
        total_size(Seq::empty()) == 0,
        total_size(ranges.push(range)) == total_size(ranges) + range.size,
        guest_memory_size(Seq::empty()) == 0,
        guest_memory_size(regions.push(region)) == guest_memory_size(regions) + region.size,
{
    assert(ranges.push(range).drop_last() =~= ranges);
    assert(regions.push(region).drop_last() =~= regions);
}

proof fn lemma_range_error_is_of_a_range(
    ranges: Seq<GuestMemoryRange>,
    regions: Seq<GuestMemoryRegion>,
    n: int,
)
    requires
        0 <= n <= ranges.len(),
        first_range_error(ranges, regions, n) is Some,
    ensures
        exists|i: int|
            0 <= i < n && #[trigger] range_error(ranges, regions, i) == first_range_error(
                ranges,
                regions,
                n,
            ) && first_range_error(ranges, regions, i) is None,
    decreases n,
{
    if first_range_error(ranges, regions, n - 1) is Some {
        lemma_range_error_is_of_a_range(ranges, regions, n - 1);
    } else {
        assert(range_error(ranges, regions, n - 1) == first_range_error(ranges, regions, n));
    }
}

/// What the verdict says of a working set that does not pass is so.
pub proof fn law_refusal_is_true(
    ranges: Seq<GuestMemoryRange>,
    regions: Seq<GuestMemoryRegion>,
    limits: GuestMemoryWorkingSetLimits,
)
    requires
        ranges.len() <= usize::MAX,
    ensures
        verdict(ranges, regions, limits) matches Err(error) ==> match error {
            WorkingSetError::TooManyRanges { count, max } => count == ranges.len() && max
                == limits.max_ranges && count > max,
            WorkingSetError::MalformedRange { gpa } => exists|i: int|
                0 <= i < ranges.len() && (#[trigger] ranges[i]).gpa == gpa && (ranges[i].size == 0
                    || gpa % 4096 != 0 || ranges[i].size % 4096 != 0 || gpa + ranges[i].size
                    > u64::MAX),
            WorkingSetError::UnorderedRange { gpa } => exists|i: int, j: int|
                0 <= i < j < ranges.len() && (#[trigger] ranges[j]).gpa == gpa && (
                #[trigger] ranges[i]).gpa + ranges[i].size > gpa,
            WorkingSetError::OutsideGuestMemory { gpa } => exists|i: int|
                0 <= i < ranges.len() && (#[trigger] ranges[i]).gpa == gpa && forall|j: int|
                    0 <= j < regions.len() ==> gpa < (#[trigger] regions[j]).guest_phys_addr || gpa
                        + ranges[i].size > regions[j].guest_phys_addr + regions[j].size,
            WorkingSetError::TooManyBytes { bytes, max } => bytes == total_size(ranges) && max
                == limits.max_bytes && bytes > max,
            WorkingSetError::TooLargeShare { bytes, max_percent } => bytes == total_size(ranges)
                && max_percent == limits.max_guest_memory_ratio_percent && bytes * 100
                > guest_memory_size(regions) * max_percent,
            _ => false,
        },
{
    let n = ranges.len() as int;
    if ranges.len() <= limits.max_ranges {
        if first_range_error(ranges, regions, n) is Some {
            lemma_range_error_is_of_a_range(ranges, regions, n);
            let i = choose|i: int|
                0 <= i < n && #[trigger] range_error(ranges, regions, i) == first_range_error(
                    ranges,
                    regions,
                    n,
                ) && first_range_error(ranges, regions, i) is None;
            assert(ranges[i].gpa == ranges[i].gpa);
            if range_error(ranges, regions, i) is Some && ranges[i].is_well_formed() && !(i > 0
                && ranges[i - 1].end() > ranges[i].gpa) {
                assert forall|j: int| 0 <= j < regions.len() implies ranges[i].gpa < (
                #[trigger] regions[j]).guest_phys_addr || ranges[i].gpa + ranges[i].size
                    > regions[j].guest_phys_addr + regions[j].size by {
                    assert(!ranges[i].is_within(regions[j]));
                }
            }
            if i > 0 {
                assert(0 <= i - 1 < i < ranges.len());
                assert(ranges[i - 1].gpa + ranges[i - 1].size == ranges[i - 1].end());
            }
        } else {
            lemma_total_is_bounded(ranges, regions, n);
            assert(ranges.take(n) =~= ranges);
        }
    }
}

/// The first range that is out of place decides: whatever ranges follow, the
/// verdict stays, unless there are too many of them.
pub proof fn law_first_faulty_range_decides(
    ranges: Seq<GuestMemoryRange>,
    more: Seq<GuestMemoryRange>,
    regions: Seq<GuestMemoryRegion>,
    limits: GuestMemoryWorkingSetLimits,
)
    requires
        verdict(ranges, regions, limits) matches Err(error) && (error is MalformedRange
            || error is UnorderedRange || error is OutsideGuestMemory),
        ranges.len() + more.len() <= limits.max_ranges,
    ensures
        verdict(ranges + more, regions, limits) == verdict(ranges, regions, limits),
{
    let all = ranges + more;
    lemma_same_range_errors(ranges, all, regions, ranges.len() as int);
    lemma_first_error_stays(all, regions, ranges.len() as int, all.len() as int);
}

proof fn lemma_same_range_errors(
    ranges: Seq<GuestMemoryRange>,
    all: Seq<GuestMemoryRange>,
    regions: Seq<GuestMemoryRegion>,
    n: int,
)
    requires
        0 <= n <= ranges.len() <= all.len(),
        forall|i: int| 0 <= i < ranges.len() ==> #[trigger] all[i] == ranges[i],
    ensures
        first_range_error(all, regions, n) == first_range_error(ranges, regions, n),
    decreases n,
{
    if n > 0 {
        lemma_same_range_errors(ranges, all, regions, n - 1);
        assert(all[n - 1] == ranges[n - 1]);
        if n > 1 {
            assert(all[n - 2] == ranges[n - 2]);
        }
    }
}

} // verus!
