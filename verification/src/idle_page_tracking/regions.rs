//! Where the guest's memory lies in the host process.

use crate::idle_page_tracking::error::{AddressSpace, TrackingError};
use vstd::prelude::*;

verus! {

/// Size of a page in bytes.
pub const PAGE_SIZE: u64 = 4096;

/// A region of guest memory.
#[derive(Clone, Copy, Debug, PartialEq, Eq)]
pub struct GuestRamRegion {
    pub base_host_virt_addr: u64,
    pub guest_phys_addr: u64,
    pub size: u64,
    pub page_size: u64,
}

/// The process that runs the guest, and its memory.
#[derive(Clone, Debug)]
pub struct IdlePageTrackingTarget {
    pub firecracker_pid: u32,
    pub regions: Vec<GuestRamRegion>,
}

impl GuestRamRegion {
    /// Where the region begins.
    pub open spec fn start(self, space: AddressSpace) -> u64 {
        match space {
            AddressSpace::Hva => self.base_host_virt_addr,
            AddressSpace::Gpa => self.guest_phys_addr,
        }
    }

    /// The first address after the region.
    pub open spec fn end(self, space: AddressSpace) -> int {
        self.start(space) + self.size
    }

    /// What is wrong with the region by itself.
    pub open spec fn fault(self) -> Option<TrackingError> {
        if self.page_size != PAGE_SIZE {
            Some(TrackingError::UnsupportedPageSize { page_size: self.page_size })
        } else if self.size == 0 || self.size % PAGE_SIZE != 0 {
            Some(TrackingError::RegionSize)
        } else if self.base_host_virt_addr % PAGE_SIZE != 0 || self.guest_phys_addr % PAGE_SIZE
            != 0 {
            Some(TrackingError::RegionAlignment)
        } else if self.end(AddressSpace::Hva) > u64::MAX {
            Some(TrackingError::RegionOverflow { space: AddressSpace::Hva })
        } else if self.end(AddressSpace::Gpa) > u64::MAX {
            Some(TrackingError::RegionOverflow { space: AddressSpace::Gpa })
        } else {
            None
        }
    }

    /// Where the region begins.
    fn start_in(&self, space: AddressSpace) -> (start: u64)
        ensures
            start == self.start(space),
    {
        match space {
            AddressSpace::Hva => self.base_host_virt_addr,
            AddressSpace::Gpa => self.guest_phys_addr,
        }
    }

    /// Looks for what is wrong with the region by itself.
    fn check(&self) -> (result: Result<(), TrackingError>)
        ensures
            result == (match self.fault() {
                Some(error) => Err::<(), TrackingError>(error),
                None => Ok(()),
            }),
    {
        if self.page_size != PAGE_SIZE {
            return Err(TrackingError::UnsupportedPageSize { page_size: self.page_size });
        }
        if self.size == 0 || self.size % PAGE_SIZE != 0 {
            return Err(TrackingError::RegionSize);
        }
        if self.base_host_virt_addr % PAGE_SIZE != 0 || self.guest_phys_addr % PAGE_SIZE != 0 {
            return Err(TrackingError::RegionAlignment);
        }
        if self.base_host_virt_addr.checked_add(self.size).is_none() {
            return Err(TrackingError::RegionOverflow { space: AddressSpace::Hva });
        }
        if self.guest_phys_addr.checked_add(self.size).is_none() {
            return Err(TrackingError::RegionOverflow { space: AddressSpace::Gpa });
        }
        Ok(())
    }
}

/// What is wrong with the first of the first `n` regions that has anything
/// wrong by itself.
pub open spec fn first_fault(regions: Seq<GuestRamRegion>, n: int) -> Option<TrackingError>
    decreases n,
{
    if n <= 0 {
        None
    } else {
        match first_fault(regions, n - 1) {
            Some(error) => Some(error),
            None => regions[n - 1].fault(),
        }
    }
}

/// Whether no two regions share an address.
pub open spec fn disjoint(regions: Seq<GuestRamRegion>, space: AddressSpace) -> bool {
    forall|i: int, j: int|
        0 <= i < regions.len() && 0 <= j < regions.len() && i != j ==> (
        #[trigger] regions[i]).end(space) <= (#[trigger] regions[j]).start(space)
            || regions[j].end(space) <= regions[i].start(space)
}

/// The verdict on the regions of a guest.
pub open spec fn verdict(regions: Seq<GuestRamRegion>) -> Result<(), TrackingError> {
    if regions.len() == 0 {
        Err(TrackingError::NoRegions)
    } else {
        match first_fault(regions, regions.len() as int) {
            Some(error) => Err(error),
            None => if !disjoint(regions, AddressSpace::Hva) {
                Err(TrackingError::RegionOverlap { space: AddressSpace::Hva })
            } else if !disjoint(regions, AddressSpace::Gpa) {
                Err(TrackingError::RegionOverlap { space: AddressSpace::Gpa })
            } else {
                Ok(())
            },
        }
    }
}

/// Regions pass exactly when there are any, each is made of whole 4 KiB pages
/// and fits into both address spaces, and no two overlap in either.
pub proof fn law_verdict_means(regions: Seq<GuestRamRegion>)
    ensures
        verdict(regions) is Ok <==> {
            &&& regions.len() > 0
            &&& forall|i: int|
                0 <= i < regions.len() ==> (#[trigger] regions[i]).fault() is None
            &&& disjoint(regions, AddressSpace::Hva)
            &&& disjoint(regions, AddressSpace::Gpa)
        },
        verdict(regions) is Ok <==> {
            &&& regions.len() > 0
            &&& forall|i: int|
                0 <= i < regions.len() ==> {
                    &&& (#[trigger] regions[i]).page_size == 4096
                    &&& regions[i].size > 0
                    &&& regions[i].size % 4096 == 0
                    &&& regions[i].base_host_virt_addr % 4096 == 0
                    &&& regions[i].guest_phys_addr % 4096 == 0
                    &&& regions[i].base_host_virt_addr + regions[i].size <= u64::MAX
                    &&& regions[i].guest_phys_addr + regions[i].size <= u64::MAX
                }
            &&& forall|i: int, j: int|
                0 <= i < j < regions.len() ==> {
                    &&& (#[trigger] regions[i]).base_host_virt_addr + regions[i].size <= (
                    #[trigger] regions[j]).base_host_virt_addr
                        || regions[j].base_host_virt_addr + regions[j].size
                        <= regions[i].base_host_virt_addr
                    &&& regions[i].guest_phys_addr + regions[i].size <= regions[j].guest_phys_addr
                        || regions[j].guest_phys_addr + regions[j].size
                        <= regions[i].guest_phys_addr
                }
        },
{
    lemma_no_fault(regions, regions.len() as int);
    if forall|i: int, j: int|
        0 <= i < j < regions.len() ==> {
            &&& (#[trigger] regions[i]).base_host_virt_addr + regions[i].size <= (
            #[trigger] regions[j]).base_host_virt_addr || regions[j].base_host_virt_addr
                + regions[j].size <= regions[i].base_host_virt_addr
            &&& regions[i].guest_phys_addr + regions[i].size <= regions[j].guest_phys_addr
                || regions[j].guest_phys_addr + regions[j].size <= regions[i].guest_phys_addr
        } {
        assert(disjoint(regions, AddressSpace::Hva));
        assert(disjoint(regions, AddressSpace::Gpa));
    }
    assert forall|i: int| 0 <= i < regions.len() implies ((#[trigger] regions[i]).fault() is None
        <==> regions[i].page_size == 4096 && regions[i].size > 0 && regions[i].size % 4096 == 0
        && regions[i].base_host_virt_addr % 4096 == 0 && regions[i].guest_phys_addr % 4096 == 0
        && regions[i].base_host_virt_addr + regions[i].size <= u64::MAX
        && regions[i].guest_phys_addr + regions[i].size <= u64::MAX) by {}
}

/// Of regions that pass, no two share an address, neither in the host process
/// nor in the guest.
pub proof fn law_valid_regions_share_no_address(
    regions: Seq<GuestRamRegion>,
    i: int,
    j: int,
    address: int,
)
    requires
        verdict(regions) is Ok,
        0 <= i < regions.len(),
        0 <= j < regions.len(),
        regions[i].base_host_virt_addr <= address < regions[i].base_host_virt_addr
            + regions[i].size && regions[j].base_host_virt_addr <= address
            < regions[j].base_host_virt_addr + regions[j].size || (regions[i].guest_phys_addr
            <= address < regions[i].guest_phys_addr + regions[i].size && regions[j].guest_phys_addr
            <= address < regions[j].guest_phys_addr + regions[j].size),
    ensures
        i == j,
{
    law_verdict_means(regions);
}

/// What the verdict says of regions that do not pass is so. A fault of one
/// region comes before an overlap of two, and an overlap in the host process
/// before one in the guest.
pub proof fn law_refusal_is_true(regions: Seq<GuestRamRegion>)
    ensures
        verdict(regions) matches Err(error) ==> match error {
            TrackingError::NoRegions => regions.len() == 0,
            TrackingError::UnsupportedPageSize { page_size } => page_size != 4096 && exists|i: int|
                0 <= i < regions.len() && (#[trigger] regions[i]).page_size == page_size,
            TrackingError::RegionSize => exists|i: int|
                0 <= i < regions.len() && ((#[trigger] regions[i]).size == 0 || regions[i].size
                    % 4096 != 0),
            TrackingError::RegionAlignment => exists|i: int|
                0 <= i < regions.len() && ((#[trigger] regions[i]).base_host_virt_addr % 4096 != 0
                    || regions[i].guest_phys_addr % 4096 != 0),
            TrackingError::RegionOverflow { space: AddressSpace::Hva } => exists|i: int|
                0 <= i < regions.len() && (#[trigger] regions[i]).base_host_virt_addr
                    + regions[i].size > u64::MAX,
            TrackingError::RegionOverflow { space: AddressSpace::Gpa } => exists|i: int|
                0 <= i < regions.len() && (#[trigger] regions[i]).guest_phys_addr + regions[i].size
                    > u64::MAX,
            TrackingError::RegionOverlap { space: AddressSpace::Hva } => exists|i: int, j: int|
                0 <= i < j < regions.len() && (#[trigger] regions[i]).base_host_virt_addr < (
                #[trigger] regions[j]).base_host_virt_addr + regions[j].size
                    && regions[j].base_host_virt_addr < regions[i].base_host_virt_addr
                    + regions[i].size,
            TrackingError::RegionOverlap { space: AddressSpace::Gpa } => exists|i: int, j: int|
                0 <= i < j < regions.len() && (#[trigger] regions[i]).guest_phys_addr < (
                #[trigger] regions[j]).guest_phys_addr + regions[j].size
                    && regions[j].guest_phys_addr < regions[i].guest_phys_addr + regions[i].size,
            _ => false,
        },
        verdict(regions) matches Err(TrackingError::RegionOverlap { .. }) ==> forall|i: int|
            0 <= i < regions.len() ==> (#[trigger] regions[i]).page_size == 4096 && regions[i].size
                > 0 && regions[i].size % 4096 == 0,
{
    lemma_no_fault(regions, regions.len() as int);
    if first_fault(regions, regions.len() as int) is Some {
        lemma_fault_is_of_a_region(regions, regions.len() as int);
        let i = choose|i: int|
            0 <= i < regions.len() && (#[trigger] regions[i]).fault() == first_fault(
                regions,
                regions.len() as int,
            );
        assert(regions[i].fault() is Some);
    } else if regions.len() > 0 && verdict(regions) is Err {
        let space = if !disjoint(regions, AddressSpace::Hva) {
            AddressSpace::Hva
        } else {
            AddressSpace::Gpa
        };
        let (i, j) = choose|i: int, j: int|
            0 <= i < regions.len() && 0 <= j < regions.len() && i != j && !((
            #[trigger] regions[i]).end(space) <= (#[trigger] regions[j]).start(space)
                || regions[j].end(space) <= regions[i].start(space));
        if i < j {
            assert(0 <= i < j < regions.len());
        } else {
            assert(0 <= j < i < regions.len());
        }
    }
}

proof fn lemma_fault_is_of_a_region(regions: Seq<GuestRamRegion>, n: int)
    requires
        0 <= n <= regions.len(),
        first_fault(regions, n) is Some,
    ensures
        exists|i: int|
            0 <= i < n && (#[trigger] regions[i]).fault() == first_fault(regions, n),
    decreases n,
{
    if first_fault(regions, n - 1) is Some {
        lemma_fault_is_of_a_region(regions, n - 1);
    } else {
        assert(regions[n - 1].fault() == first_fault(regions, n));
    }
}

/// The first region with a fault decides: whatever regions follow, the verdict
/// stays. Of the faults of one region, that of its page size comes first, then
/// those of its size, of its alignment and of its ends.
pub proof fn law_first_faulty_region_decides(
    regions: Seq<GuestRamRegion>,
    region: GuestRamRegion,
    more: Seq<GuestRamRegion>,
)
    requires
        verdict(regions) is Ok || regions.len() == 0,
    ensures
        ({
            let all = verdict(regions.push(region) + more);
            if region.page_size != 4096 {
                all == Err::<(), TrackingError>(
                    TrackingError::UnsupportedPageSize { page_size: region.page_size },
                )
            } else if region.size == 0 || region.size % 4096 != 0 {
                all == Err::<(), TrackingError>(TrackingError::RegionSize)
            } else if region.base_host_virt_addr % 4096 != 0 || region.guest_phys_addr % 4096
                != 0 {
                all == Err::<(), TrackingError>(TrackingError::RegionAlignment)
            } else if region.base_host_virt_addr + region.size > u64::MAX {
                all == Err::<(), TrackingError>(
                    TrackingError::RegionOverflow { space: AddressSpace::Hva },
                )
            } else if region.guest_phys_addr + region.size > u64::MAX {
                all == Err::<(), TrackingError>(
                    TrackingError::RegionOverflow { space: AddressSpace::Gpa },
                )
            } else {
                true
            }
        }),
{
    let all = regions.push(region) + more;
    let n = regions.len() as int;
    lemma_no_fault(regions, n);
    lemma_no_fault(all, n);
    assert(forall|i: int| 0 <= i < n ==> all[i] == #[trigger] regions[i]);
    assert(all[n] == region);
    assert forall|i: int| 0 <= i < n implies (#[trigger] all[i]).fault() is None by {
        assert(regions[i].fault() is None);
    }
    assert(first_fault(all, n + 1) == region.fault());
    if region.fault() is Some {
        lemma_first_fault_stays(all, n + 1, all.len() as int);
    }
}

/// Of regions that are apart in an address space and not empty, no two share an
/// address in it; and of regions that are not apart, two begin before the other
/// one ends.
pub proof fn law_apart_means(regions: Seq<GuestRamRegion>)
    requires
        forall|i: int| 0 <= i < regions.len() ==> (#[trigger] regions[i]).size > 0,
    ensures
        apart(regions, AddressSpace::Hva) <==> forall|i: int, j: int|
            0 <= i < j < regions.len() ==> (#[trigger] regions[i]).base_host_virt_addr
                + regions[i].size <= (#[trigger] regions[j]).base_host_virt_addr
                || regions[j].base_host_virt_addr + regions[j].size
                <= regions[i].base_host_virt_addr,
        apart(regions, AddressSpace::Gpa) <==> forall|i: int, j: int|
            0 <= i < j < regions.len() ==> (#[trigger] regions[i]).guest_phys_addr
                + regions[i].size <= (#[trigger] regions[j]).guest_phys_addr
                || regions[j].guest_phys_addr + regions[j].size <= regions[i].guest_phys_addr,
{
}

proof fn lemma_no_fault(regions: Seq<GuestRamRegion>, n: int)
    requires
        0 <= n <= regions.len(),
    ensures
        first_fault(regions, n) is None <==> forall|i: int|
            0 <= i < n ==> (#[trigger] regions[i]).fault() is None,
    decreases n,
{
    if n > 0 {
        lemma_no_fault(regions, n - 1);
    }
}

proof fn lemma_first_fault_stays(regions: Seq<GuestRamRegion>, n: int, m: int)
    requires
        0 <= n <= m,
        first_fault(regions, n) is Some,
    ensures
        first_fault(regions, m) == first_fault(regions, n),
    decreases m - n,
{
    if n < m {
        lemma_first_fault_stays(regions, n, m - 1);
    }
}

/// Whether the regions, put in the order of where they begin, each end before
/// the next begins. Regions that begin together keep their order.
pub open spec fn apart(regions: Seq<GuestRamRegion>, space: AddressSpace) -> bool {
    forall|i: int, j: int|
        0 <= i < j < regions.len() ==> pair_apart(#[trigger] regions[i], #[trigger] regions[j], space)
}

/// Whether, of two regions, the one that begins first ends before the other
/// begins. Where they begin together, `left` is first.
pub open spec fn pair_apart(
    left: GuestRamRegion,
    right: GuestRamRegion,
    space: AddressSpace,
) -> bool {
    if left.start(space) <= right.start(space) {
        left.end(space) <= right.start(space)
    } else {
        right.end(space) <= left.start(space)
    }
}

/// Regions that are not empty are apart when no two share an address.
proof fn lemma_apart_is_disjoint(regions: Seq<GuestRamRegion>, space: AddressSpace)
    requires
        forall|i: int| 0 <= i < regions.len() ==> (#[trigger] regions[i]).size > 0,
    ensures
        apart(regions, space) == disjoint(regions, space),
{
    if apart(regions, space) {
        assert forall|i: int, j: int|
            0 <= i < regions.len() && 0 <= j < regions.len() && i != j implies (
        #[trigger] regions[i]).end(space) <= (#[trigger] regions[j]).start(space)
            || regions[j].end(space) <= regions[i].start(space) by {
            if i < j {
                assert(pair_apart(regions[i], regions[j], space));
            } else {
                assert(pair_apart(regions[j], regions[i], space));
            }
        }
    }
    if disjoint(regions, space) {
        assert forall|i: int, j: int| 0 <= i < j < regions.len() implies pair_apart(
            #[trigger] regions[i],
            #[trigger] regions[j],
            space,
        ) by {}
    }
}

/// Fails when two regions overlap.
pub fn ensure_non_overlapping(regions: &[GuestRamRegion], space: AddressSpace) -> (result: Result<
    (),
    TrackingError,
>)
    requires
        forall|i: int| 0 <= i < regions@.len() ==> (#[trigger] regions@[i]).end(space) <= u64::MAX,
    ensures
        result == (if apart(regions@, space) {
            Ok(())
        } else {
            Err(TrackingError::RegionOverlap { space })
        }),
{
    let mut j: usize = 0;
    while j < regions.len()
        invariant
            j <= regions@.len(),
            forall|i: int|
                0 <= i < regions@.len() ==> (#[trigger] regions@[i]).end(space) <= u64::MAX,
            forall|a: int, b: int|
                0 <= a < b < j ==> pair_apart(
                    #[trigger] regions@[a],
                    #[trigger] regions@[b],
                    space,
                ),
        decreases regions@.len() - j,
    {
        let mut i: usize = 0;
        while i < j
            invariant
                i <= j < regions@.len(),
                forall|k: int|
                    0 <= k < regions@.len() ==> (#[trigger] regions@[k]).end(space) <= u64::MAX,
                forall|a: int|
                    0 <= a < i ==> pair_apart(#[trigger] regions@[a], regions@[j as int], space),
            decreases j - i,
        {
            let left_start: u64 = regions[i].start_in(space);
            let right_start: u64 = regions[j].start_in(space);
            let apart: bool = if left_start <= right_start {
                left_start + regions[i].size <= right_start
            } else {
                right_start + regions[j].size <= left_start
            };
            assert(apart == pair_apart(regions@[i as int], regions@[j as int], space));
            if !apart {
                return Err(TrackingError::RegionOverlap { space });
            }
            i += 1;
        }
        j += 1;
    }
    Ok(())
}

/// Checks the regions of a guest: each by itself, then whether two overlap.
pub fn validate_regions(regions: &[GuestRamRegion]) -> (result: Result<(), TrackingError>)
    ensures
        result == verdict(regions@),
{
    if regions.len() == 0 {
        return Err(TrackingError::NoRegions);
    }
    let mut i: usize = 0;
    while i < regions.len()
        invariant
            0 < regions@.len(),
            i <= regions@.len(),
            first_fault(regions@, i as int) is None,
        decreases regions@.len() - i,
    {
        let checked = regions[i].check();
        i += 1;
        assert(first_fault(regions@, i as int) == regions@[i - 1].fault());
        if checked.is_err() {
            proof {
                lemma_first_fault_stays(regions@, i as int, regions@.len() as int);
            }
            return checked;
        }
    }
    proof {
        lemma_no_fault(regions@, regions@.len() as int);
        lemma_apart_is_disjoint(regions@, AddressSpace::Hva);
        lemma_apart_is_disjoint(regions@, AddressSpace::Gpa);
    }
    match ensure_non_overlapping(regions, AddressSpace::Hva) {
        Ok(()) => ensure_non_overlapping(regions, AddressSpace::Gpa),
        Err(error) => Err(error),
    }
}

} // verus!
