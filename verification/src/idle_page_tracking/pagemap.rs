//! The scan of a process's page table for present guest pages.
//!
//! The table is read in chunks. A scan says which chunk it needs next, takes
//! what was read, and goes on until it has seen every page of every region.

use crate::idle_page_tracking::error::{AddressSpace, TrackingError};
use crate::idle_page_tracking::native;
use crate::idle_page_tracking::regions;
use crate::idle_page_tracking::regions::{GuestRamRegion, PAGE_SIZE};
use std::collections::BTreeMap;
use vstd::prelude::*;

verus! {

/// The bit of a page-table entry that says that the page is present.
pub const PAGEMAP_PRESENT: u64 = 0x8000_0000_0000_0000;

/// The bits of a page-table entry that hold the PFN.
pub const PAGEMAP_PFN_MASK: u64 = 0x007f_ffff_ffff_ffff;

/// Number of entries that are read at once.
pub const ENTRIES_PER_READ: u64 = 4096;

/// Whether an entry is that of a present page.
pub open spec fn is_present(entry: u64) -> bool {
    entry >= PAGEMAP_PRESENT
}

/// The PFN in an entry; zero where it is not shown.
pub open spec fn shown_pfn(entry: u64) -> u64 {
    entry % 0x80_0000_0000_0000
}

/// The PFN of a present page, and none for an absent one. That the PFN of a
/// present page is not shown is an error.
pub fn parse_present_pfn(entry: u64) -> (pfn: Result<Option<u64>, TrackingError>)
    ensures
        pfn == (if !is_present(entry) {
            Ok(None)
        } else if shown_pfn(entry) == 0 {
            Err(TrackingError::MaskedPfn)
        } else {
            Ok(Some(shown_pfn(entry)))
        }),
{
    assert((entry & 0x8000_0000_0000_0000) == 0 <==> entry < 0x8000_0000_0000_0000)
        by (bit_vector);
    assert((entry & 0x007f_ffff_ffff_ffff) == entry % 0x80_0000_0000_0000) by (bit_vector);
    if entry & PAGEMAP_PRESENT == 0 {
        return Ok(None);
    }
    let pfn: u64 = entry & PAGEMAP_PFN_MASK;
    if pfn == 0 {
        return Err(TrackingError::MaskedPfn);
    }
    Ok(Some(pfn))
}

/// A chunk of the page table.
#[derive(Clone, Copy, Debug, PartialEq, Eq)]
pub struct PagemapRead {
    /// The address whose entry is first.
    pub hva: u64,
    /// Where the first entry lies in the page table, in bytes.
    pub offset: u64,
    /// Number of entries.
    pub count: usize,
}

/// How far a scan has come.
#[verifier::ext_equal]
pub struct ScanView {
    pub regions: Seq<GuestRamRegion>,
    /// The region at which the scan is.
    pub region: int,
    /// The page of that region at which the scan is.
    pub index: int,
    /// The PFN of each present page seen so far, by GPA.
    pub pages: Map<u64, u64>,
}

/// Number of pages in a region.
pub open spec fn page_count(region: GuestRamRegion) -> int {
    (region.size / PAGE_SIZE) as int
}

/// Where page `k` of a region begins in the host process.
pub open spec fn page_hva(region: GuestRamRegion, k: int) -> int {
    region.base_host_virt_addr + k * PAGE_SIZE
}

/// Where page `k` of a region begins in the guest.
pub open spec fn page_gpa(region: GuestRamRegion, k: int) -> int {
    region.guest_phys_addr + k * PAGE_SIZE
}

impl ScanView {
    /// A scan that has seen nothing.
    pub open spec fn begin(regions: Seq<GuestRamRegion>) -> ScanView {
        (ScanView { regions, region: 0, index: 0, pages: Map::empty() }).settled()
    }

    /// The scan at the first page from here on that there is.
    pub open spec fn settled(self) -> ScanView
        decreases self.regions.len() - self.region,
    {
        if 0 <= self.region < self.regions.len() && self.index >= page_count(
            self.regions[self.region],
        ) {
            (ScanView { region: self.region + 1, index: 0, ..self }).settled()
        } else {
            self
        }
    }

    /// Whether the scan is at a page that there is, or at the end.
    pub open spec fn is_settled(self) -> bool {
        &&& 0 <= self.region <= self.regions.len()
        &&& self.region < self.regions.len() ==> 0 <= self.index < page_count(
            self.regions[self.region],
        )
    }

    /// Number of entries in the next chunk.
    pub open spec fn chunk(self) -> int {
        let left = page_count(self.regions[self.region]) - self.index;
        if left < ENTRIES_PER_READ {
            left
        } else {
            ENTRIES_PER_READ as int
        }
    }

    /// The chunk that the scan needs next; none at the end.
    pub open spec fn pending(self) -> Result<Option<PagemapRead>, TrackingError> {
        if self.region >= self.regions.len() {
            Ok(None)
        } else {
            let hva = page_hva(self.regions[self.region], self.index);
            if hva > u64::MAX {
                Err(TrackingError::HvaOverflow)
            } else {
                Ok(
                    Some(
                        PagemapRead {
                            hva: hva as u64,
                            offset: (hva / PAGE_SIZE as int * 8) as u64,
                            count: self.chunk() as usize,
                        },
                    ),
                )
            }
        }
    }

    /// The pages seen once the first `n` entries of the next chunk are taken
    /// in.
    pub open spec fn with_entries(self, entries: Seq<u64>, n: int) -> Result<
        Map<u64, u64>,
        TrackingError,
    >
        decreases n,
    {
        if n <= 0 {
            Ok(self.pages)
        } else {
            match self.with_entries(entries, n - 1) {
                Err(error) => Err(error),
                Ok(pages) => {
                    let region = self.regions[self.region];
                    let entry = entries[n - 1];
                    let gpa = page_gpa(region, self.index + n - 1);
                    if !is_present(entry) {
                        Ok(pages)
                    } else if shown_pfn(entry) == 0 {
                        Err(
                            TrackingError::MaskedEntry {
                                hva: page_hva(region, self.index) as u64,
                            },
                        )
                    } else if gpa > u64::MAX {
                        Err(TrackingError::GpaOverflow)
                    } else if pages.contains_key(gpa as u64) {
                        Err(TrackingError::DuplicatePage { gpa: gpa as u64 })
                    } else {
                        Ok(pages.insert(gpa as u64, shown_pfn(entry)))
                    }
                },
            }
        }
    }

    /// The scan after the next chunk.
    pub open spec fn after(self, entries: Seq<u64>) -> Result<ScanView, TrackingError> {
        match self.with_entries(entries, entries.len() as int) {
            Err(error) => Err(error),
            Ok(pages) => Ok(
                (ScanView { index: self.index + entries.len(), pages, ..self }).settled(),
            ),
        }
    }
}

/// A scan for present guest pages.
pub struct PagemapScan {
    regions: Vec<GuestRamRegion>,
    region: usize,
    index: u64,
    pages: BTreeMap<u64, u64>,
}

impl View for PagemapScan {
    type V = ScanView;

    closed spec fn view(&self) -> ScanView {
        ScanView {
            regions: self.regions@,
            region: self.region as int,
            index: self.index as int,
            pages: self.pages@,
        }
    }
}

impl PagemapScan {
    /// Begins a scan of the regions, in their order.
    pub fn begin(regions: &Vec<GuestRamRegion>) -> (scan: PagemapScan)
        ensures
            scan@ == ScanView::begin(regions@),
            scan@.is_settled(),
    {
        let scan = PagemapScan {
            regions: regions.clone(),
            region: 0,
            index: 0,
            pages: BTreeMap::new(),
        };
        proof {
            assert(scan.regions@ =~= regions@);
            assert(scan@ =~= ScanView { regions: regions@, region: 0, index: 0, pages: Map::empty() });
        }
        scan.settle()
    }

    /// Moves to the first page from here on that there is.
    fn settle(self) -> (scan: PagemapScan)
        requires
            0 <= self@.region <= self@.regions.len(),
            0 <= self@.index,
        ensures
            scan@ == self@.settled(),
            scan@.is_settled(),
            scan@.regions == self@.regions,
    {
        let ghost before = self@;
        let mut scan = self;
        while scan.region < scan.regions.len() && scan.index >= scan.regions[scan.region].size
            / PAGE_SIZE
            invariant
                0 <= scan@.region <= scan@.regions.len(),
                0 <= scan@.index,
                scan@.regions == before.regions,
                scan@.settled() == before.settled(),
            decreases scan@.regions.len() - scan@.region,
        {
            let ghost last = scan@;
            scan.region += 1;
            scan.index = 0;
            assert(scan@ =~= (ScanView { region: last.region + 1, index: 0, ..last }));
        }
        scan
    }

    /// The chunk that is needed next; none at the end. That a chunk lies past
    /// the end of the address space is an error.
    pub fn next_read(&self) -> (read: Result<Option<PagemapRead>, TrackingError>)
        requires
            self@.is_settled(),
        ensures
            read == self@.pending(),
            read matches Ok(Some(read)) ==> 0 < read.count <= ENTRIES_PER_READ && read.count
                == self@.chunk(),
    {
        if self.region == self.regions.len() {
            return Ok(None);
        }
        let region = self.regions[self.region];
        let left: u64 = region.size / PAGE_SIZE - self.index;
        let count: u64 = if left < ENTRIES_PER_READ {
            left
        } else {
            ENTRIES_PER_READ
        };
        match region.base_host_virt_addr.checked_add(self.index * PAGE_SIZE) {
            None => Err(TrackingError::HvaOverflow),
            Some(hva) => Ok(
                Some(PagemapRead { hva, offset: hva / PAGE_SIZE * 8, count: count as usize }),
            ),
        }
    }

    /// Takes in the entries of the chunk that was needed.
    pub fn absorb(self, entries: &[u64]) -> (scan: Result<PagemapScan, TrackingError>)
        requires
            self@.is_settled(),
            self@.pending() matches Ok(Some(read)) && entries@.len() == read.count,
        ensures
            match self@.after(entries@) {
                Err(error) => scan == Err::<PagemapScan, TrackingError>(error),
                Ok(after) => scan matches Ok(scan) && scan@ == after && scan@.is_settled(),
            },
            scan matches Ok(scan) ==> scan@.regions == self@.regions,
    {
        let ghost before = self@;
        assert(before.chunk() == entries@.len());
        let mut scan = self;
        let region = scan.regions[scan.region];
        let hva: u64 = region.base_host_virt_addr + scan.index * PAGE_SIZE;
        let mut n: usize = 0;
        while n < entries.len()
            invariant
                n <= entries@.len(),
                before == self@,
                before.is_settled(),
                before.region < before.regions.len(),
                before.index + entries@.len() <= page_count(region),
                region == before.regions[before.region],
                hva == page_hva(region, before.index),
                scan.regions@ == before.regions,
                scan.region == before.region,
                scan.index == before.index,
                before.with_entries(entries@, n as int) == Ok::<_, TrackingError>(scan.pages@),
            decreases entries@.len() - n,
        {
            let entry: u64 = entries[n];
            let guest_offset: u64 = (scan.index + n as u64) * PAGE_SIZE;
            n += 1;
            let ghost step = before.with_entries(entries@, n as int);
            match parse_present_pfn(entry) {
                Err(_) => {
                    let error = TrackingError::MaskedEntry { hva };
                    assert(step == Err::<Map<u64, u64>, TrackingError>(error));
                    proof {
                        before.lemma_error_stays(entries@, n as int, entries@.len() as int);
                    }
                    return Err(error);
                },
                Ok(None) => {},
                Ok(Some(pfn)) => {
                    match region.guest_phys_addr.checked_add(guest_offset) {
                        None => {
                            assert(step == Err::<Map<u64, u64>, TrackingError>(
                                TrackingError::GpaOverflow,
                            ));
                            proof {
                                before.lemma_error_stays(
                                    entries@,
                                    n as int,
                                    entries@.len() as int,
                                );
                            }
                            return Err(TrackingError::GpaOverflow);
                        },
                        Some(gpa) => {
                            if scan.pages.contains_key(&gpa) {
                                let error = TrackingError::DuplicatePage { gpa };
                                assert(step == Err::<Map<u64, u64>, TrackingError>(error));
                                proof {
                                    before.lemma_error_stays(
                                        entries@,
                                        n as int,
                                        entries@.len() as int,
                                    );
                                }
                                return Err(error);
                            }
                            scan.pages.insert(gpa, pfn);
                        },
                    }
                },
            }
        }
        scan.index = scan.index + entries.len() as u64;
        assert(scan@ =~= (ScanView {
            index: before.index + entries@.len(),
            pages: scan.pages@,
            ..before
        }));
        Ok(scan.settle())
    }

    /// Takes in the bytes of the chunk that was needed.
    pub fn absorb_bytes(self, bytes: &[u8]) -> (scan: Result<PagemapScan, TrackingError>)
        requires
            self@.is_settled(),
            self@.pending() matches Ok(Some(read)) && bytes@.len() == read.count * 8,
        ensures
            match self@.after(native_words(bytes@)) {
                Err(error) => scan == Err::<PagemapScan, TrackingError>(error),
                Ok(after) => scan matches Ok(scan) && scan@ == after && scan@.is_settled(),
            },
            scan matches Ok(scan) ==> scan@.regions == self@.regions,
    {
        let mut entries: Vec<u64> = Vec::new();
        let count: usize = bytes.len() / 8;
        let mut n: usize = 0;
        while n < count
            invariant
                n <= count,
                count * 8 == bytes@.len() <= usize::MAX,
                entries@ =~= native_words(bytes@).take(n as int),
            decreases count - n,
        {
            entries.push(native::read_word(bytes, n * 8));
            n += 1;
        }
        assert(entries@ =~= native_words(bytes@));
        self.absorb(entries.as_slice())
    }

    /// The PFN of each present page, by GPA.
    pub fn into_pages(self) -> (pages: BTreeMap<u64, u64>)
        ensures
            pages@ == self@.pages,
    {
        self.pages
    }
}

/// Bytes as words of the machine.
pub open spec fn native_words(bytes: Seq<u8>) -> Seq<u64> {
    Seq::new(
        (bytes.len() / 8) as nat,
        |i: int| native::native_word(bytes.subrange(i * 8, i * 8 + 8)),
    )
}

impl ScanView {
    proof fn lemma_error_stays(self, entries: Seq<u64>, n: int, m: int)
        requires
            0 <= n <= m,
            self.with_entries(entries, n) is Err,
        ensures
            self.with_entries(entries, m) == self.with_entries(entries, n),
        decreases m - n,
    {
        if n < m {
            self.lemma_error_stays(entries, n, m - 1);
        }
    }
}

/// The page table of a process: the entry of each page of its address space.
pub type PageTable = spec_fn(int) -> u64;

/// The entry of page `k` of a region.
pub open spec fn entry_of(table: PageTable, region: GuestRamRegion, k: int) -> u64 {
    table(page_hva(region, k) / PAGE_SIZE as int)
}

/// Whether page `k` of a region is there and present.
pub open spec fn holds_page(table: PageTable, region: GuestRamRegion, k: int) -> bool {
    0 <= k < page_count(region) && is_present(entry_of(table, region, k))
}

/// Whether `pages` gives the PFN of page `k` of a region, by GPA.
pub open spec fn is_listed(
    pages: Map<u64, u64>,
    table: PageTable,
    region: GuestRamRegion,
    k: int,
) -> bool {
    &&& page_gpa(region, k) <= u64::MAX
    &&& pages.contains_key(page_gpa(region, k) as u64)
    &&& pages[page_gpa(region, k) as u64] == shown_pfn(entry_of(table, region, k))
    &&& shown_pfn(entry_of(table, region, k)) != 0
}

/// Whether `pages` gives the PFN of every present page of the regions, by GPA,
/// and nothing else.
pub open spec fn lists_present_pages(
    pages: Map<u64, u64>,
    regions: Seq<GuestRamRegion>,
    table: PageTable,
) -> bool {
    &&& forall|r: int, k: int|
        #![trigger holds_page(table, regions[r], k)]
        0 <= r < regions.len() && holds_page(table, regions[r], k) ==> is_listed(pages, table, regions[r], k)
    &&& forall|gpa: u64| #[trigger]
        pages.contains_key(gpa) ==> exists|r: int, k: int|
            #![trigger holds_page(table, regions[r], k)]
            0 <= r < regions.len() && holds_page(table, regions[r], k) && gpa == page_gpa(
                regions[r],
                k,
            )
}

impl ScanView {
    /// What is found in a page table, whose entries take eight bytes each, when
    /// the next chunk is read.
    pub open spec fn chunk_of(self, table: PageTable) -> Seq<u64> {
        let read = self.pending()->Ok_0->Some_0;
        Seq::new(read.count as nat, |i: int| table(read.offset as int / 8 + i))
    }

    /// What a scan of the page table comes to, from here on to its end.
    pub open spec fn scanned(self, table: PageTable) -> Result<Map<u64, u64>, TrackingError>
        decreases
            self.regions.len() - self.region,
            page_count(self.regions[self.region]) - self.index,
        when self.is_settled()
    {
        match self.pending() {
            Err(error) => Err(error),
            Ok(None) => Ok(self.pages),
            Ok(Some(_)) => match self.after(self.chunk_of(table)) {
                Err(error) => Err(error),
                Ok(next) => {
                    proof {
                        self.lemma_after_moves(self.chunk_of(table));
                    }
                    next.scanned(table)
                },
            },
        }
    }

    /// Whether the scan has passed page `k` of region `r`.
    pub open spec fn has_passed(self, r: int, k: int) -> bool {
        0 <= r < self.region || (r == self.region && k < self.index)
    }

    /// Whether the pages seen are the present pages that the scan has passed.
    spec fn shows(self, table: PageTable) -> bool {
        &&& forall|r: int, k: int|
            #![trigger holds_page(table, self.regions[r], k)]
            0 <= r < self.regions.len() && self.has_passed(r, k) && holds_page(
                table,
                self.regions[r],
                k,
            ) ==> is_listed(self.pages, table, self.regions[r], k)
        &&& forall|gpa: u64| #[trigger]
            self.pages.contains_key(gpa) ==> exists|r: int, k: int|
                #![trigger holds_page(table, self.regions[r], k)]
                0 <= r < self.regions.len() && self.has_passed(r, k) && holds_page(
                    table,
                    self.regions[r],
                    k,
                ) && gpa == page_gpa(self.regions[r], k)
    }

    proof fn lemma_settled(self)
        requires
            0 <= self.region <= self.regions.len(),
            0 <= self.index,
        ensures
            self.settled().is_settled(),
            self.settled().regions == self.regions,
            self.settled().pages == self.pages,
            self.settled().region >= self.region,
            self.settled().region == self.region ==> self.settled().index == self.index,
            forall|r: int, k: int|
                0 <= r < self.regions.len() && 0 <= k < page_count(self.regions[r]) ==> (
                #[trigger] self.settled().has_passed(r, k) <==> self.has_passed(r, k)),
        decreases self.regions.len() - self.region,
    {
        if self.region < self.regions.len() && self.index >= page_count(
            self.regions[self.region],
        ) {
            let next = ScanView { region: self.region + 1, index: 0, ..self };
            next.lemma_settled();
            assert forall|r: int, k: int|
                0 <= r < self.regions.len() && 0 <= k < page_count(self.regions[r]) implies (
            #[trigger] self.settled().has_passed(r, k) <==> self.has_passed(r, k)) by {
                assert(next.settled().has_passed(r, k) <==> next.has_passed(r, k));
            }
        }
    }

    /// A chunk takes the scan on.
    pub proof fn lemma_after_moves(self, entries: Seq<u64>)
        requires
            self.is_settled(),
            self.region < self.regions.len(),
            entries.len() == self.chunk(),
        ensures
            self.after(entries) matches Ok(next) ==> {
                &&& next.is_settled()
                &&& next.regions == self.regions
                &&& next.region >= self.region
                &&& next.region == self.region ==> next.index > self.index
            },
    {
        if let Ok(pages) = self.with_entries(entries, entries.len() as int) {
            (ScanView { index: self.index + entries.len(), pages, ..self }).lemma_settled();
        }
    }

    proof fn lemma_chunk_entry(self, table: PageTable, i: int)
        requires
            self.is_settled(),
            self.pending() matches Ok(Some(_)),
            0 <= i < self.chunk(),
        ensures
            self.chunk_of(table)[i] == entry_of(
                table,
                self.regions[self.region],
                self.index + i,
            ),
    {
        let region = self.regions[self.region];
        assert(page_hva(region, self.index + i) / PAGE_SIZE as int == page_hva(region, self.index)
            / PAGE_SIZE as int + i);
    }

    proof fn lemma_entries_show(self, table: PageTable, n: int)
        requires
            self.is_settled(),
            self.pending() matches Ok(Some(_)),
            0 <= n <= self.chunk(),
            self.shows(table),
            self.with_entries(self.chunk_of(table), n) is Ok,
        ensures
            (ScanView {
                index: self.index + n,
                pages: self.with_entries(self.chunk_of(table), n)->Ok_0,
                ..self
            }).shows(table),
        decreases n,
    {
        let entries = self.chunk_of(table);
        if n == 0 {
            assert(ScanView { index: self.index + n, pages: self.pages, ..self } == self);
        } else {
            self.lemma_entries_show(table, n - 1);
            self.lemma_chunk_entry(table, n - 1);
            let region = self.regions[self.region];
            let at = self.index + n - 1;
            let before = ScanView {
                index: at,
                pages: self.with_entries(entries, n - 1)->Ok_0,
                ..self
            };
            let now = ScanView {
                index: self.index + n,
                pages: self.with_entries(entries, n)->Ok_0,
                ..self
            };
            assert(before.shows(table));
            assert(entries[n - 1] == entry_of(table, region, at));
            assert forall|r: int, k: int|
                #![trigger holds_page(table, now.regions[r], k)]
                0 <= r < now.regions.len() && now.has_passed(r, k) && holds_page(
                    table,
                    now.regions[r],
                    k,
                ) implies is_listed(now.pages, table, now.regions[r], k) by {
                if r == self.region && k == at {
                } else {
                    assert(before.has_passed(r, k));
                    assert(holds_page(table, before.regions[r], k));
                }
            }
            assert forall|gpa: u64| #[trigger] now.pages.contains_key(gpa) implies exists|
                r: int,
                k: int,
            |
                #![trigger holds_page(table, now.regions[r], k)]
                0 <= r < now.regions.len() && now.has_passed(r, k) && holds_page(
                    table,
                    now.regions[r],
                    k,
                ) && gpa == page_gpa(now.regions[r], k) by {
                if before.pages.contains_key(gpa) {
                    let (r, k) = choose|r: int, k: int|
                        #![trigger holds_page(table, before.regions[r], k)]
                        0 <= r < before.regions.len() && before.has_passed(r, k) && holds_page(
                            table,
                            before.regions[r],
                            k,
                        ) && gpa == page_gpa(before.regions[r], k);
                    assert(holds_page(table, now.regions[r], k));
                    assert(now.has_passed(r, k));
                } else {
                    assert(holds_page(table, now.regions[self.region], at));
                    assert(now.has_passed(self.region, at));
                }
            }
        }
    }

    proof fn lemma_settled_shows(self, table: PageTable)
        requires
            0 <= self.region <= self.regions.len(),
            0 <= self.index,
            self.shows(table),
        ensures
            self.settled().shows(table),
    {
        self.lemma_settled();
        let now = self.settled();
        assert forall|gpa: u64| #[trigger] now.pages.contains_key(gpa) implies exists|
            r: int,
            k: int,
        |
            #![trigger holds_page(table, now.regions[r], k)]
            0 <= r < now.regions.len() && now.has_passed(r, k) && holds_page(
                table,
                now.regions[r],
                k,
            ) && gpa == page_gpa(now.regions[r], k) by {
            let (r, k) = choose|r: int, k: int|
                #![trigger holds_page(table, self.regions[r], k)]
                0 <= r < self.regions.len() && self.has_passed(r, k) && holds_page(
                    table,
                    self.regions[r],
                    k,
                ) && gpa == page_gpa(self.regions[r], k);
            assert(now.has_passed(r, k));
            assert(holds_page(table, now.regions[r], k));
        }
    }

    proof fn lemma_scan_is_complete(self, table: PageTable)
        requires
            self.is_settled(),
            self.shows(table),
        ensures
            self.scanned(table) matches Ok(pages) ==> lists_present_pages(
                pages,
                self.regions,
                table,
            ),
        decreases
            self.regions.len() - self.region,
            page_count(self.regions[self.region]) - self.index,
    {
        if let Ok(Some(_)) = self.pending() {
            let entries = self.chunk_of(table);
            if let Ok(next) = self.after(entries) {
                self.lemma_after_moves(entries);
                self.lemma_entries_show(table, entries.len() as int);
                (ScanView {
                    index: self.index + entries.len(),
                    pages: self.with_entries(entries, entries.len() as int)->Ok_0,
                    ..self
                }).lemma_settled_shows(table);
                next.lemma_scan_is_complete(table);
            }
        }
    }
}

/// A scan that ends well has found the PFN of every present page of the
/// regions, by GPA, and nothing else.
pub proof fn law_scan_finds_the_present_pages(regions: Seq<GuestRamRegion>, table: PageTable)
    ensures
        ScanView::begin(regions).scanned(table) matches Ok(pages) ==> lists_present_pages(
            pages,
            regions,
            table,
        ),
{
    let begin = ScanView { regions, region: 0, index: 0, pages: Map::empty() };
    begin.lemma_settled();
    begin.lemma_settled_shows(table);
    begin.settled().lemma_scan_is_complete(table);
}

/// Whether a page of the regions is present and its PFN is not shown.
pub open spec fn hides_a_page(regions: Seq<GuestRamRegion>, table: PageTable) -> bool {
    exists|r: int, k: int|
        #![trigger holds_page(table, regions[r], k)]
        0 <= r < regions.len() && holds_page(table, regions[r], k) && shown_pfn(
            entry_of(table, regions[r], k),
        ) == 0
}

impl ScanView {
    proof fn lemma_entries_fail_on_hidden_page(self, table: PageTable, n: int)
        requires
            self.is_settled(),
            self.pending() matches Ok(Some(_)),
            0 <= n <= self.chunk(),
            self.shows(table),
            regions::verdict(self.regions) is Ok,
        ensures
            self.with_entries(self.chunk_of(table), n) matches Err(error) ==> error is MaskedEntry
                && hides_a_page(self.regions, table),
        decreases n,
    {
        let entries = self.chunk_of(table);
        if n > 0 {
            self.lemma_entries_fail_on_hidden_page(table, n - 1);
            if self.with_entries(entries, n - 1) is Ok {
                self.lemma_entries_show(table, n - 1);
                self.lemma_chunk_entry(table, n - 1);
                regions::law_verdict_means(self.regions);
                let region = self.regions[self.region];
                let at = self.index + n - 1;
                let before = ScanView {
                    index: at,
                    pages: self.with_entries(entries, n - 1)->Ok_0,
                    ..self
                };
                assert(region.fault() is None);
                assert(page_gpa(region, at) + PAGE_SIZE <= region.end(AddressSpace::Gpa));
                if is_present(entries[n - 1]) {
                    assert(holds_page(table, self.regions[self.region], at));
                    let gpa = page_gpa(region, at) as u64;
                    if before.pages.contains_key(gpa) {
                        let (r, k) = choose|r: int, k: int|
                            #![trigger holds_page(table, before.regions[r], k)]
                            0 <= r < before.regions.len() && before.has_passed(r, k)
                                && holds_page(table, before.regions[r], k) && gpa == page_gpa(
                                before.regions[r],
                                k,
                            );
                        let other = self.regions[r];
                        assert(other.fault() is None);
                        assert(page_gpa(other, k) + PAGE_SIZE <= other.end(AddressSpace::Gpa));
                        assert(r != self.region);
                        assert(region.end(AddressSpace::Gpa) <= other.start(AddressSpace::Gpa)
                            || other.end(AddressSpace::Gpa) <= region.start(AddressSpace::Gpa));
                        assert(false);
                    }
                }
            }
        }
    }

    proof fn lemma_scan_fails_on_hidden_page(self, table: PageTable)
        requires
            self.is_settled(),
            self.shows(table),
            regions::verdict(self.regions) is Ok,
        ensures
            self.scanned(table) matches Err(error) ==> error is MaskedEntry && hides_a_page(
                self.regions,
                table,
            ),
        decreases
            self.regions.len() - self.region,
            page_count(self.regions[self.region]) - self.index,
    {
        regions::law_verdict_means(self.regions);
        if self.region < self.regions.len() {
            let region = self.regions[self.region];
            assert(region.fault() is None);
            assert(page_hva(region, self.index) <= region.end(AddressSpace::Hva));
            let entries = self.chunk_of(table);
            self.lemma_entries_fail_on_hidden_page(table, entries.len() as int);
            if let Ok(next) = self.after(entries) {
                self.lemma_after_moves(entries);
                self.lemma_entries_show(table, entries.len() as int);
                (ScanView {
                    index: self.index + entries.len(),
                    pages: self.with_entries(entries, entries.len() as int)->Ok_0,
                    ..self
                }).lemma_settled_shows(table);
                next.lemma_scan_fails_on_hidden_page(table);
            }
        }
    }
}

/// A scan of valid regions fails exactly when a present page hides its PFN,
/// and the error says so.
pub proof fn law_scan_fails_on_hidden_pages_only(regions: Seq<GuestRamRegion>, table: PageTable)
    requires
        regions::verdict(regions) is Ok,
    ensures
        ScanView::begin(regions).scanned(table) is Err <==> hides_a_page(regions, table),
        ScanView::begin(regions).scanned(table) matches Err(error) ==> error is MaskedEntry,
{
    let begin = ScanView { regions, region: 0, index: 0, pages: Map::empty() };
    begin.lemma_settled();
    begin.lemma_settled_shows(table);
    begin.settled().lemma_scan_fails_on_hidden_page(table);
    law_scan_finds_the_present_pages(regions, table);
}

/// A scan that ends well has found every present page, region by region and
/// address by address: where a whole page of a region begins at the guest
/// address `a`, and the page-table entry of the host page that backs it has its
/// top bit set, the low 55 bits of that entry are listed for `a`.
pub proof fn law_every_present_address_is_listed(
    regions: Seq<GuestRamRegion>,
    table: PageTable,
    r: int,
    a: int,
)
    requires
        0 <= r < regions.len(),
        regions[r].guest_phys_addr <= a,
        a + 4096 <= regions[r].guest_phys_addr + regions[r].size,
        (a - regions[r].guest_phys_addr) % 4096 == 0,
        table((regions[r].base_host_virt_addr + (a - regions[r].guest_phys_addr)) / 4096)
            >= 0x8000_0000_0000_0000,
    ensures
        ScanView::begin(regions).scanned(table) matches Ok(pages) ==> {
            let entry = table(
                (regions[r].base_host_virt_addr + (a - regions[r].guest_phys_addr)) / 4096,
            );
            &&& a <= u64::MAX
            &&& pages.contains_key(a as u64)
            &&& pages[a as u64] == entry as int % 0x80_0000_0000_0000
            &&& entry as int % 0x80_0000_0000_0000 != 0
        },
{
    law_scan_finds_the_present_pages(regions, table);
    let region = regions[r];
    let k = (a - region.guest_phys_addr) / 4096;
    assert(a - region.guest_phys_addr == k * 4096);
    assert(page_hva(region, k) == region.base_host_virt_addr + (a - region.guest_phys_addr));
    assert(page_gpa(region, k) == a);
    assert(holds_page(table, regions[r], k));
}

/// A scan that ends well lists nothing else: a listed guest address is where a
/// whole page of a region begins, and what is listed for it are the low 55 bits
/// of the entry of the host page that backs it, whose top bit is set.
pub proof fn law_every_listed_address_is_present(
    regions: Seq<GuestRamRegion>,
    table: PageTable,
    a: u64,
)
    requires
        ScanView::begin(regions).scanned(table) matches Ok(pages) && pages.contains_key(a),
    ensures
        exists|r: int|
            0 <= r < regions.len() && {
                let region = #[trigger] regions[r];
                let entry = table(
                    (region.base_host_virt_addr + (a - region.guest_phys_addr)) / 4096,
                );
                &&& region.guest_phys_addr <= a
                &&& a + 4096 <= region.guest_phys_addr + region.size
                &&& (a - region.guest_phys_addr) % 4096 == 0
                &&& entry >= 0x8000_0000_0000_0000
                &&& ScanView::begin(regions).scanned(table)->Ok_0[a] == entry as int
                    % 0x80_0000_0000_0000
            },
{
    law_scan_finds_the_present_pages(regions, table);
    let (r, k) = choose|r: int, k: int|
        #![trigger holds_page(table, regions[r], k)]
        0 <= r < regions.len() && holds_page(table, regions[r], k) && a == page_gpa(regions[r], k);
    let region = regions[r];
    assert(page_hva(region, k) == region.base_host_virt_addr + (a - region.guest_phys_addr));
    assert((k * 4096) % 4096 == 0);
}

/// Every page of a valid region is scanned: its pages fill it.
pub proof fn law_pages_fill_a_valid_region(region: GuestRamRegion)
    requires
        region.size % 4096 == 0,
    ensures
        page_count(region) * 4096 == region.size,
{
}

/// On valid regions a scan succeeds unless a present page hides its PFN: unless
/// the entry of a host page that backs guest memory has its top bit set and its
/// low 55 bits clear.
pub proof fn law_scan_of_shown_pages_succeeds(regions: Seq<GuestRamRegion>, table: PageTable)
    requires
        regions::verdict(regions) is Ok,
        forall|page: int|
            (#[trigger] table(page)) < 0x8000_0000_0000_0000 || table(page) as int
                % 0x80_0000_0000_0000 != 0,
    ensures
        ScanView::begin(regions).scanned(table) is Ok,
{
    law_scan_fails_on_hidden_pages_only(regions, table);
    if hides_a_page(regions, table) {
        let (r, k) = choose|r: int, k: int|
            #![trigger holds_page(table, regions[r], k)]
            0 <= r < regions.len() && holds_page(table, regions[r], k) && shown_pfn(
                entry_of(table, regions[r], k),
            ) == 0;
        assert(table(page_hva(regions[r], k) / PAGE_SIZE as int) == entry_of(table, regions[r], k));
    }
}

/// A scan of any regions that comes upon a present page that hides its PFN
/// fails.
pub proof fn law_hidden_page_fails_the_scan(
    regions: Seq<GuestRamRegion>,
    table: PageTable,
    r: int,
    a: int,
)
    requires
        0 <= r < regions.len(),
        regions[r].guest_phys_addr <= a,
        a + 4096 <= regions[r].guest_phys_addr + regions[r].size,
        (a - regions[r].guest_phys_addr) % 4096 == 0,
        table((regions[r].base_host_virt_addr + (a - regions[r].guest_phys_addr)) / 4096)
            >= 0x8000_0000_0000_0000,
        table((regions[r].base_host_virt_addr + (a - regions[r].guest_phys_addr)) / 4096) as int
            % 0x80_0000_0000_0000 == 0,
    ensures
        ScanView::begin(regions).scanned(table) is Err,
{
    law_every_present_address_is_listed(regions, table, r, a);
}

/// What the error of a scan says is so: an address to look up or to list lies
/// past the end of the address space, a guest page is there twice, or a present
/// page within the chunk that is named hides its PFN.
pub open spec fn is_scan_fault(
    regions: Seq<GuestRamRegion>,
    table: PageTable,
    error: TrackingError,
) -> bool {
    match error {
        TrackingError::HvaOverflow => exists|r: int, k: int|
            #![trigger page_hva(regions[r], k)]
            0 <= r < regions.len() && 0 <= k && k * 4096 + 4096 <= regions[r].size
                && regions[r].base_host_virt_addr + k * 4096 > u64::MAX,
        TrackingError::GpaOverflow => exists|r: int, k: int|
            #![trigger holds_page(table, regions[r], k)]
            0 <= r < regions.len() && 0 <= k && k * 4096 + 4096 <= regions[r].size
                && regions[r].guest_phys_addr + k * 4096 > u64::MAX && table(
                (regions[r].base_host_virt_addr + k * 4096) / 4096,
            ) >= 0x8000_0000_0000_0000,
        TrackingError::DuplicatePage { gpa } => exists|r: int, k: int, q: int, l: int|
            #![trigger holds_page(table, regions[r], k), holds_page(table, regions[q], l)]
            0 <= r < regions.len() && 0 <= q < regions.len() && (r, k) != (q, l) && 0 <= k && k
                * 4096 + 4096 <= regions[r].size && 0 <= l && l * 4096 + 4096 <= regions[q].size
                && gpa == regions[r].guest_phys_addr + k * 4096 && gpa
                == regions[q].guest_phys_addr + l * 4096 && table(
                (regions[r].base_host_virt_addr + k * 4096) / 4096,
            ) >= 0x8000_0000_0000_0000 && table((regions[q].base_host_virt_addr + l * 4096) / 4096)
                >= 0x8000_0000_0000_0000,
        TrackingError::MaskedEntry { hva } => exists|r: int, k: int|
            #![trigger holds_page(table, regions[r], k)]
            0 <= r < regions.len() && 0 <= k && k * 4096 + 4096 <= regions[r].size && hva
                <= regions[r].base_host_virt_addr + k * 4096 < hva + 4096 * 4096 && table(
                (regions[r].base_host_virt_addr + k * 4096) / 4096,
            ) >= 0x8000_0000_0000_0000 && table((regions[r].base_host_virt_addr + k * 4096) / 4096)
                as int % 0x80_0000_0000_0000 == 0,
        _ => false,
    }
}

impl ScanView {
    proof fn lemma_entries_fail_for_cause(self, table: PageTable, n: int)
        requires
            self.is_settled(),
            self.pending() matches Ok(Some(_)),
            0 <= n <= self.chunk(),
            self.shows(table),
        ensures
            self.with_entries(self.chunk_of(table), n) matches Err(error) ==> is_scan_fault(
                self.regions,
                table,
                error,
            ),
        decreases n,
    {
        let entries = self.chunk_of(table);
        if n > 0 {
            self.lemma_entries_fail_for_cause(table, n - 1);
            if self.with_entries(entries, n - 1) is Ok {
                self.lemma_entries_show(table, n - 1);
                self.lemma_chunk_entry(table, n - 1);
                let region = self.regions[self.region];
                let at = self.index + n - 1;
                let before = ScanView {
                    index: at,
                    pages: self.with_entries(entries, n - 1)->Ok_0,
                    ..self
                };
                if is_present(entries[n - 1]) {
                    assert(holds_page(table, self.regions[self.region], at));
                    let gpa = page_gpa(region, at);
                    if shown_pfn(entries[n - 1]) != 0 && gpa <= u64::MAX
                        && before.pages.contains_key(gpa as u64) {
                        let (r, k) = choose|r: int, k: int|
                            #![trigger holds_page(table, before.regions[r], k)]
                            0 <= r < before.regions.len() && before.has_passed(r, k)
                                && holds_page(table, before.regions[r], k) && gpa as u64
                                == page_gpa(before.regions[r], k);
                        assert((r, k) != (self.region, at));
                        assert(holds_page(table, self.regions[r], k));
                    }
                }
            }
        }
    }

    proof fn lemma_scan_fails_for_cause(self, table: PageTable)
        requires
            self.is_settled(),
            self.shows(table),
        ensures
            self.scanned(table) matches Err(error) ==> is_scan_fault(self.regions, table, error),
        decreases
            self.regions.len() - self.region,
            page_count(self.regions[self.region]) - self.index,
    {
        if self.region < self.regions.len() {
            assert(page_hva(self.regions[self.region], self.index)
                == self.regions[self.region].base_host_virt_addr + self.index * 4096);
            if self.pending() is Ok {
                let entries = self.chunk_of(table);
                self.lemma_entries_fail_for_cause(table, entries.len() as int);
                if let Ok(next) = self.after(entries) {
                    self.lemma_after_moves(entries);
                    self.lemma_entries_show(table, entries.len() as int);
                    (ScanView {
                        index: self.index + entries.len(),
                        pages: self.with_entries(entries, entries.len() as int)->Ok_0,
                        ..self
                    }).lemma_settled_shows(table);
                    next.lemma_scan_fails_for_cause(table);
                }
            }
        }
    }
}

/// A scan fails for cause only, whatever the regions are: what its error says is
/// so.
pub proof fn law_scan_fails_for_cause(regions: Seq<GuestRamRegion>, table: PageTable)
    ensures
        ScanView::begin(regions).scanned(table) matches Err(error) ==> is_scan_fault(
            regions,
            table,
            error,
        ),
{
    let begin = ScanView { regions, region: 0, index: 0, pages: Map::empty() };
    begin.lemma_settled();
    begin.lemma_settled_shows(table);
    begin.settled().lemma_scan_fails_for_cause(table);
}

/// The entry of a page says by its top bit whether the page is present, and
/// holds the PFN in its low 55 bits.
pub proof fn law_entry_is_read_bit_by_bit(entry: u64)
    ensures
        is_present(entry) <==> entry & (1u64 << 63) != 0,
        shown_pfn(entry) == (entry << 9) >> 9,
{
    assert(entry >= 0x8000_0000_0000_0000 <==> entry & (1u64 << 63) != 0) by (bit_vector);
    assert(entry % 0x80_0000_0000_0000 == (entry << 9) >> 9) by (bit_vector);
}

/// The memory of words that lie one after the other.
pub open spec fn memory_of(words: Seq<u64>) -> Seq<u8>
    decreases words.len(),
{
    if words.len() == 0 {
        Seq::empty()
    } else {
        memory_of(words.drop_last()) + native::native_bytes(words.last())
    }
}

/// Words that lie in memory one after the other are read as these words.
pub proof fn law_words_are_read_from_memory(words: Seq<u64>)
    ensures
        memory_of(words).len() == 8 * words.len(),
        native_words(memory_of(words)) == words,
    decreases words.len(),
{
    let memory = memory_of(words);
    if words.len() == 0 {
        assert(native_words(memory) =~= words);
    } else {
        let before = memory_of(words.drop_last());
        law_words_are_read_from_memory(words.drop_last());
        native::lemma_native_bytes_are_eight(words.last());
        native::law_word_survives_memory(words.last());
        assert forall|i: int| 0 <= i < words.len() implies native_words(memory)[i] == words[i] by {
            let bytes = memory.subrange(i * 8, i * 8 + 8);
            if i < words.len() - 1 {
                assert(bytes =~= before.subrange(i * 8, i * 8 + 8));
                assert(native_words(before)[i] == words.drop_last()[i]);
            } else {
                assert(bytes =~= native::native_bytes(words.last()));
            }
        }
        assert(native_words(memory) =~= words);
    }
}

/// A chunk is read where the entry of its first address lies, eight bytes to an
/// entry, and takes in entries of one region only, at least one and at most 4096.
pub proof fn law_reads_stay_within_their_region(scan: ScanView)
    requires
        scan.is_settled(),
        scan.pending() matches Ok(Some(_)),
    ensures
        ({
            let read = scan.pending()->Ok_0->Some_0;
            let region = scan.regions[scan.region];
            &&& 0 <= scan.region < scan.regions.len()
            &&& read.offset == read.hva / 4096 * 8
            &&& region.base_host_virt_addr <= read.hva
            &&& read.hva + read.count * 4096 <= region.base_host_virt_addr + region.size
            &&& 1 <= read.count <= 4096
        }),
{
}

} // verus!
