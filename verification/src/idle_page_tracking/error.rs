//! What can go wrong while pages are tracked.

use crate::manifest::WorkingSetError;
use crate::text;
use vstd::prelude::*;

verus! {

/// The two address spaces in which a guest-memory region lies.
#[derive(Clone, Copy, Debug, PartialEq, Eq)]
pub enum AddressSpace {
    Hva,
    Gpa,
}

/// Why pages cannot be tracked.
#[derive(Clone, Copy, Debug, PartialEq, Eq)]
pub enum TrackingError {
    /// The process to watch is not given.
    NoProcess,
    /// The host is not one whose page tables are understood.
    UnsupportedHost,
    /// There is no guest memory.
    NoRegions,
    /// A region is made of other pages than 4 KiB ones.
    UnsupportedPageSize { page_size: u64 },
    /// A region is empty, or its size is not a whole number of pages.
    RegionSize,
    /// A region does not start on a page boundary.
    RegionAlignment,
    /// A region runs past the end of an address space.
    RegionOverflow { space: AddressSpace },
    /// Two regions overlap in an address space.
    RegionOverlap { space: AddressSpace },
    /// An address to look up is past the end of the address space.
    HvaOverflow,
    /// A page is present and its PFN is not shown.
    MaskedPfn,
    /// A page in the chunk at this HVA is present and its PFN is not shown.
    MaskedEntry { hva: u64 },
    /// A present page has no guest-physical address.
    GpaOverflow,
    /// A guest-physical page was found twice.
    DuplicatePage { gpa: u64 },
    /// No page was present when tracking began.
    NothingPresent,
    /// Nothing was recorded to compare with.
    NoBaseline,
    /// A page that did not move has no idle bit.
    MissingIdleBit { pfn: u64 },
    /// A page does not start on a page boundary.
    UnalignedPage { gpa: u64 },
    /// A range of pages is longer than the address space counts.
    RangeOverflow,
    /// The file ended before the read did.
    ShortRead,
    /// The file took no more bytes.
    ShortWrite,
    /// The ranges are no acceptable working set.
    WorkingSet { error: WorkingSetError },
}

impl TrackingError {
    /// What the error says.
    pub open spec fn text(self) -> Seq<char> {
        match self {
            TrackingError::NoProcess =>
                "Firecracker PID must be non-zero for idle-page tracking"@,
            TrackingError::UnsupportedHost =>
                "idle-page template profiling currently supports x86_64 hosts only"@,
            TrackingError::NoRegions => "Firecracker returned no guest-memory regions"@,
            TrackingError::UnsupportedPageSize { page_size } =>
                "the experiment supports only normal 4 KiB guest pages; Firecracker reported "@
                    + text::decimal(page_size as nat),
            TrackingError::RegionSize =>
                "guest memory region size must be a non-zero multiple of 4 KiB"@,
            TrackingError::RegionAlignment =>
                "guest memory HVA and GPA starts must be 4 KiB aligned"@,
            TrackingError::RegionOverflow { space: AddressSpace::Hva } =>
                "guest memory HVA range overflows u64"@,
            TrackingError::RegionOverflow { space: AddressSpace::Gpa } =>
                "guest memory GPA range overflows u64"@,
            TrackingError::RegionOverlap { space: AddressSpace::Hva } =>
                "Firecracker returned overlapping guest-memory HVA regions"@,
            TrackingError::RegionOverlap { space: AddressSpace::Gpa } =>
                "Firecracker returned overlapping guest-memory GPA regions"@,
            TrackingError::HvaOverflow => "HVA overflow while reading pagemap"@,
            TrackingError::MaskedPfn =>
                "pagemap PFN is masked for a present page; run with CAP_SYS_ADMIN"@,
            TrackingError::MaskedEntry { hva } => "read pagemap entry for Firecracker HVA 0x"@
                + text::hexadecimal(hva as nat),
            TrackingError::GpaOverflow => "GPA overflow while translating HVA"@,
            TrackingError::DuplicatePage { gpa } => "duplicate guest physical page 0x"@
                + text::hexadecimal(gpa as nat),
            TrackingError::NothingPresent =>
                "no present guest-RAM pages found before tracking"@,
            TrackingError::NoBaseline =>
                "mark_baseline_idle must run before idle-page observation"@,
            TrackingError::MissingIdleBit { pfn } => "missing idle bitmap result for PFN "@
                + text::decimal(pfn as nat),
            TrackingError::UnalignedPage { gpa } => "GPA 0x"@ + text::hexadecimal(gpa as nat)
                + " is not 4 KiB aligned"@,
            TrackingError::RangeOverflow => "coalesced GPA range overflows u64"@,
            TrackingError::ShortRead => "short page-tracking read"@,
            TrackingError::ShortWrite => "short page-idle write"@,
            TrackingError::WorkingSet { error } => error.text(),
        }
    }

    /// What the error says.
    pub fn message(&self) -> (message: String)
        ensures
            message@ == self.text(),
    {
        match *self {
            TrackingError::NoProcess => {
                "Firecracker PID must be non-zero for idle-page tracking".to_owned()
            },
            TrackingError::UnsupportedHost => {
                "idle-page template profiling currently supports x86_64 hosts only".to_owned()
            },
            TrackingError::NoRegions => "Firecracker returned no guest-memory regions".to_owned(),
            TrackingError::UnsupportedPageSize { page_size } => {
                let mut out =
                    "the experiment supports only normal 4 KiB guest pages; Firecracker reported ".to_owned();
                text::push_decimal(&mut out, page_size);
                out
            },
            TrackingError::RegionSize => {
                "guest memory region size must be a non-zero multiple of 4 KiB".to_owned()
            },
            TrackingError::RegionAlignment => {
                "guest memory HVA and GPA starts must be 4 KiB aligned".to_owned()
            },
            TrackingError::RegionOverflow { space: AddressSpace::Hva } => {
                "guest memory HVA range overflows u64".to_owned()
            },
            TrackingError::RegionOverflow { space: AddressSpace::Gpa } => {
                "guest memory GPA range overflows u64".to_owned()
            },
            TrackingError::RegionOverlap { space: AddressSpace::Hva } => {
                "Firecracker returned overlapping guest-memory HVA regions".to_owned()
            },
            TrackingError::RegionOverlap { space: AddressSpace::Gpa } => {
                "Firecracker returned overlapping guest-memory GPA regions".to_owned()
            },
            TrackingError::HvaOverflow => "HVA overflow while reading pagemap".to_owned(),
            TrackingError::MaskedPfn => {
                "pagemap PFN is masked for a present page; run with CAP_SYS_ADMIN".to_owned()
            },
            TrackingError::MaskedEntry { hva } => {
                let mut out = "read pagemap entry for Firecracker HVA 0x".to_owned();
                text::push_hexadecimal(&mut out, hva);
                out
            },
            TrackingError::GpaOverflow => "GPA overflow while translating HVA".to_owned(),
            TrackingError::DuplicatePage { gpa } => {
                let mut out = "duplicate guest physical page 0x".to_owned();
                text::push_hexadecimal(&mut out, gpa);
                out
            },
            TrackingError::NothingPresent => {
                "no present guest-RAM pages found before tracking".to_owned()
            },
            TrackingError::NoBaseline => {
                "mark_baseline_idle must run before idle-page observation".to_owned()
            },
            TrackingError::MissingIdleBit { pfn } => {
                let mut out = "missing idle bitmap result for PFN ".to_owned();
                text::push_decimal(&mut out, pfn);
                out
            },
            TrackingError::UnalignedPage { gpa } => {
                let mut out = "GPA 0x".to_owned();
                text::push_hexadecimal(&mut out, gpa);
                out.append(" is not 4 KiB aligned");
                out
            },
            TrackingError::RangeOverflow => "coalesced GPA range overflows u64".to_owned(),
            TrackingError::ShortRead => "short page-tracking read".to_owned(),
            TrackingError::ShortWrite => "short page-idle write".to_owned(),
            TrackingError::WorkingSet { error } => error.message(),
        }
    }

    /// The error behind this one: a chunk cannot be used because the PFN of an
    /// entry of it is not shown.
    pub fn cause(&self) -> (cause: Option<TrackingError>)
        ensures
            cause == (if self is MaskedEntry {
                Some(TrackingError::MaskedPfn)
            } else {
                None
            }),
    {
        match self {
            TrackingError::MaskedEntry { .. } => Some(TrackingError::MaskedPfn),
            _ => None,
        }
    }
}

/// An error tells what it is about: of two errors of one kind that say the same,
/// both are about the same page size, address or PFN.
pub proof fn law_errors_tell_what_they_are_about(a: u64, b: u64)
    ensures
        (TrackingError::UnsupportedPageSize { page_size: a }).text() == (
        TrackingError::UnsupportedPageSize { page_size: b }).text() ==> a == b,
        (TrackingError::MaskedEntry { hva: a }).text() == (TrackingError::MaskedEntry {
            hva: b,
        }).text() ==> a == b,
        (TrackingError::DuplicatePage { gpa: a }).text() == (TrackingError::DuplicatePage {
            gpa: b,
        }).text() ==> a == b,
        (TrackingError::MissingIdleBit { pfn: a }).text() == (TrackingError::MissingIdleBit {
            pfn: b,
        }).text() ==> a == b,
        (TrackingError::UnalignedPage { gpa: a }).text() == (TrackingError::UnalignedPage {
            gpa: b,
        }).text() ==> a == b,
{
    let none = Seq::<char>::empty();
    if (TrackingError::UnsupportedPageSize { page_size: a }).text() == (
    TrackingError::UnsupportedPageSize { page_size: b }).text() {
        let before =
            "the experiment supports only normal 4 KiB guest pages; Firecracker reported "@;
        let x = text::decimal(a as nat);
        let y = text::decimal(b as nat);
        assert(before + x + none =~= before + x);
        assert(before + y + none =~= before + y);
        text::lemma_same_between(before, x, y, none);
        text::lemma_decimal_is_injective(a as nat, b as nat);
    }
    if (TrackingError::MissingIdleBit { pfn: a }).text() == (TrackingError::MissingIdleBit {
        pfn: b,
    }).text() {
        let before = "missing idle bitmap result for PFN "@;
        let x = text::decimal(a as nat);
        let y = text::decimal(b as nat);
        assert(before + x + none =~= before + x);
        assert(before + y + none =~= before + y);
        text::lemma_same_between(before, x, y, none);
        text::lemma_decimal_is_injective(a as nat, b as nat);
    }
    let x = text::hexadecimal(a as nat);
    let y = text::hexadecimal(b as nat);
    if (TrackingError::MaskedEntry { hva: a }).text() == (TrackingError::MaskedEntry {
        hva: b,
    }).text() {
        let before = "read pagemap entry for Firecracker HVA 0x"@;
        assert(before + x + none =~= before + x);
        assert(before + y + none =~= before + y);
        text::lemma_same_between(before, x, y, none);
        text::lemma_hexadecimal_is_injective(a as nat, b as nat);
    }
    if (TrackingError::DuplicatePage { gpa: a }).text() == (TrackingError::DuplicatePage {
        gpa: b,
    }).text() {
        let before = "duplicate guest physical page 0x"@;
        assert(before + x + none =~= before + x);
        assert(before + y + none =~= before + y);
        text::lemma_same_between(before, x, y, none);
        text::lemma_hexadecimal_is_injective(a as nat, b as nat);
    }
    if (TrackingError::UnalignedPage { gpa: a }).text() == (TrackingError::UnalignedPage {
        gpa: b,
    }).text() {
        text::lemma_same_between("GPA 0x"@, x, y, " is not 4 KiB aligned"@);
        text::lemma_hexadecimal_is_injective(a as nat, b as nat);
    }
}

} // verus!
