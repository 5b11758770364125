//! Pages as ranges.

use crate::idle_page_tracking::error::TrackingError;
use crate::idle_page_tracking::regions::PAGE_SIZE;
use crate::manifest;
use crate::manifest::GuestMemoryRange;
use crate::ordered;
use std::collections::BTreeSet;
use vstd::prelude::*;

verus! {

/// Whether the range consists of whole pages, at least one.
pub open spec fn is_run(range: GuestMemoryRange) -> bool {
    &&& range.size > 0
    &&& range.gpa % PAGE_SIZE == 0
    &&& range.size % PAGE_SIZE == 0
}

/// Whether a page lies in one of the ranges.
pub open spec fn is_covered(ranges: Seq<GuestMemoryRange>, page: int) -> bool {
    exists|i: int| 0 <= i < ranges.len() && (#[trigger] ranges[i]).gpa <= page < ranges[i].end()
}

/// Whether the ranges, in ascending order and with a gap between any two,
/// consist of the given pages.
pub open spec fn covers(ranges: Seq<GuestMemoryRange>, pages: Set<u64>) -> bool {
    &&& forall|i: int| 0 <= i < ranges.len() ==> is_run(#[trigger] ranges[i])
    &&& forall|i: int, j: int|
        0 <= i < j < ranges.len() ==> (#[trigger] ranges[i]).end() < (#[trigger] ranges[j]).gpa
    &&& forall|i: int|
        0 <= i < ranges.len() ==> (#[trigger] ranges[i]).end() <= u64::MAX + 1
    &&& forall|page: u64| #[trigger]
        pages.contains(page) <==> page % PAGE_SIZE == 0 && is_covered(ranges, page as int)
}

/// The ranges that consist of the given pages.
pub open spec fn ranges_of(pages: Set<u64>) -> Seq<GuestMemoryRange> {
    choose|ranges: Seq<GuestMemoryRange>| covers(ranges, pages)
}

/// Whether a page does not start on a page boundary.
pub open spec fn is_unaligned(page: u64) -> bool {
    page % PAGE_SIZE != 0
}

/// Whether every page that there can be is among the given ones.
pub open spec fn is_everything(pages: Set<u64>) -> bool {
    forall|page: u64| page % PAGE_SIZE == 0 ==> #[trigger] pages.contains(page)
}

/// Whether a page is the first that does not start on a page boundary.
pub open spec fn is_first_unaligned(pages: Set<u64>, gpa: u64) -> bool {
    &&& pages.contains(gpa)
    &&& is_unaligned(gpa)
    &&& forall|page: u64| #[trigger] pages.contains(page) && is_unaligned(page) ==> gpa <= page
}

/// What pages come to when they are put together to ranges. That a page does
/// not start on a page boundary is an error, and so is it that the pages are
/// all that there can be.
pub open spec fn coalesced(pages: Set<u64>) -> Result<Seq<GuestMemoryRange>, TrackingError> {
    if exists|gpa: u64| is_first_unaligned(pages, gpa) {
        Err(
            TrackingError::UnalignedPage {
                gpa: choose|gpa: u64| is_first_unaligned(pages, gpa),
            },
        )
    } else if is_everything(pages) {
        Err(TrackingError::RangeOverflow)
    } else {
        Ok(ranges_of(pages))
    }
}

/// A page at the end of the last range is the last page.
pub proof fn lemma_last_page(ranges: Seq<GuestMemoryRange>, pages: Set<u64>)
    requires
        covers(ranges, pages),
        ranges.len() > 0,
    ensures
        pages.contains((ranges.last().end() - PAGE_SIZE) as u64),
        0 <= ranges.last().gpa <= ranges.last().end() - PAGE_SIZE <= u64::MAX,
        forall|page: u64| #[trigger]
            pages.contains(page) ==> page <= ranges.last().end() - PAGE_SIZE,
{
    let last = ranges.last();
    let n = ranges.len() - 1;
    assert(is_run(ranges[n]));
    assert(last.size >= PAGE_SIZE);
    assert(ranges[n].end() <= u64::MAX + 1);
    let page = (last.end() - PAGE_SIZE) as u64;
    assert(page % PAGE_SIZE == 0);
    assert(is_covered(ranges, page as int));
    assert forall|page: u64| #[trigger] pages.contains(page) implies page <= last.end()
        - PAGE_SIZE by {
        let i = choose|i: int|
            0 <= i < ranges.len() && (#[trigger] ranges[i]).gpa <= page < ranges[i].end();
        assert(is_run(ranges[i]));
        if i < n {
            assert(ranges[i].end() < ranges[n].gpa);
        }
    }
}

/// The page before a range is not among the pages.
proof fn lemma_gap_before_last(ranges: Seq<GuestMemoryRange>, pages: Set<u64>)
    requires
        covers(ranges, pages),
        ranges.len() > 0,
        ranges.last().gpa > 0,
    ensures
        ranges.last().gpa >= PAGE_SIZE,
        !pages.contains((ranges.last().gpa - PAGE_SIZE) as u64),
{
    let last = ranges.last();
    let n = ranges.len() - 1;
    assert(is_run(ranges[n]));
    let page = (last.gpa - PAGE_SIZE) as u64;
    if pages.contains(page) {
        let i = choose|i: int|
            0 <= i < ranges.len() && (#[trigger] ranges[i]).gpa <= page < ranges[i].end();
        assert(is_run(ranges[i]));
        assert(i < n);
        assert(ranges[i].end() < ranges[n].gpa);
        assert(ranges[i].end() % PAGE_SIZE as int == 0);
    }
}

/// What the ranges but the last consist of.
proof fn lemma_without_last(ranges: Seq<GuestMemoryRange>, pages: Set<u64>)
    requires
        covers(ranges, pages),
        ranges.len() > 0,
    ensures
        covers(
            ranges.drop_last(),
            pages.difference(Set::new(|page: u64| ranges.last().gpa <= page)),
        ),
{
    let rest = ranges.drop_last();
    let n = ranges.len() - 1;
    let fewer = pages.difference(Set::new(|page: u64| ranges.last().gpa <= page));
    assert(forall|i: int| 0 <= i < rest.len() ==> rest[i] == #[trigger] ranges[i]);
    assert forall|page: u64| #[trigger] fewer.contains(page) <==> page % PAGE_SIZE == 0
        && is_covered(rest, page as int) by {
        if fewer.contains(page) {
            let i = choose|i: int|
                0 <= i < ranges.len() && (#[trigger] ranges[i]).gpa <= page < ranges[i].end();
            assert(i < n);
            assert(rest[i].gpa <= page < rest[i].end());
        }
        if page % PAGE_SIZE == 0 && is_covered(rest, page as int) {
            let i = choose|i: int|
                0 <= i < rest.len() && (#[trigger] rest[i]).gpa <= page < rest[i].end();
            assert(ranges[i].gpa <= page < ranges[i].end());
            assert(is_covered(ranges, page as int));
            assert(ranges[i].end() < ranges[n].gpa);
        }
    }
}

/// Pages make up ranges in one way only.
pub proof fn lemma_ranges_are_unique(
    a: Seq<GuestMemoryRange>,
    b: Seq<GuestMemoryRange>,
    pages: Set<u64>,
)
    requires
        covers(a, pages),
        covers(b, pages),
    ensures
        a == b,
    decreases a.len(),
{
    if a.len() == 0 && b.len() == 0 {
        assert(a =~= b);
    } else if a.len() == 0 {
        lemma_last_page(b, pages);
    } else if b.len() == 0 {
        lemma_last_page(a, pages);
    } else {
        lemma_last_page(a, pages);
        lemma_last_page(b, pages);
        let x = a.last();
        let y = b.last();
        assert(x.end() == y.end());
        assert(is_run(a[a.len() - 1]));
        assert(is_run(b[b.len() - 1]));
        if x.gpa < y.gpa {
            lemma_gap_before_last(b, pages);
            let page = (y.gpa - PAGE_SIZE) as u64;
            assert(a[a.len() - 1].gpa <= page < a[a.len() - 1].end());
            assert(is_covered(a, page as int));
            assert(pages.contains(page));
        }
        if y.gpa < x.gpa {
            lemma_gap_before_last(a, pages);
            let page = (x.gpa - PAGE_SIZE) as u64;
            assert(b[b.len() - 1].gpa <= page < b[b.len() - 1].end());
            assert(is_covered(b, page as int));
            assert(pages.contains(page));
        }
        assert(x == y);
        lemma_without_last(a, pages);
        lemma_without_last(b, pages);
        lemma_ranges_are_unique(
            a.drop_last(),
            b.drop_last(),
            pages.difference(Set::new(|page: u64| x.gpa <= page)),
        );
        assert(a =~= a.drop_last().push(x));
        assert(b =~= b.drop_last().push(y));
    }
}

/// What is known once the first `n` pages of a list are gathered: the ranges
/// that are complete, and the run from `start` to `previous`.
spec fn gathered(
    pages: Seq<u64>,
    n: int,
    ranges: Seq<GuestMemoryRange>,
    start: u64,
    previous: u64,
) -> bool {
    &&& 0 < n <= pages.len()
    &&& previous == pages[n - 1]
    &&& start <= previous
    &&& start % PAGE_SIZE == 0
    &&& forall|i: int| 0 <= i < n ==> !is_unaligned(#[trigger] pages[i])
    &&& forall|i: int| 0 <= i < ranges.len() ==> is_run(#[trigger] ranges[i])
    &&& forall|i: int, j: int|
        0 <= i < j < ranges.len() ==> (#[trigger] ranges[i]).end() < (#[trigger] ranges[j]).gpa
    &&& forall|i: int| 0 <= i < ranges.len() ==> (#[trigger] ranges[i]).end() < start
    &&& forall|page: u64| #[trigger]
        pages.take(n).contains(page) <==> page % PAGE_SIZE == 0 && (is_covered(
            ranges,
            page as int,
        ) || start <= page <= previous)
    &&& manifest::total_size(ranges) + (previous - start) + PAGE_SIZE == n * PAGE_SIZE
}

/// The run goes on.
proof fn lemma_run_goes_on(
    pages: Seq<u64>,
    n: int,
    ranges: Seq<GuestMemoryRange>,
    start: u64,
    previous: u64,
)
    requires
        gathered(pages, n, ranges, start, previous),
        n < pages.len(),
        pages[n] == previous + PAGE_SIZE,
    ensures
        gathered(pages, n + 1, ranges, start, pages[n]),
{
    let page = pages[n];
    let prefix = pages.take(n);
    let longer = pages.take(n + 1);
    assert forall|other: u64| #[trigger] longer.contains(other) <==> other % PAGE_SIZE == 0 && (
    is_covered(ranges, other as int) || start <= other <= page) by {
        lemma_one_more(pages, n, other);
        assert(prefix.contains(other) <==> other % PAGE_SIZE == 0 && (is_covered(
            ranges,
            other as int,
        ) || start <= other <= previous));
    }
}

proof fn lemma_one_more(pages: Seq<u64>, n: int, page: u64)
    requires
        0 <= n < pages.len(),
    ensures
        pages.take(n + 1).contains(page) <==> pages.take(n).contains(page) || page == pages[n],
{
    let prefix = pages.take(n);
    let longer = pages.take(n + 1);
    if longer.contains(page) {
        let i = choose|i: int| 0 <= i < longer.len() && longer[i] == page;
        if i < n {
            assert(prefix[i] == page);
        }
    }
    if prefix.contains(page) {
        let i = choose|i: int| 0 <= i < prefix.len() && prefix[i] == page;
        assert(longer[i] == page);
    }
    if page == pages[n] {
        assert(longer[n] == page);
    }
}

/// The ranges with the run at their end.
spec fn with_run(ranges: Seq<GuestMemoryRange>, start: u64, previous: u64) -> Seq<
    GuestMemoryRange,
> {
    ranges.push(GuestMemoryRange { gpa: start, size: (previous - start + PAGE_SIZE) as u64 })
}

/// The run ends before the next page.
proof fn lemma_run_ends(
    pages: Seq<u64>,
    n: int,
    ranges: Seq<GuestMemoryRange>,
    start: u64,
    previous: u64,
)
    requires
        gathered(pages, n, ranges, start, previous),
        n < pages.len(),
        pages[n] > previous + PAGE_SIZE,
        !is_unaligned(pages[n]),
    ensures
        gathered(pages, n + 1, with_run(ranges, start, previous), pages[n], pages[n]),
{
    let page = pages[n];
    let more = with_run(ranges, start, previous);
    assert(more.drop_last() =~= ranges);
    let run = more.last();
    assert(run.end() == previous + PAGE_SIZE);
    assert(!is_unaligned(pages[n - 1]));
    assert forall|i: int| 0 <= i < more.len() implies is_run(#[trigger] more[i]) by {
        if i < ranges.len() {
            assert(is_run(ranges[i]));
        }
    }
    assert forall|i: int, j: int| 0 <= i < j < more.len() implies (#[trigger] more[i]).end() < (
    #[trigger] more[j]).gpa by {
        assert(more[i] == ranges[i]);
        if j < ranges.len() {
            assert(more[j] == ranges[j]);
        }
    }
    assert forall|i: int| 0 <= i < more.len() implies (#[trigger] more[i]).end() < page by {
        if i < ranges.len() {
            assert(ranges[i].end() < start);
        }
    }
    assert forall|other: u64| #[trigger] pages.take(n + 1).contains(other) <==> other % PAGE_SIZE
        == 0 && (is_covered(more, other as int) || page <= other <= page) by {
        lemma_one_more(pages, n, other);
        lemma_covered_by_run(ranges, start, previous, other);
        assert(pages.take(n).contains(other) <==> other % PAGE_SIZE == 0 && (is_covered(
            ranges,
            other as int,
        ) || start <= other <= previous));
    }
}

/// A page is covered once the run is at the end of the ranges when it was
/// before or lies in the run.
proof fn lemma_covered_by_run(
    ranges: Seq<GuestMemoryRange>,
    start: u64,
    previous: u64,
    page: u64,
)
    requires
        start <= previous,
        start % PAGE_SIZE == 0,
        previous % PAGE_SIZE == 0,
        previous - start + PAGE_SIZE <= u64::MAX,
    ensures
        page % PAGE_SIZE == 0 ==> (is_covered(with_run(ranges, start, previous), page as int)
            <==> is_covered(ranges, page as int) || start <= page <= previous),
{
    let more = with_run(ranges, start, previous);
    let n = ranges.len() as int;
    if page % PAGE_SIZE == 0 {
        if is_covered(more, page as int) {
            let i = choose|i: int|
                0 <= i < more.len() && (#[trigger] more[i]).gpa <= page < more[i].end();
            if i < n {
                assert(ranges[i].gpa <= page < ranges[i].end());
            }
        }
        if is_covered(ranges, page as int) {
            let i = choose|i: int|
                0 <= i < ranges.len() && (#[trigger] ranges[i]).gpa <= page < ranges[i].end();
            assert(more[i].gpa <= page < more[i].end());
        }
        if start <= page <= previous {
            assert(more[n].gpa <= page < more[n].end());
        }
    }
}

/// The last run ends.
proof fn lemma_last_run_ends(
    pages: Seq<u64>,
    set: Set<u64>,
    ranges: Seq<GuestMemoryRange>,
    start: u64,
    previous: u64,
)
    requires
        gathered(pages, pages.len() as int, ranges, start, previous),
        ordered::lists_ascending(pages, set),
        previous - start + PAGE_SIZE <= u64::MAX,
    ensures
        covers(with_run(ranges, start, previous), set),
        manifest::total_size(with_run(ranges, start, previous)) == pages.len() * PAGE_SIZE,
{
    let more = with_run(ranges, start, previous);
    let n = pages.len() as int;
    assert(more.drop_last() =~= ranges);
    assert(!is_unaligned(pages[n - 1]));
    assert(pages.take(n) =~= pages);
    assert forall|i: int| 0 <= i < more.len() implies is_run(#[trigger] more[i]) by {
        if i < ranges.len() {
            assert(is_run(ranges[i]));
        }
    }
    assert forall|i: int, j: int| 0 <= i < j < more.len() implies (#[trigger] more[i]).end() < (
    #[trigger] more[j]).gpa by {
        assert(more[i] == ranges[i]);
        if j < ranges.len() {
            assert(more[j] == ranges[j]);
        }
    }
    assert forall|i: int| 0 <= i < more.len() implies (#[trigger] more[i]).end() <= u64::MAX
        + 1 by {
        if i < ranges.len() {
            assert(ranges[i].end() < start);
        }
    }
    assert forall|page: u64| #[trigger] set.contains(page) <==> page % PAGE_SIZE == 0
        && is_covered(more, page as int) by {
        lemma_covered_by_run(ranges, start, previous, page);
        assert(pages.take(n).contains(page) <==> page % PAGE_SIZE == 0 && (is_covered(
            ranges,
            page as int,
        ) || start <= page <= previous));
        assert(set.contains(page) <==> pages.contains(page));
    }
}

/// Puts pages together to ranges. That a page does not start on a page
/// boundary is an error; the first such page is named. So is it that the
/// pages are all that there can be.
pub fn coalesce_gpa_pages(pages: &BTreeSet<u64>) -> (result: Result<
    Vec<GuestMemoryRange>,
    TrackingError,
>)
    ensures
        match result {
            Ok(ranges) => {
                &&& coalesced(pages@) == Ok::<Seq<GuestMemoryRange>, TrackingError>(ranges@)
                &&& covers(ranges@, pages@)
                &&& manifest::total_size(ranges@) == pages@.len() * PAGE_SIZE
            },
            Err(error) => coalesced(pages@) == Err::<Seq<GuestMemoryRange>, TrackingError>(error),
        },
{
    let list = ordered::ascending_elements(pages);
    if list.len() == 0 {
        let none: Vec<GuestMemoryRange> = Vec::new();
        proof {
            assert forall|page: u64| !(#[trigger] pages@.contains(page)) by {
                assert(pages@.contains(page) <==> list@.contains(page));
            }
            assert(0u64 % PAGE_SIZE == 0);
            assert(!pages@.contains(0));
            assert(covers(none@, pages@));
            lemma_ranges_are_unique(none@, ranges_of(pages@), pages@);
        }
        return Ok(none);
    }
    let first: u64 = list[0];
    if first % PAGE_SIZE != 0 {
        proof {
            assert(list@.contains(first));
            assert forall|page: u64| #[trigger]
                pages@.contains(page) && is_unaligned(page) implies first <= page by {
                let i = choose|i: int| 0 <= i < list@.len() && list@[i] == page;
                assert(list@[0] <= list@[i]);
            }
        }
        assert(is_first_unaligned(pages@, first));
        return Err(TrackingError::UnalignedPage { gpa: first });
    }
    let mut start: u64 = first;
    let mut previous: u64 = first;
    let mut result: Vec<GuestMemoryRange> = Vec::new();
    let mut n: usize = 1;
    proof {
        assert forall|page: u64| #[trigger] list@.take(1).contains(page) <==> page % PAGE_SIZE
            == 0 && (is_covered(result@, page as int) || first <= page <= first) by {
            if page == first {
                assert(list@.take(1)[0] == page);
            }
        }
        assert(gathered(list@, 1, result@, start, previous));
    }
    while n < list.len()
        invariant
            ordered::lists_ascending(list@, pages@),
            gathered(list@, n as int, result@, start, previous),
        decreases list@.len() - n,
    {
        let page: u64 = list[n];
        assert(list@[n - 1] < list@[n as int]);
        if page % PAGE_SIZE != 0 {
            proof {
                assert(list@.contains(page));
                assert forall|other: u64| #[trigger]
                    pages@.contains(other) && is_unaligned(other) implies page <= other by {
                    let i = choose|i: int| 0 <= i < list@.len() && list@[i] == other;
                    if i < n {
                        assert(!is_unaligned(list@[i]));
                    } else if i > n {
                        assert(list@[n as int] < list@[i]);
                    }
                }
            }
            assert(is_first_unaligned(pages@, page));
            return Err(TrackingError::UnalignedPage { gpa: page });
        }
        assert(!is_unaligned(list@[n - 1]));
        if page - previous == PAGE_SIZE {
            proof {
                lemma_run_goes_on(list@, n as int, result@, start, previous);
            }
            previous = page;
        } else {
            assert(page > previous + PAGE_SIZE);
            proof {
                lemma_run_ends(list@, n as int, result@, start, previous);
            }
            let size: u64 = previous - start + PAGE_SIZE;
            result.push(GuestMemoryRange { gpa: start, size });
            start = page;
            previous = page;
        }
        n += 1;
    }
    proof {
        assert forall|page: u64| #[trigger] pages@.contains(page) implies !is_unaligned(page) by {
            let i = choose|i: int| 0 <= i < list@.len() && list@[i] == page;
            assert(!is_unaligned(list@[i]));
        }
        assert(list@.take(list@.len() as int) =~= list@);
    }
    let span: u64 = previous - start;
    match span.checked_add(PAGE_SIZE) {
        None => {
            proof {
                assert(!is_unaligned(list@[n - 1]));
                assert(start == 0 && previous == 0xffff_ffff_ffff_f000);
                assert forall|page: u64| page % PAGE_SIZE == 0 implies #[trigger] pages@.contains(
                    page,
                ) by {
                    assert(list@.take(n as int).contains(page));
                }
            }
            Err(TrackingError::RangeOverflow)
        },
        Some(size) => {
            proof {
                lemma_last_run_ends(list@, pages@, result@, start, previous);
                let all = with_run(result@, start, previous);
                lemma_ranges_are_unique(all, ranges_of(pages@), pages@);
                lemma_not_everything(all, pages@);
            }
            result.push(GuestMemoryRange { gpa: start, size });
            Ok(result)
        },
    }
}

/// Ranges whose sizes can be written leave a page out.
proof fn lemma_not_everything(ranges: Seq<GuestMemoryRange>, pages: Set<u64>)
    requires
        covers(ranges, pages),
    ensures
        !is_everything(pages),
{
    if is_everything(pages) {
        assert(0u64 % PAGE_SIZE == 0);
        assert(pages.contains(0));
        assert(0xffff_ffff_ffff_f000u64 % PAGE_SIZE == 0);
        assert(pages.contains(0xffff_ffff_ffff_f000));
        let n = ranges.len() - 1;
        lemma_last_page(ranges, pages);
        assert(is_run(ranges[n]));
        if ranges.last().gpa > 0 {
            lemma_gap_before_last(ranges, pages);
            let page = (ranges.last().gpa - PAGE_SIZE) as u64;
            assert(page % PAGE_SIZE == 0);
            assert(pages.contains(page));
        }
    }
}

/// Where there is a page that does not start on a page boundary, there is a
/// first one.
proof fn lemma_first_unaligned(pages: Set<u64>, page: u64)
    requires
        pages.contains(page),
        is_unaligned(page),
    ensures
        exists|gpa: u64| is_first_unaligned(pages, gpa),
    decreases page,
{
    if !is_first_unaligned(pages, page) {
        let smaller = choose|other: u64| #[trigger]
            pages.contains(other) && is_unaligned(other) && page > other;
        lemma_first_unaligned(pages, smaller);
    }
}

/// Gathers the first `n` pages of a list.
proof fn lemma_gathered(pages: Seq<u64>, n: int) -> (run: (Seq<GuestMemoryRange>, u64, u64))
    requires
        0 < n <= pages.len(),
        ordered::strictly_increasing(pages),
        forall|i: int| 0 <= i < pages.len() ==> !is_unaligned(#[trigger] pages[i]),
    ensures
        gathered(pages, n, run.0, run.1, run.2),
    decreases n,
{
    if n == 1 {
        let first = pages[0];
        let none = Seq::<GuestMemoryRange>::empty();
        assert forall|page: u64| #[trigger] pages.take(1).contains(page) <==> page % PAGE_SIZE
            == 0 && (is_covered(none, page as int) || first <= page <= first) by {
            if page == first {
                assert(pages.take(1)[0] == page);
            }
        }
        assert(gathered(pages, 1, none, first, first));
        (none, first, first)
    } else {
        let (ranges, start, previous) = lemma_gathered(pages, n - 1);
        assert(pages[n - 2] < pages[n - 1]);
        assert(!is_unaligned(pages[n - 2]) && !is_unaligned(pages[n - 1]));
        if pages[n - 1] == previous + PAGE_SIZE {
            lemma_run_goes_on(pages, n - 1, ranges, start, previous);
            (ranges, start, pages[n - 1])
        } else {
            lemma_run_ends(pages, n - 1, ranges, start, previous);
            (with_run(ranges, start, previous), pages[n - 1], pages[n - 1])
        }
    }
}

/// Pages that all start on a page boundary and leave one out consist of
/// ranges.
proof fn lemma_ranges_exist(pages: Set<u64>)
    requires
        pages.finite(),
        !is_everything(pages),
        forall|page: u64| #[trigger] pages.contains(page) ==> !is_unaligned(page),
    ensures
        covers(ranges_of(pages), pages),
        manifest::total_size(ranges_of(pages)) == pages.len() * PAGE_SIZE,
{
    ordered::lemma_listing_exists(pages);
    ordered::lemma_listing_length(pages);
    let list = ordered::ascending(pages);
    if list.len() == 0 {
        let none = Seq::<GuestMemoryRange>::empty();
        assert forall|page: u64| !(#[trigger] pages.contains(page)) by {
            assert(pages.contains(page) <==> list.contains(page));
        }
        assert(covers(none, pages));
        lemma_ranges_are_unique(none, ranges_of(pages), pages);
    } else {
        assert forall|i: int| 0 <= i < list.len() implies !is_unaligned(#[trigger] list[i]) by {
            assert(list.contains(list[i]));
        }
        let n = list.len() as int;
        let (ranges, start, previous) = lemma_gathered(list, n);
        assert(!is_unaligned(list[n - 1]));
        assert(list.take(n) =~= list);
        if previous - start + PAGE_SIZE > u64::MAX {
            assert(start == 0 && previous == 0xffff_ffff_ffff_f000);
            assert forall|page: u64| page % PAGE_SIZE == 0 implies #[trigger] pages.contains(
                page,
            ) by {
                assert(list.take(n).contains(page));
            }
        }
        lemma_last_run_ends(list, pages, ranges, start, previous);
        lemma_ranges_are_unique(with_run(ranges, start, previous), ranges_of(pages), pages);
    }
}

/// Pages are put together exactly when each starts on a page boundary and one
/// is left out, and then the ranges hold these pages and no other, each range
/// as long as can be, and the size of the ranges is that of the pages.
pub proof fn law_coalescing_keeps_the_pages(pages: Set<u64>)
    requires
        pages.finite(),
    ensures
        coalesced(pages) is Ok <==> !is_everything(pages) && forall|page: u64| #[trigger]
            pages.contains(page) ==> !is_unaligned(page),
        coalesced(pages) matches Ok(ranges) ==> covers(ranges, pages) && manifest::total_size(
            ranges,
        ) == pages.len() * PAGE_SIZE,
{
    if exists|page: u64| #[trigger] pages.contains(page) && is_unaligned(page) {
        let page = choose|page: u64| #[trigger] pages.contains(page) && is_unaligned(page);
        lemma_first_unaligned(pages, page);
    }
    if coalesced(pages) is Ok {
        lemma_ranges_exist(pages);
    }
}

/// A page lies in the ranges that pages are put together to exactly when it is
/// one of the pages.
pub proof fn law_ranges_hold_exactly_the_pages(pages: Set<u64>, page: u64)
    requires
        pages.finite(),
        coalesced(pages) is Ok,
        page % 4096 == 0,
    ensures
        pages.contains(page) <==> exists|i: int|
            0 <= i < coalesced(pages)->Ok_0.len() && (#[trigger] coalesced(pages)->Ok_0[i]).gpa
                <= page < coalesced(pages)->Ok_0[i].gpa + coalesced(pages)->Ok_0[i].size,
{
    law_coalescing_keeps_the_pages(pages);
    let ranges = coalesced(pages)->Ok_0;
    if is_covered(ranges, page as int) {
        let i = choose|i: int|
            0 <= i < ranges.len() && (#[trigger] ranges[i]).gpa <= page < ranges[i].end();
        assert(ranges[i].gpa <= page < ranges[i].gpa + ranges[i].size);
    }
    if exists|i: int|
        0 <= i < ranges.len() && (#[trigger] ranges[i]).gpa <= page < ranges[i].gpa
            + ranges[i].size {
        let i = choose|i: int|
            0 <= i < ranges.len() && (#[trigger] ranges[i]).gpa <= page < ranges[i].gpa
                + ranges[i].size;
        assert(ranges[i].gpa <= page < ranges[i].end());
        assert(is_covered(ranges, page as int));
    }
}

/// The ranges that pages are put together to are made of whole pages, ascend,
/// and have a gap between any two, so that none could be longer; together they
/// are as large as the pages.
pub proof fn law_ranges_are_whole_and_apart(pages: Set<u64>, i: int, j: int)
    requires
        pages.finite(),
        coalesced(pages) is Ok,
        0 <= i < coalesced(pages)->Ok_0.len(),
    ensures
        ({
            let ranges = coalesced(pages)->Ok_0;
            &&& ranges[i].size > 0
            &&& ranges[i].gpa % 4096 == 0
            &&& ranges[i].size % 4096 == 0
            &&& i < j < ranges.len() ==> ranges[i].gpa + ranges[i].size < ranges[j].gpa
            &&& manifest::total_size(ranges) == pages.len() * 4096
        }),
{
    law_coalescing_keeps_the_pages(pages);
    let ranges = coalesced(pages)->Ok_0;
    assert(is_run(ranges[i]));
    if i < j < ranges.len() {
        assert(ranges[i].end() < ranges[j].gpa);
    }
}

/// Pages are refused exactly when one does not start on a page boundary, and
/// then the first such page is named, or when no page that there can be is left
/// out.
pub proof fn law_refused_pages(pages: Set<u64>, page: u64)
    ensures
        pages.contains(page) && page % 4096 != 0 ==> {
            &&& coalesced(pages) matches Err(TrackingError::UnalignedPage { gpa })
            &&& gpa <= page
        },
        coalesced(pages) matches Err(error) ==> match error {
            TrackingError::UnalignedPage { gpa } => pages.contains(gpa) && gpa % 4096 != 0,
            TrackingError::RangeOverflow => page % 4096 == 0 ==> pages.contains(page),
            _ => false,
        },
        coalesced(pages) is Ok && pages.contains(page) ==> page % 4096 == 0,
        page % 4096 == 0 && !pages.contains(page) && (forall|other: u64| #[trigger]
            pages.contains(other) ==> other % 4096 == 0) ==> coalesced(pages) is Ok,
{
    if pages.contains(page) && page % 4096 != 0 {
        lemma_first_unaligned(pages, page);
    }
}

} // verus!
