//! Reads and writes that take more than one call.

use crate::idle_page_tracking::error::TrackingError;
use vstd::prelude::*;

verus! {

/// Which way the bytes go.
#[derive(Clone, Copy, Debug, PartialEq, Eq)]
pub enum Direction {
    Read,
    Write,
}

/// A buffer on its way from or to a file.
#[derive(Clone, Copy, Debug, PartialEq, Eq)]
pub struct Transfer {
    pub direction: Direction,
    /// Where in the file the buffer begins.
    pub offset: u64,
    /// Size of the buffer.
    pub len: usize,
    /// Number of bytes that are through.
    pub done: usize,
}

/// One call of a transfer.
#[derive(Clone, Copy, Debug, PartialEq, Eq)]
pub struct TransferStep {
    /// Where in the file the call begins.
    pub offset: u64,
    /// Where in the buffer the call begins.
    pub from: usize,
}

impl Transfer {
    /// Whether the buffer lies within the file's addresses.
    pub open spec fn wf(self) -> bool {
        self.done <= self.len && self.offset + self.len <= u64::MAX
    }

    /// A transfer of which nothing is through.
    pub fn begin(direction: Direction, offset: u64, len: usize) -> (transfer: Transfer)
        requires
            offset + len <= u64::MAX,
        ensures
            transfer == (Transfer { direction, offset, len, done: 0 }),
            transfer.wf(),
    {
        Transfer { direction, offset, len, done: 0 }
    }

    /// The call to make next, for all that is not through; none at the end.
    pub fn next_step(&self) -> (step: Option<TransferStep>)
        requires
            self.wf(),
        ensures
            step == (if self.done == self.len {
                None
            } else {
                Some(
                    TransferStep { offset: (self.offset + self.done) as u64, from: self.done },
                )
            }),
            step matches Some(step) ==> step.offset == self.offset + self.done,
    {
        if self.done == self.len {
            None
        } else {
            Some(TransferStep { offset: self.offset + self.done as u64, from: self.done })
        }
    }

    /// Takes the number of bytes that a call got through. A call that gets
    /// none through is an error.
    pub fn advance(self, count: usize) -> (result: Result<Transfer, TrackingError>)
        requires
            self.wf(),
            self.done < self.len,
            count <= self.len - self.done,
        ensures
            result == (if count > 0 {
                Ok(Transfer { done: (self.done + count) as usize, ..self })
            } else {
                Err(
                    match self.direction {
                        Direction::Read => TrackingError::ShortRead,
                        Direction::Write => TrackingError::ShortWrite,
                    },
                )
            }),
            result matches Ok(transfer) ==> transfer.wf() && transfer.done == self.done + count,
    {
        if count == 0 {
            return Err(
                match self.direction {
                    Direction::Read => TrackingError::ShortRead,
                    Direction::Write => TrackingError::ShortWrite,
                },
            );
        }
        Ok(Transfer { done: self.done + count, ..self })
    }
}

/// Number of bytes that calls got through.
pub open spec fn total(counts: Seq<usize>) -> int
    decreases counts.len(),
{
    if counts.len() == 0 {
        0
    } else {
        total(counts.drop_last()) + counts.last()
    }
}

/// The transfer after calls that got these numbers of bytes through.
pub open spec fn after(transfer: Transfer, counts: Seq<usize>) -> Result<Transfer, TrackingError>
    decreases counts.len(),
{
    if counts.len() == 0 {
        Ok(transfer)
    } else {
        match after(transfer, counts.drop_last()) {
            Err(error) => Err(error),
            Ok(so_far) => if counts.last() > 0 {
                Ok(Transfer { done: (so_far.done + counts.last()) as usize, ..so_far })
            } else {
                Err(
                    match transfer.direction {
                        Direction::Read => TrackingError::ShortRead,
                        Direction::Write => TrackingError::ShortWrite,
                    },
                )
            },
        }
    }
}

/// The calls of a transfer follow each other without a gap: each begins where
/// the bytes that are through end.
pub proof fn law_calls_follow_each_other(transfer: Transfer, counts: Seq<usize>)
    requires
        transfer.wf(),
        total(counts) <= transfer.len - transfer.done,
    ensures
        after(transfer, counts) is Ok <==> forall|i: int|
            0 <= i < counts.len() ==> #[trigger] counts[i] > 0,
        after(transfer, counts) matches Ok(now) ==> now.wf() && now.offset == transfer.offset
            && now.len == transfer.len && now.direction == transfer.direction && now.done
            == transfer.done + total(counts),
    decreases counts.len(),
{
    if counts.len() > 0 {
        let before = counts.drop_last();
        law_calls_follow_each_other(transfer, before);
        assert(forall|i: int| 0 <= i < before.len() ==> before[i] == #[trigger] counts[i]);
        if after(transfer, before) is Err {
            let i = choose|i: int| 0 <= i < before.len() && !(#[trigger] before[i] > 0);
            assert(counts[i] == 0);
        } else {
            assert forall|i: int| 0 <= i < before.len() implies #[trigger] counts[i] > 0 by {
                assert(before[i] > 0);
            }
            assert(counts[counts.len() - 1] == counts.last());
        }
    }
}

} // verus!
