//! The reads of a prefetch: when one is still wanted, and how a batch of them
//! is waited for.

use vstd::prelude::*;

verus! {

/// Whether a time budget of whole seconds is used up.
pub fn deadline_passed(elapsed_nanos: u128, timeout_secs: u64) -> (passed: bool)
    ensures
        passed == (elapsed_nanos >= timeout_secs * 1_000_000_000),
{
    elapsed_nanos >= timeout_secs as u128 * 1_000_000_000
}

/// Whether a read that was handed out should still touch its file. Asked
/// before the file is opened, and again before it is read.
pub fn read_is_wanted(cancelled: bool, expired: bool) -> (wanted: bool)
    ensures
        wanted == (!cancelled && !expired),
{
    !cancelled && !expired
}

/// The reads of a batch that came back so far.
#[derive(Clone, Debug, PartialEq, Eq)]
pub struct DrainState<E> {
    /// The first failure, which the batch reports.
    pub first_error: Option<E>,
    /// Whether the run is to be marked as cancelled.
    pub cancel: bool,
}

/// The first failure among the results.
pub open spec fn first_failure<E>(results: Seq<Result<(), E>>) -> Option<E>
    decreases results.len(),
{
    if results.len() == 0 {
        None
    } else {
        match first_failure(results.drop_last()) {
            Some(error) => Some(error),
            None => match results.last() {
                Ok(_) => None,
                Err(error) => Some(error),
            },
        }
    }
}

impl<E> DrainState<E> {
    /// What is known after the given results came back, in that order.
    pub open spec fn reached_by(self, results: Seq<Result<(), E>>) -> bool {
        &&& self.first_error == first_failure(results)
        &&& self.cancel == (exists|i: int| 0 <= i < results.len() && (#[trigger] results[i]) is Err)
    }

    /// No read came back yet.
    pub fn begin() -> (state: DrainState<E>)
        ensures
            state.first_error is None,
            !state.cancel,
            state.reached_by(Seq::empty()),
    {
        DrainState { first_error: None, cancel: false }
    }

    /// Takes in one more result. A failure marks the run as cancelled at
    /// once, and the reads that are still out are waited for all the same.
    pub fn absorb(self, result: Result<(), E>) -> (next: DrainState<E>)
        ensures
            next.cancel == (self.cancel || result is Err),
            next.first_error == (match self.first_error {
                Some(error) => Some(error),
                None => match result {
                    Ok(_) => None,
                    Err(error) => Some(error),
                },
            }),
            forall|seen: Seq<Result<(), E>>| #[trigger]
                self.reached_by(seen) ==> next.reached_by(seen.push(result)),
    {
        let failed = result.is_err();
        let cancel = self.cancel || failed;
        let first_error = match self.first_error {
            Some(error) => Some(error),
            None => match result {
                Ok(_) => None,
                Err(error) => Some(error),
            },
        };
        let next = DrainState { first_error, cancel };
        proof {
            assert forall|seen: Seq<Result<(), E>>| #[trigger]
                self.reached_by(seen) implies next.reached_by(seen.push(result)) by {
                let all = seen.push(result);
                assert(all.drop_last() =~= seen);
                assert(all.last() == result);
                if self.cancel {
                    let i = choose|i: int| 0 <= i < seen.len() && (#[trigger] seen[i]) is Err;
                    assert(all[i] is Err);
                }
                if result is Err {
                    assert(all[all.len() - 1] is Err);
                }
                assert(forall|i: int| 0 <= i < seen.len() ==> #[trigger] all[i] == seen[i]);
                if exists|i: int| 0 <= i < all.len() && (#[trigger] all[i]) is Err {
                    let i = choose|i: int| 0 <= i < all.len() && (#[trigger] all[i]) is Err;
                    if i < seen.len() {
                        assert(seen[i] is Err);
                    }
                }
            }
        }
        next
    }

    /// What the batch reports: its first failure, or success.
    pub fn finish(self) -> (result: Result<(), E>)
        ensures
            result == (match self.first_error {
                Some(error) => Err(error),
                None => Ok(()),
            }),
    {
        match self.first_error {
            Some(error) => Err(error),
            None => Ok(()),
        }
    }
}

/// A batch succeeds exactly when every read of it did, and what it reports
/// otherwise is the failure of one of its reads, before which none failed.
pub proof fn law_batch_reports_its_first_failure<E>(results: Seq<Result<(), E>>)
    ensures
        first_failure(results) is None <==> forall|i: int|
            0 <= i < results.len() ==> (#[trigger] results[i]) is Ok,
        first_failure(results) matches Some(error) ==> exists|i: int|
            0 <= i < results.len() && #[trigger] results[i] == Err::<(), E>(error) && forall|j: int|
                0 <= j < i ==> (#[trigger] results[j]) is Ok,
    decreases results.len(),
{
    if results.len() > 0 {
        let before = results.drop_last();
        law_batch_reports_its_first_failure(before);
        assert(forall|i: int| 0 <= i < before.len() ==> before[i] == #[trigger] results[i]);
        let last = results.len() - 1;
        match first_failure(before) {
            Some(error) => {
                let i = choose|i: int|
                    0 <= i < before.len() && #[trigger] before[i] == Err::<(), E>(error)
                        && forall|j: int| 0 <= j < i ==> (#[trigger] before[j]) is Ok;
                assert(results[i] == Err::<(), E>(error));
                assert forall|j: int| 0 <= j < i implies (#[trigger] results[j]) is Ok by {
                    assert(before[j] is Ok);
                }
            },
            None => {
                assert forall|j: int| 0 <= j < last implies (#[trigger] results[j]) is Ok by {
                    assert(before[j] is Ok);
                }
                assert(results[last] == results.last());
            },
        }
    }
}

/// A batch that is drained remembers whether anything failed: it is cancelled
/// exactly when one of its reads failed, and reports a failure exactly then.
pub proof fn law_drained_batch_remembers_failures<E>(
    state: DrainState<E>,
    results: Seq<Result<(), E>>,
)
    requires
        state.reached_by(results),
    ensures
        state.cancel <==> exists|i: int| 0 <= i < results.len() && (#[trigger] results[i]) is Err,
        state.first_error is None <==> forall|i: int|
            0 <= i < results.len() ==> (#[trigger] results[i]) is Ok,
{
    law_batch_reports_its_first_failure(results);
}

} // verus!
