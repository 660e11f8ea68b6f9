//! Progress and cancellation of indexing.

use std::sync::atomic::{AtomicBool, AtomicU64, Ordering};
use std::sync::Arc;
use vstd::prelude::*;

verus! {

/// The words for an index that was given up on request.
pub const INDEX_CANCELLED: &'static str = "索引已取消";

/// Why no index was built.
#[derive(Debug, Clone, Copy, PartialEq, Eq, Structural)]
pub enum IndexError {
    /// The cancel flag was raised before the index was complete.
    Cancelled {
        /// The bytes reported as progress until then.
        reported: u64,
    },
}

impl IndexError {
    /// The words for the error.
    pub fn message(&self) -> (out: &'static str)
        ensures
            out@ == INDEX_CANCELLED@,
    {
        INDEX_CANCELLED
    }
}

/// Handles through which another thread follows an indexing run and may stop it.
/// Without handles nothing is reported and nothing is cancelled.
#[derive(Debug, Clone)]
pub struct IndexHooks {
    /// Counts the bytes scanned so far.
    pub progress: Option<Arc<AtomicU64>>,
    /// Raised to ask for the scan to stop at its next checkpoint.
    pub cancel: Option<Arc<AtomicBool>>,
}

impl Default for IndexHooks {
    fn default() -> (out: Self)
        ensures
            out.progress is None,
            out.cancel is None,
    {
        IndexHooks { progress: None, cancel: None }
    }
}

impl IndexHooks {
    /// `bytes` were added to the progress counter, if there is one. What the counter
    /// holds then is not said: other threads add to it too.
    pub open spec fn adds(self, bytes: u64) -> bool {
        match self.progress {
            Some(counter) => added(*counter, bytes),
            None => true,
        }
    }

    /// `total` bytes were reported: parts that make them up were added to the progress
    /// counter. How often each part was added is not said.
    pub open spec fn reports(self, total: int) -> bool {
        exists|parts: Seq<u64>|
            #[trigger] sum_of(parts) == total && forall|k: int|
                0 <= k < parts.len() ==> self.adds(#[trigger] parts[k])
    }

    /// Adds `bytes` to the progress counter, if there is one.
    pub(crate) fn report(&self, bytes: u64)
        ensures
            self.adds(bytes),
    {
        match &self.progress {
            Some(counter) => {
                add_to(AtomicU64::fetch_add, counter, bytes);
            },
            None => {},
        }
    }

    /// What was reported before, and one more part.
    pub(crate) proof fn lemma_reports_more(self, total: int, bytes: u64)
        requires
            self.reports(total),
            self.adds(bytes),
        ensures
            self.reports(total + bytes),
    {
        let parts = choose|parts: Seq<u64>|
            #[trigger] sum_of(parts) == total && forall|k: int|
                0 <= k < parts.len() ==> self.adds(#[trigger] parts[k]);
        let more = parts.push(bytes);
        assert(more.drop_last() =~= parts);
        assert(sum_of(more) == total + bytes);
    }

    /// Two reports are one of their sum.
    pub(crate) proof fn lemma_reports_both(self, first: int, second: int)
        requires
            self.reports(first),
            self.reports(second),
        ensures
            self.reports(first + second),
    {
        let a = choose|parts: Seq<u64>|
            #[trigger] sum_of(parts) == first && forall|k: int|
                0 <= k < parts.len() ==> self.adds(#[trigger] parts[k]);
        let b = choose|parts: Seq<u64>|
            #[trigger] sum_of(parts) == second && forall|k: int|
                0 <= k < parts.len() ==> self.adds(#[trigger] parts[k]);
        lemma_sum_of_both(a, b);
        let both = a + b;
        assert(sum_of(both) == first + second);
        assert forall|k: int| 0 <= k < both.len() implies self.adds(#[trigger] both[k]) by {
            if k < a.len() {
                assert(both[k] == a[k]);
            } else {
                assert(both[k] == b[k - a.len()]);
            }
        }
    }

    /// Nothing needs no report.
    pub(crate) proof fn lemma_reports_nothing(self)
        ensures
            self.reports(0),
    {
        assert(sum_of(Seq::<u64>::empty()) == 0);
    }

    /// Reading the cancel flag may give `raised`: a flag is read by one load of its
    /// value, which other threads may change; without a flag nothing is raised.
    pub open spec fn reads_cancelled(self, raised: bool) -> bool {
        match self.cancel {
            Some(flag) => loads(*flag, raised),
            None => !raised,
        }
    }

    /// Whenever the cancel flag is read, it gives `raised`.
    pub open spec fn always_reads(self, raised: bool) -> bool {
        forall|value: bool| #[trigger] self.reads_cancelled(value) ==> value == raised
    }

    /// `error` ends the indexing of `len` bytes that found the cancel flag raised, with
    /// less reported than all of them.
    pub open spec fn stopped_by(self, error: IndexError, len: int) -> bool {
        let IndexError::Cancelled { reported } = error;
        &&& self.reads_cancelled(true)
        &&& self.reports(reported as int)
        &&& reported <= len
        &&& len > 0 ==> reported < len
    }

    /// Whether cancellation was asked for: what one load of the cancel flag gives, and
    /// never so without a flag.
    pub fn is_cancelled(&self) -> (out: bool)
        ensures
            self.reads_cancelled(out),
    {
        match &self.cancel {
            Some(flag) => read_flag(AtomicBool::load, flag),
            None => false,
        }
    }

    /// An error exactly where cancellation was asked for: where one load of the cancel
    /// flag finds it raised, and never so without a flag.
    pub fn check_cancelled(&self) -> (out: Result<(), IndexError>)
        ensures
            self.reads_cancelled(out is Err),
            out is Err ==> out == Err::<(), IndexError>(IndexError::Cancelled { reported: 0 }),
    {
        if self.is_cancelled() {
            Err(IndexError::Cancelled { reported: 0 })
        } else {
            Ok(())
        }
    }
}

/// The sum of `parts`.
pub open spec fn sum_of(parts: Seq<u64>) -> int
    decreases parts.len(),
{
    if parts.len() == 0 {
        0
    } else {
        sum_of(parts.drop_last()) + parts.last()
    }
}

proof fn lemma_sum_of_both(a: Seq<u64>, b: Seq<u64>)
    ensures
        sum_of(a + b) == sum_of(a) + sum_of(b),
    decreases b.len(),
{
    if b.len() == 0 {
        assert(a + b =~= a);
    } else {
        assert((a + b).drop_last() =~= a + b.drop_last());
        lemma_sum_of_both(a, b.drop_last());
    }
}

/// A relaxed `fetch_add` of `bytes` on `counter` (`AtomicU64::fetch_add`) was made:
/// it gave what the counter held before.
pub open spec fn added(counter: AtomicU64, bytes: u64) -> bool {
    exists|before: u64|
        #[trigger] call_ensures(AtomicU64::fetch_add, (&counter, bytes, Ordering::Relaxed), before)
}

/// Adds to a counter by a relaxed `fetch_add`.
fn add_to<F: Fn(&AtomicU64, u64, Ordering) -> u64>(
    fetch_add: F,
    counter: &AtomicU64,
    bytes: u64,
) -> (before: u64)
    requires
        call_requires(fetch_add, (counter, bytes, Ordering::Relaxed)),
    ensures
        call_ensures(fetch_add, (counter, bytes, Ordering::Relaxed), before),
{
    fetch_add(counter, bytes, Ordering::Relaxed)
}

/// A relaxed load of `flag` (`AtomicBool::load`) may give `value`.
pub open spec fn loads(flag: AtomicBool, value: bool) -> bool {
    call_ensures(AtomicBool::load, (&flag, Ordering::Relaxed), value)
}

/// Reads a flag by a relaxed load.
fn read_flag<F: Fn(&AtomicBool, Ordering) -> bool>(load: F, flag: &AtomicBool) -> (out: bool)
    requires
        call_requires(load, (flag, Ordering::Relaxed)),
    ensures
        call_ensures(load, (flag, Ordering::Relaxed), out),
{
    load(flag, Ordering::Relaxed)
}

} // verus!
