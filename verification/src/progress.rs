use crate::util::{decimal_string, human_readable_bytes, spec_decimal, spec_human_readable};
use vstd::arithmetic::div_mod::{lemma_div_is_ordered, lemma_div_multiples_vanish};
use vstd::prelude::*;
use vstd::string::StringExecFns;

verus! {

/// One per-task completion signal, carrying the finished task's byte size.
/// A worker emits exactly one event per task, whether or not the copy
/// succeeded, so the number of events always matches the manifest.
pub struct ProgressEvent {
    pub size: u64,
}

/// The completion percentage in hundredths of a percent, measured against
/// the planned total. A zero planned total counts as fully complete at once,
/// so the division is never taken with a zero divisor.
pub open spec fn spec_percent(copied: u64, total: u64) -> int {
    if total == 0 {
        10000
    } else {
        (copied * 10000) / (total as int)
    }
}

/// The running aggregation state on the coordinating side: the planned total
/// bytes, the bytes of the events accounted so far, and how many events have
/// arrived.
pub struct ProgressTracker {
    pub total_bytes: u64,
    pub copied_bytes: u64,
    pub events: usize,
}

impl ProgressTracker {
    /// The accounted bytes never pass the planned total: events carry the
    /// planned sizes of tasks, and every task is planned exactly once.
    pub open spec fn wf(&self) -> bool {
        self.copied_bytes <= self.total_bytes
    }

    /// A fresh state measuring against the planned total.
    pub fn new(total_bytes: u64) -> (r: ProgressTracker)
        ensures
            r.total_bytes == total_bytes,
            r.copied_bytes == 0,
            r.events == 0,
            r.wf(),
    {
        ProgressTracker { total_bytes, copied_bytes: 0, events: 0 }
    }

    /// Accounts one completion event: its bytes join the running total and
    /// the event count grows by one.
    pub fn on_event(&mut self, e: &ProgressEvent)
        requires
            old(self).copied_bytes + e.size <= old(self).total_bytes,
            old(self).events < usize::MAX,
        ensures
            final(self).total_bytes == old(self).total_bytes,
            final(self).copied_bytes == old(self).copied_bytes + e.size,
            final(self).events == old(self).events + 1,
            final(self).wf(),
    {
        self.copied_bytes = self.copied_bytes + e.size;
        self.events = self.events + 1;
    }

    /// The running percentage, in hundredths of a percent, never past
    /// one hundred percent.
    pub fn percent_hundredths(&self) -> (p: u64)
        requires
            self.wf(),
        ensures
            p == spec_percent(self.copied_bytes, self.total_bytes),
            p <= 10000,
    {
        if self.total_bytes == 0 {
            10000
        } else {
            let p128: u128 = (self.copied_bytes as u128) * 10000 / (self.total_bytes as u128);
            proof {
                lemma_div_is_ordered(
                    self.copied_bytes * 10000,
                    self.total_bytes * 10000,
                    self.total_bytes as int,
                );
                lemma_div_multiples_vanish(10000, self.total_bytes as int);
            }
            p128 as u64
        }
    }
}

/// Aggregation correctness: once the accounted bytes reach a nonzero planned
/// total, the running percentage is exactly one hundred percent.
pub proof fn lemma_percent_complete(copied: u64, total: u64)
    requires
        total > 0,
        copied == total,
    ensures
        spec_percent(copied, total) == 10000,
{
    lemma_div_multiples_vanish(10000, total as int);
}

/// The displayed percentage is monotonically non-decreasing: accounting more
/// bytes never lowers it.
pub proof fn lemma_percent_monotonic(c1: u64, c2: u64, total: u64)
    requires
        c1 <= c2,
    ensures
        spec_percent(c1, total) <= spec_percent(c2, total),
{
    if total > 0 {
        lemma_div_is_ordered(c1 * 10000, c2 * 10000, total as int);
    }
}

/// The text of the progress line: the percentage with two digits after the
/// point, then `%`, overwritten in place by the displaying layer.
pub open spec fn spec_percent_text(p: u64) -> Seq<char> {
    spec_decimal(p as nat / 100, p as nat % 100) + seq!['%']
}

/// Renders hundredths of a percent as the progress line text.
pub fn percent_string(p: u64) -> (r: String)
    ensures
        r@ == spec_percent_text(p),
{
    let mut s = decimal_string(p / 100, p % 100);
    s.append("%");
    proof {
        reveal_strlit("%");
        assert(s@ =~= spec_percent_text(p));
    }
    s
}

/// The one-line completion summary printed after all workers have finished:
/// the planned byte total in human-readable form, then ` copied.`.
pub fn completion_message(total_bytes: u64) -> (r: String)
    ensures
        r@ == spec_human_readable(total_bytes) + seq![' ', 'c', 'o', 'p', 'i', 'e', 'd', '.'],
{
    let mut s = human_readable_bytes(total_bytes);
    s.append(" copied.");
    proof {
        reveal_strlit(" copied.");
        assert(s@ =~= spec_human_readable(total_bytes) + seq![
            ' ',
            'c',
            'o',
            'p',
            'i',
            'e',
            'd',
            '.',
        ]);
    }
    s
}

} // verus!
