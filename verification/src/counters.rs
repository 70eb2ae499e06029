//! What a run counts.
use vstd::prelude::*;

verus! {

/// The counters of one run.
#[derive(Clone, Copy, Debug, PartialEq, Eq)]
pub struct RunCounters {
    /// Bytes taken from the source: the lengths of all chunks read.
    pub bytes_consumed: u64,
    /// Records handed to the transform.
    pub records_seen: u64,
    /// Records whose transform gave a result that was not empty.
    pub records_emitted: u64,
    /// Records whose transform failed and that the sentinel replaced.
    pub records_skipped: u64,
}

/// The counters as natural numbers.
pub struct Tally {
    pub bytes: nat,
    pub seen: nat,
    pub emitted: nat,
    pub skipped: nat,
}

impl View for RunCounters {
    type V = Tally;

    open spec fn view(&self) -> Tally {
        Tally {
            bytes: self.bytes_consumed as nat,
            seen: self.records_seen as nat,
            emitted: self.records_emitted as nat,
            skipped: self.records_skipped as nat,
        }
    }
}

impl RunCounters {
    /// All counters at zero.
    pub fn new() -> (c: Self)
        ensures
            c@ == (Tally { bytes: 0, seen: 0, emitted: 0, skipped: 0 }),
    {
        RunCounters { bytes_consumed: 0, records_seen: 0, records_emitted: 0, records_skipped: 0 }
    }
}

} // verus!
