//! Counters that let an observer follow a scan.

use vstd::prelude::*;

verus! {

/// What an observer can read off a [`ScanProgress`].
pub struct ProgressCounts {
    /// Number of batches the scan consists of.
    pub total_batches: nat,
    /// Number of batches that have been completed.
    pub scanned: nat,
    /// Number of completed batches that held at least one open port.
    pub found: nat,
    /// Whether the scan has been declared finished.
    pub finished: bool,
}

/// Progress of one scan: how many batches are done and how many of them
/// brought a discovery. The counters only ever grow.
#[derive(Clone, Copy, Debug)]
pub struct ScanProgress {
    total_batches: u64,
    scanned: u64,
    found: u64,
    finished: bool,
}

impl View for ScanProgress {
    type V = ProgressCounts;

    closed spec fn view(&self) -> ProgressCounts {
        ProgressCounts {
            total_batches: self.total_batches as nat,
            scanned: self.scanned as nat,
            found: self.found as nat,
            finished: self.finished,
        }
    }
}

impl ScanProgress {
    /// Progress of a scan of `total_batches` batches, none of them done yet.
    pub fn new(total_batches: u64) -> (progress: ScanProgress)
        ensures
            progress@ == (ProgressCounts {
                total_batches: total_batches as nat,
                scanned: 0,
                found: 0,
                finished: false,
            }),
    {
        ScanProgress { total_batches, scanned: 0, found: 0, finished: false }
    }

    /// Records that one more batch has been completed.
    pub fn inc_scanned(&mut self)
        requires
            old(self)@.scanned < u64::MAX,
        ensures
            final(self)@ == (ProgressCounts { scanned: old(self)@.scanned + 1, ..old(self)@ }),
    {
        self.scanned = self.scanned + 1;
    }

    /// Records that one more batch brought at least one open port.
    pub fn inc_found(&mut self)
        requires
            old(self)@.found < u64::MAX,
        ensures
            final(self)@ == (ProgressCounts { found: old(self)@.found + 1, ..old(self)@ }),
    {
        self.found = self.found + 1;
    }

    /// Declares the scan finished; the counters stay as they are.
    pub fn finish(&mut self)
        ensures
            final(self)@ == (ProgressCounts { finished: true, ..old(self)@ }),
    {
        self.finished = true;
    }

    /// Number of batches the scan consists of.
    pub fn total_batches(&self) -> (n: u64)
        ensures
            n == self@.total_batches,
    {
        self.total_batches
    }

    /// Number of batches completed so far.
    pub fn scanned(&self) -> (n: u64)
        ensures
            n == self@.scanned,
    {
        self.scanned
    }

    /// Number of completed batches that held at least one open port.
    pub fn found(&self) -> (n: u64)
        ensures
            n == self@.found,
    {
        self.found
    }

    /// Whether [`ScanProgress::finish`] has been called.
    pub fn is_finished(&self) -> (done: bool)
        ensures
            done == self@.finished,
    {
        self.finished
    }
}

} // verus!
