//! Progress reporting hooks of the long-running chip operations.
use vstd::prelude::*;

verus! {

/// Receives `(done, total)` byte progress.
pub trait ByteProgress {
    /// The reports received so far.
    spec fn reports(&self) -> Seq<(u64, u64)>;

    fn report(&mut self, done: u64, total: u64)
        ensures
            final(self).reports() == old(self).reports().push((done, total)),
    ;
}

/// Receives `(done, total)` block progress (bad-block scans).
pub trait BlockProgress {
    /// The reports received so far.
    spec fn block_reports(&self) -> Seq<(u32, u32)>;

    fn report(&mut self, done: u32, total: u32)
        ensures
            final(self).block_reports() == old(self).block_reports().push((done, total)),
    ;
}

/// A millisecond clock with a sleep, used to pace and time out polling.
pub trait Clock {
    /// A monotonic time in milliseconds.
    fn now_ms(&self) -> u64;

    /// Wait at least `ms` milliseconds.
    fn sleep_ms(&self, ms: u64);
}

/// A progress receiver that shows nothing.
pub struct NoProgress {
    pub bytes: Ghost<Seq<(u64, u64)>>,
    pub blocks: Ghost<Seq<(u32, u32)>>,
}

impl NoProgress {
    pub fn new() -> (r: Self)
        ensures
            r.bytes@.len() == 0,
            r.blocks@.len() == 0,
    {
        NoProgress { bytes: Ghost(Seq::empty()), blocks: Ghost(Seq::empty()) }
    }
}

impl ByteProgress for NoProgress {
    open spec fn reports(&self) -> Seq<(u64, u64)> {
        self.bytes@
    }

    fn report(&mut self, done: u64, total: u64) {
        proof {
            self.bytes@ = self.bytes@.push((done, total));
        }
    }
}

impl BlockProgress for NoProgress {
    open spec fn block_reports(&self) -> Seq<(u32, u32)> {
        self.blocks@
    }

    fn report(&mut self, done: u32, total: u32) {
        proof {
            self.blocks@ = self.blocks@.push((done, total));
        }
    }
}

} // verus!
