use vstd::prelude::*;

verus! {

/// Logical-storage lifecycle ceiling: bytes retained by a published result,
/// and bytes live at the peak of its construction.
#[derive(Clone, Copy, Debug, PartialEq, Eq, Structural)]
pub struct StorageLimit {
    retained_logical_bytes: u64,
    peak_live_logical_bytes: u64,
}

impl StorageLimit {
    pub closed spec fn retained(self) -> u64 {
        self.retained_logical_bytes
    }

    pub closed spec fn peak(self) -> u64 {
        self.peak_live_logical_bytes
    }

    /// Admit a lifecycle ceiling; retained bytes are part of the peak, so a
    /// retained ceiling above the peak ceiling is refused.
    pub fn new(retained: u64, peak: u64) -> (limit: Option<StorageLimit>)
        ensures
            limit is Some <==> retained <= peak,
            limit matches Some(l) ==> l.retained() == retained && l.peak() == peak,
    {
        if retained <= peak {
            Some(StorageLimit { retained_logical_bytes: retained, peak_live_logical_bytes: peak })
        } else {
            None
        }
    }

    /// The default lifecycle ceiling: 128 MiB retained within a 512 MiB peak.
    pub fn default_limit() -> (limit: StorageLimit)
        ensures
            limit.retained() == 134217728,
            limit.peak() == 536870912,
    {
        StorageLimit { retained_logical_bytes: 134217728, peak_live_logical_bytes: 536870912 }
    }

    pub fn retained_logical_bytes(self) -> (bytes: u64)
        ensures
            bytes == self.retained(),
    {
        self.retained_logical_bytes
    }

    pub fn peak_live_logical_bytes(self) -> (bytes: u64)
        ensures
            bytes == self.peak(),
    {
        self.peak_live_logical_bytes
    }
}

/// Ceiling on a count of elementary work steps.
#[derive(Clone, Copy, Debug, PartialEq, Eq, Structural)]
pub struct WorkLimit {
    steps: u64,
}

impl WorkLimit {
    pub closed spec fn spec_steps(self) -> u64 {
        self.steps
    }

    pub fn new(steps: u64) -> (limit: WorkLimit)
        ensures
            limit.spec_steps() == steps,
    {
        WorkLimit { steps }
    }

    pub fn steps(self) -> (steps: u64)
        ensures
            steps == self.spec_steps(),
    {
        self.steps
    }
}

} // verus!
