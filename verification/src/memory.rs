//! Memory manager: resident bytes held against an available budget.
use vstd::prelude::*;

verus! {

/// Tracks the bytes the readers have acknowledged against the bytes the
/// system reports as available. The available figure is sampled outside
/// the core and handed in as a plain number.
pub struct MemoryManager {
    pub available: u64,
    pub resident: u64,
}

impl MemoryManager {
    pub fn new(available: u64) -> (r: MemoryManager)
        ensures
            r.available == available,
            r.resident == 0,
    {
        MemoryManager { available, resident: 0 }
    }

    pub fn available_memory(&self) -> (r: u64)
        ensures
            r == self.available,
    {
        self.available
    }

    pub fn tracked_bytes(&self) -> (r: u64)
        ensures
            r == self.resident,
    {
        self.resident
    }

    /// Refreshes the available figure from a new sample.
    pub fn set_available(&mut self, available: u64)
        ensures
            final(self).available == available,
            final(self).resident == old(self).resident,
    {
        self.available = available;
    }

    /// Acknowledges bytes a reader now holds; the counter saturates.
    pub fn track_usage(&mut self, bytes: u64)
        ensures
            final(self).available == old(self).available,
            final(self).resident as int == if old(self).resident + bytes <= u64::MAX {
                old(self).resident + bytes
            } else {
                u64::MAX as int
            },
    {
        self.resident = if bytes <= u64::MAX - self.resident {
            self.resident + bytes
        } else {
            u64::MAX
        };
    }

    /// Releases previously acknowledged bytes; the counter floors at zero.
    pub fn release_usage(&mut self, bytes: u64)
        ensures
            final(self).available == old(self).available,
            final(self).resident as int == if old(self).resident >= bytes {
                old(self).resident - bytes
            } else {
                0
            },
    {
        self.resident = if self.resident >= bytes {
            self.resident - bytes
        } else {
            0
        };
    }

    /// Tracked bytes over available bytes, in percent, clamped to
    /// `[0, 100]`; an empty budget counts as full pressure.
    pub fn memory_ratio_percent(&self) -> (r: u64)
        ensures
            r == spec_ratio_percent(self.resident, self.available),
    {
        if self.available == 0 {
            100
        } else if self.resident >= self.available {
            100
        } else {
            let r128: u128 = (self.resident as u128) * 100 / (self.available as u128);
            proof {
                assert(r128 < 100) by (nonlinear_arith)
                    requires
                        (self.resident as int) < (self.available as int),
                        self.available as int > 0,
                        r128 as int == (self.resident as int) * 100 / (self.available as int),
                {}
            }
            r128 as u64
        }
    }
}

/// The pressure ratio in percent: resident over available, clamped.
pub open spec fn spec_ratio_percent(resident: u64, available: u64) -> u64 {
    if available == 0 {
        100u64
    } else if resident >= available {
        100u64
    } else {
        ((resident as int) * 100 / (available as int)) as u64
    }
}

} // verus!
