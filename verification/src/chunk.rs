//! Adaptive chunk sizing: batch sizes follow memory pressure and timing,
//! shrinking quickly under pressure and growing slowly when idle and fast.
use vstd::prelude::*;

verus! {

/// A chunk sizing strategy: a target batch size from available memory, and
/// an adjustment step fed with the observed pressure and timing.
pub trait ChunkStrategy {
    /// The strategy's own well-formedness, which its operations rely on.
    spec fn valid(&self) -> bool;

    /// The number of rows the next batch should aim for, given the
    /// available memory in bytes.
    fn calculate_chunk_size(&self, available_memory: usize) -> usize
        requires
            self.valid(),
    ;

    /// Adjusts the running chunk size from the observed memory pressure
    /// (in percent) and the last batch's processing time.
    fn adjust(&mut self, memory_ratio_percent: u64, processing_time_ms: u64)
        requires
            old(self).valid(),
        ensures
            final(self).valid(),
    ;
}

/// The adaptive strategy: a running row count bounded by a floor and a
/// ceiling, aiming at a configured share of available memory.
pub struct AdaptiveChunkStrategy {
    pub current_chunk_size: usize,
    pub min_chunk_size: usize,
    pub max_chunk_size: usize,
    pub target_ratio_percent: u64,
}

/// The assumed bytes per row when the file gives no better hint.
pub open spec fn fallback_row_size() -> int {
    100
}

/// The clamped target: `available * target / 100 / row_size`, floored and
/// capped by the configured bounds.
pub open spec fn chunk_size_spec(
    available: int,
    target_percent: int,
    row_size: int,
    min_rows: int,
    max_rows: int,
) -> int {
    let rows = available * target_percent / 100 / row_size;
    if rows < min_rows {
        min_rows
    } else if rows > max_rows {
        max_rows
    } else {
        rows
    }
}

/// One adjustment step: over 85 percent pressure shrinks to four fifths,
/// under 50 percent with a fast batch grows by one fifth, else no change.
pub open spec fn adjust_spec(
    current: int,
    min_rows: int,
    max_rows: int,
    ratio_percent: int,
    elapsed_ms: int,
) -> int {
    if ratio_percent > 85 {
        let shrunk = current * 8 / 10;
        if shrunk < min_rows {
            min_rows
        } else {
            shrunk
        }
    } else if ratio_percent < 50 && elapsed_ms < 100 {
        let grown = current * 12 / 10;
        if grown > max_rows {
            max_rows
        } else {
            grown
        }
    } else {
        current
    }
}

impl AdaptiveChunkStrategy {
    /// The documented defaults: 10,000 running rows between 1,000 and
    /// 1,000,000, aiming at 70 percent of available memory.
    pub fn new() -> (r: AdaptiveChunkStrategy)
        ensures
            r.current_chunk_size == 10_000,
            r.min_chunk_size == 1_000,
            r.max_chunk_size == 1_000_000,
            r.target_ratio_percent == 70,
            r.wf(),
    {
        AdaptiveChunkStrategy {
            current_chunk_size: 10_000,
            min_chunk_size: 1_000,
            max_chunk_size: 1_000_000,
            target_ratio_percent: 70,
        }
    }

    /// Strategy invariant: the running size stays within its bounds and
    /// the target share stays within `[10, 90]` percent.
    pub open spec fn wf(self) -> bool {
        &&& self.min_chunk_size <= self.current_chunk_size <= self.max_chunk_size
        &&& 10 <= self.target_ratio_percent <= 90
    }

    pub fn with_min_chunk_size(self, size: usize) -> (r: AdaptiveChunkStrategy)
        ensures
            r.min_chunk_size == size,
            r.max_chunk_size == self.max_chunk_size,
            r.target_ratio_percent == self.target_ratio_percent,
    {
        let current = if self.current_chunk_size < size {
            size
        } else {
            self.current_chunk_size
        };
        AdaptiveChunkStrategy { min_chunk_size: size, current_chunk_size: current, ..self }
    }

    pub fn with_max_chunk_size(self, size: usize) -> (r: AdaptiveChunkStrategy)
        ensures
            r.max_chunk_size == size,
            r.min_chunk_size == self.min_chunk_size,
            r.target_ratio_percent == self.target_ratio_percent,
    {
        let current = if self.current_chunk_size > size {
            size
        } else {
            self.current_chunk_size
        };
        AdaptiveChunkStrategy { max_chunk_size: size, current_chunk_size: current, ..self }
    }

    /// Sets the target share of available memory, clamped to `[10, 90]`
    /// percent.
    pub fn with_target_ratio_percent(self, percent: u64) -> (r: AdaptiveChunkStrategy)
        ensures
            r.target_ratio_percent == if percent < 10 {
                10u64
            } else if percent > 90 {
                90u64
            } else {
                percent
            },
            r.current_chunk_size == self.current_chunk_size,
            r.min_chunk_size == self.min_chunk_size,
            r.max_chunk_size == self.max_chunk_size,
    {
        let clamped = if percent < 10 {
            10
        } else if percent > 90 {
            90
        } else {
            percent
        };
        AdaptiveChunkStrategy { target_ratio_percent: clamped, ..self }
    }

    /// Like the trait's `calculate_chunk_size`, but with the file's
    /// estimated row size instead of the fallback.
    pub fn chunk_size_with_row_hint(&self, available_memory: usize, row_size: usize) -> (r: usize)
        requires
            row_size > 0,
            self.target_ratio_percent <= 90,
        ensures
            r as int == chunk_size_spec(
                available_memory as int,
                self.target_ratio_percent as int,
                row_size as int,
                self.min_chunk_size as int,
                self.max_chunk_size as int,
            ),
    {
        proof {
            assert((available_memory as int) * (self.target_ratio_percent as int) <= (
            usize::MAX as int) * 90) by (nonlinear_arith)
                requires
                    available_memory as int <= usize::MAX as int,
                    0 <= self.target_ratio_percent as int <= 90,
            {}
        }
        let target: u128 = (available_memory as u128) * (self.target_ratio_percent as u128) / 100;
        let rows: u128 = target / (row_size as u128);
        if rows < self.min_chunk_size as u128 {
            self.min_chunk_size
        } else if rows > self.max_chunk_size as u128 {
            self.max_chunk_size
        } else {
            rows as usize
        }
    }
}

impl ChunkStrategy for AdaptiveChunkStrategy {
    /// The strategy is valid when its running size sits within its bounds
    /// and the target share is clamped.
    open spec fn valid(&self) -> bool {
        self.wf()
    }

    /// The clamped share of available memory at the fallback row size of
    /// one hundred bytes per row.
    fn calculate_chunk_size(&self, available_memory: usize) -> (r: usize)
        ensures
            r as int == chunk_size_spec(
                available_memory as int,
                self.target_ratio_percent as int,
                fallback_row_size(),
                self.min_chunk_size as int,
                self.max_chunk_size as int,
            ),
    {
        self.chunk_size_with_row_hint(available_memory, 100)
    }

    /// Shrinks fast under pressure, grows slowly when idle and fast, and
    /// otherwise leaves the running size alone.
    fn adjust(&mut self, memory_ratio_percent: u64, processing_time_ms: u64)
        ensures
            final(self).current_chunk_size as int == adjust_spec(
                old(self).current_chunk_size as int,
                old(self).min_chunk_size as int,
                old(self).max_chunk_size as int,
                memory_ratio_percent as int,
                processing_time_ms as int,
            ),
            final(self).min_chunk_size == old(self).min_chunk_size,
            final(self).max_chunk_size == old(self).max_chunk_size,
            final(self).target_ratio_percent == old(self).target_ratio_percent,
    {
        if memory_ratio_percent > 85 {
            let shrunk: u128 = (self.current_chunk_size as u128) * 8 / 10;
            self.current_chunk_size = if shrunk < self.min_chunk_size as u128 {
                self.min_chunk_size
            } else {
                shrunk as usize
            };
        } else if memory_ratio_percent < 50 && processing_time_ms < 100 {
            let grown: u128 = (self.current_chunk_size as u128) * 12 / 10;
            self.current_chunk_size = if grown > self.max_chunk_size as u128 {
                self.max_chunk_size
            } else {
                grown as usize
            };
        }
    }
}

} // verus!
