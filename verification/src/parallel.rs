//! Parallel multi-file reading: the reader's configuration and the
//! concatenation of the batches the workers hand back.
//!
//! The fan-out itself (worker threads and the bounded channel that gives
//! backpressure) is plain I/O orchestration and lives outside the verified
//! core; it drives one adaptive reader per file and sends every yielded
//! batch into a channel of capacity `buffer_size`.
use vstd::prelude::*;

use crate::frame::{concat_frames, stack_cols, sum_heights, Frame};
use crate::ServiceError;

verus! {

/// Configuration of the parallel reader: the files to read, how many may
/// be read at once, and how many produced batches may wait unconsumed.
pub struct ParallelStreamReader {
    pub paths: Vec<String>,
    pub max_concurrent: usize,
    pub buffer_size: usize,
}

impl ParallelStreamReader {
    /// A reader over the given files. `worker_threads` is the machine's
    /// sampled parallelism; the buffer defaults to twice the concurrency,
    /// bounding the produced-but-unconsumed batches.
    pub fn new(paths: Vec<String>, worker_threads: usize) -> (r: ParallelStreamReader)
        ensures
            r.paths == paths,
            r.max_concurrent as int == if worker_threads >= 1 {
                worker_threads as int
            } else {
                1
            },
            r.buffer_size as int == if 2 * r.max_concurrent as int <= usize::MAX {
                2 * r.max_concurrent as int
            } else {
                usize::MAX as int
            },
    {
        let mc: usize = if worker_threads >= 1 {
            worker_threads
        } else {
            1
        };
        let buffer: usize = if mc <= usize::MAX / 2 {
            2 * mc
        } else {
            usize::MAX
        };
        ParallelStreamReader { paths, max_concurrent: mc, buffer_size: buffer }
    }

    /// Caps the number of files read at once; at least one.
    pub fn with_max_concurrent(self, max: usize) -> (r: ParallelStreamReader)
        ensures
            r.paths == self.paths,
            r.buffer_size == self.buffer_size,
            r.max_concurrent as int == if max >= 1 {
                max as int
            } else {
                1
            },
    {
        let mc: usize = if max >= 1 {
            max
        } else {
            1
        };
        ParallelStreamReader { max_concurrent: mc, ..self }
    }

    /// Caps the batches that may wait unconsumed; at least one.
    pub fn with_buffer_size(self, size: usize) -> (r: ParallelStreamReader)
        ensures
            r.paths == self.paths,
            r.max_concurrent == self.max_concurrent,
            r.buffer_size as int == if size >= 1 {
                size as int
            } else {
                1
            },
    {
        let b: usize = if size >= 1 {
            size
        } else {
            1
        };
        ParallelStreamReader { buffer_size: b, ..self }
    }

    pub fn num_files(&self) -> (r: usize)
        ensures
            r as nat == self.paths@.len(),
    {
        self.paths.len()
    }

    /// Stacks every batch the workers produced into one frame: `NoData`
    /// when none arrived, `SchemaMismatch` when the files disagree.
    pub fn collect_concatenated(&self, batches: &Vec<Frame>) -> (r: Result<Frame, ServiceError>)
        requires
            forall|i: int| 0 <= i < batches@.len() ==> (#[trigger] batches@[i])@.wf(),
        ensures
            batches@.len() == 0 <==> (r matches Err(e) && e is NoData),
            match r {
                Ok(f) => {
                    &&& batches@.len() > 0
                    &&& f@.fields == batches.deep_view()[0].fields
                    &&& f@.height == sum_heights(batches.deep_view(), batches@.len() as int)
                    &&& f@.cols == stack_cols(batches.deep_view(), batches@.len() as int)
                    &&& f.wf()
                },
                Err(e) => {
                    ||| e is NoData
                    ||| e is SchemaMismatch
                    ||| e is MemoryLimit
                },
            },
    {
        proof {
            assert forall|i: int|
                0 <= i < batches@.len() implies (#[trigger] batches.deep_view()[i]).wf() by {
                assert(batches.deep_view()[i] == batches@[i]@);
            }
        }
        concat_frames(batches)
    }
}

} // verus!
