//! Readers: row-group access over a mapped file's decoded data, and the
//! adaptive streaming reader that drives it in row-group order.
//!
//! Opening and mapping the file, and decoding its bytes, happen outside the
//! verified core; the reader receives the file's size, its row-group row
//! counts from the footer, and the decoded rows as plain values.
use vstd::prelude::*;

use crate::chunk::AdaptiveChunkStrategy;
use crate::frame::{col_len, col_subrange, count_trues, lemma_col_subrange_full, lemma_col_subrange_join, Field, Frame};
use crate::memory::MemoryManager;
use crate::ServiceError;

verus! {

/// Sum of the first `n` row-group row counts.
pub open spec fn rows_prefix(rows: Seq<usize>, n: int) -> int
    decreases n,
{
    if n <= 0 {
        0
    } else {
        rows_prefix(rows, n - 1) + rows[n - 1]
    }
}

pub proof fn lemma_rows_prefix_mono(rows: Seq<usize>, a: int, b: int)
    requires
        0 <= a <= b,
    ensures
        rows_prefix(rows, a) <= rows_prefix(rows, b),
    decreases b - a,
{
    if a < b {
        lemma_rows_prefix_mono(rows, a, b - 1);
        if 0 <= b - 1 < rows.len() {
        }
    }
}

/// Row-group reader over one mapped file: the real footer's row counts and
/// the decoded rows.
pub struct MmapParquetReader {
    pub file_size: usize,
    pub row_group_rows: Vec<usize>,
    pub data: Frame,
}

impl MmapParquetReader {
    pub open spec fn rg_rows(self) -> Seq<usize> {
        self.row_group_rows@
    }

    /// Reader invariant: the decoded data is well-formed and as high as the
    /// footer's row counts add up to.
    pub open spec fn wf(self) -> bool {
        &&& self.data.wf()
        &&& rows_prefix(self.rg_rows(), self.rg_rows().len() as int) == self.data@.height
    }

    /// Builds the reader, checking the footer's row counts against the
    /// decoded data; a mismatch is a metadata fault (`Compute`).
    #[verifier::loop_isolation(false)]
    pub fn new(file_size: usize, row_group_rows: Vec<usize>, data: Frame) -> (r: Result<
        MmapParquetReader,
        ServiceError,
    >)
        requires
            data.wf(),
        ensures
            match r {
                Ok(m) => {
                    &&& m.wf()
                    &&& m.file_size == file_size
                    &&& m.rg_rows() == row_group_rows@
                    &&& m.data@ == data@
                },
                Err(e) => e is Compute && rows_prefix(
                    row_group_rows@,
                    row_group_rows@.len() as int,
                ) != data@.height,
            },
            rows_prefix(row_group_rows@, row_group_rows@.len() as int) == data@.height ==> r is Ok,
    {
        let mut acc: u128 = 0;
        let mut i: usize = 0;
        while i < row_group_rows.len()
            invariant
                0 <= i <= row_group_rows@.len(),
                acc as int == rows_prefix(row_group_rows@, i as int),
                acc <= i as int * (usize::MAX as int),
            decreases row_group_rows.len() - i,
        {
            acc = acc + (row_group_rows[i] as u128);
            i += 1;
        }
        if acc == data.height() as u128 {
            Ok(MmapParquetReader { file_size, row_group_rows, data })
        } else {
            Err(ServiceError::Compute)
        }
    }

    pub fn num_row_groups(&self) -> (r: usize)
        ensures
            r as nat == self.rg_rows().len(),
    {
        self.row_group_rows.len()
    }

    /// The total rows the footer reports, which equal the decoded height.
    pub fn total_rows(&self) -> (r: usize)
        requires
            self.wf(),
        ensures
            r as int == rows_prefix(self.rg_rows(), self.rg_rows().len() as int),
            r as nat == self.data@.height,
    {
        self.data.height()
    }

    /// The average bytes one row occupies on disk, or the documented
    /// fallback of one hundred when the file is empty.
    pub fn estimate_row_size(&self) -> (r: usize)
        requires
            self.wf(),
        ensures
            self.data@.height > 0 ==> r as int == self.file_size as int / self.data@.height as int,
            self.data@.height == 0 ==> r == 100,
    {
        let total = self.total_rows();
        if total > 0 {
            self.file_size / total
        } else {
            100
        }
    }

    /// The footer's row count of one row group; an out-of-range index is an
    /// `InvalidConfig` fault.
    pub fn row_group_num_rows(&self, idx: usize) -> (r: Result<usize, ServiceError>)
        ensures
            match r {
                Ok(n) => idx < self.rg_rows().len() && n == self.rg_rows()[idx as int],
                Err(e) => e is InvalidConfig && idx >= self.rg_rows().len(),
            },
            idx < self.rg_rows().len() <==> r is Ok,
    {
        if idx < self.row_group_rows.len() {
            Ok(self.row_group_rows[idx])
        } else {
            Err(ServiceError::InvalidConfig)
        }
    }

    /// The rows of one row group, as a frame of the file's schema; an
    /// out-of-range index is an `InvalidConfig` fault.
    #[verifier::loop_isolation(false)]
    pub fn read_row_group(&self, idx: usize) -> (r: Result<Frame, ServiceError>)
        requires
            self.wf(),
        ensures
            match r {
                Ok(f) => {
                    &&& idx < self.rg_rows().len()
                    &&& f.wf()
                    &&& f@.fields == self.data@.fields
                    &&& f@.height == self.rg_rows()[idx as int]
                    &&& ({
                        let start = rows_prefix(self.rg_rows(), idx as int);
                        forall|i: int|
                            0 <= i < self.data@.cols.len() ==> f@.cols[i] == col_subrange(
                                #[trigger] self.data@.cols[i],
                                start,
                                start + self.rg_rows()[idx as int],
                            )
                    })
                },
                Err(e) => e is InvalidConfig && idx >= self.rg_rows().len(),
            },
            idx < self.rg_rows().len() <==> r is Ok,
    {
        if idx >= self.row_group_rows.len() {
            return Err(ServiceError::InvalidConfig);
        }
        let mut start: usize = 0;
        let mut g: usize = 0;
        proof {
            lemma_rows_prefix_mono(self.rg_rows(), idx as int, self.rg_rows().len() as int);
            lemma_rows_prefix_mono(self.rg_rows(), idx + 1, self.rg_rows().len() as int);
            lemma_rows_prefix_mono(self.rg_rows(), 0, idx as int);
            lemma_rows_prefix_nonneg(self.rg_rows(), idx as int);
            assert(rows_prefix(self.rg_rows(), 0) == 0);
        }
        while g < idx
            invariant
                0 <= g <= idx < self.rg_rows().len(),
                start as int == rows_prefix(self.rg_rows(), g as int),
                rows_prefix(self.rg_rows(), g as int) <= rows_prefix(self.rg_rows(), idx as int),
            decreases idx - g,
        {
            proof {
                lemma_rows_prefix_mono(self.rg_rows(), g + 1, idx as int);
                lemma_rows_prefix_nonneg(self.rg_rows(), g as int);
                assert(rows_prefix(self.rg_rows(), g + 1) == rows_prefix(self.rg_rows(), g as int)
                    + self.rg_rows()[g as int]);
            }
            start = start + self.row_group_rows[g];
            g += 1;
        }
        let count = self.row_group_rows[idx];
        proof {
            assert(rows_prefix(self.rg_rows(), idx + 1) == start + count);
        }
        let f = self.data.slice(start, count);
        proof {
            assert(start + count <= self.data@.height);
        }
        Ok(f)
    }

    /// Whether the whole mapped file fits in the available memory.
    pub fn can_fit_in_memory(&self, available_memory: usize) -> (r: bool)
        ensures
            r == (self.file_size < available_memory),
    {
        self.file_size < available_memory
    }

    pub fn schema(&self) -> (r: &Vec<Field>)
        ensures
            r.deep_view() == self.data@.fields,
    {
        self.data.schema()
    }

    pub fn file_size(&self) -> (r: usize)
        ensures
            r == self.file_size,
    {
        self.file_size
    }
}

/// A pushdown predicate: an opaque callable the client supplies, asked for
/// a keep-mask over a frame's rows. The reader checks the mask's length
/// itself and promises nothing of the client's choice of rows.
pub trait PredicatePushdown {
    fn apply(&self, frame: &Frame) -> Result<Vec<bool>, ServiceError>;
}

/// A pushdown that keeps everything: the reader without a predicate.
pub struct KeepAll;

impl PredicatePushdown for KeepAll {
    /// The all-true mask of the frame's height: nothing is filtered out.
    #[verifier::loop_isolation(false)]
    fn apply(&self, frame: &Frame) -> (r: Result<Vec<bool>, ServiceError>)
        ensures
            r matches Ok(m) && m@.len() == frame@.height && forall|i: int|
                0 <= i < m@.len() ==> m@[i],
    {
        let h = frame.height();
        let mut mask: Vec<bool> = Vec::new();
        let mut i: usize = 0;
        while i < h
            invariant
                0 <= i <= h,
                h as nat == frame@.height,
                mask@.len() == i as int,
                forall|t: int| 0 <= t < i ==> mask@[t],
            decreases h - i,
        {
            mask.push(true);
            i += 1;
        }
        Ok(mask)
    }
}

/// The documented row-size estimate: on-disk bytes per row, or the
/// fallback of one hundred for an empty file.
pub open spec fn spec_row_size(file_size: int, height: int) -> int {
    if height > 0 {
        file_size / height
    } else {
        100
    }
}

/// The memory a full load is estimated to need: rows times the row-size
/// estimate, saturating at the machine word.
pub open spec fn spec_memory_required(file_size: int, height: int) -> int {
    let need = height * spec_row_size(file_size, height);
    if need > usize::MAX {
        usize::MAX as int
    } else {
        need
    }
}

/// The adaptive streaming reader: drives the row groups in order, filters
/// through the optional pushdown, and reports batch sizes to the memory
/// manager.
pub struct AdaptiveStreamingReader<P: PredicatePushdown> {
    pub reader: MmapParquetReader,
    pub memory_manager: MemoryManager,
    pub chunk_strategy: AdaptiveChunkStrategy,
    pub predicate: Option<P>,
    pub current_row_group: usize,
    pub exhausted: bool,
}

impl<P: PredicatePushdown> AdaptiveStreamingReader<P> {
    pub open spec fn wf(self) -> bool {
        self.reader.wf() && self.chunk_strategy.wf()
    }

    /// A reader at the first row group, with the given memory budget and
    /// the default chunk strategy.
    pub fn new(reader: MmapParquetReader, memory_manager: MemoryManager) -> (r:
        AdaptiveStreamingReader<P>)
        requires
            reader.wf(),
        ensures
            r.wf(),
            r.reader == reader,
            r.current_row_group == 0,
            r.predicate is None,
            !r.exhausted,
    {
        AdaptiveStreamingReader {
            reader,
            memory_manager,
            chunk_strategy: AdaptiveChunkStrategy::new(),
            predicate: None,
            current_row_group: 0,
            exhausted: false,
        }
    }

    /// The same reader with another chunk strategy.
    pub fn with_chunk_strategy(self, strategy: AdaptiveChunkStrategy) -> (r:
        AdaptiveStreamingReader<P>)
        requires
            strategy.wf(),
        ensures
            r == (AdaptiveStreamingReader { chunk_strategy: strategy, ..self }),
    {
        AdaptiveStreamingReader { chunk_strategy: strategy, ..self }
    }

    /// Feeds the per-batch feedback loop: the chunk strategy adjusts from
    /// the memory manager's pressure ratio and the batch's processing time.
    pub fn report_batch_timing(&mut self, elapsed_ms: u64)
        requires
            old(self).wf(),
        ensures
            final(self).wf(),
            final(self).reader == old(self).reader,
            final(self).current_row_group == old(self).current_row_group,
            final(self).exhausted == old(self).exhausted,
            final(self).memory_manager == old(self).memory_manager,
            final(self).chunk_strategy.current_chunk_size as int == crate::chunk::adjust_spec(
                old(self).chunk_strategy.current_chunk_size as int,
                old(self).chunk_strategy.min_chunk_size as int,
                old(self).chunk_strategy.max_chunk_size as int,
                crate::memory::spec_ratio_percent(
                    old(self).memory_manager.resident,
                    old(self).memory_manager.available,
                ) as int,
                elapsed_ms as int,
            ),
    {
        let ratio = self.memory_manager.memory_ratio_percent();
        crate::chunk::ChunkStrategy::adjust(&mut self.chunk_strategy, ratio, elapsed_ms);
    }

    /// The same reader with a pushdown predicate.
    pub fn with_predicate(self, predicate: P) -> (r: AdaptiveStreamingReader<P>)
        ensures
            r == (AdaptiveStreamingReader { predicate: Some(predicate), ..self }),
    {
        AdaptiveStreamingReader { predicate: Some(predicate), ..self }
    }

    /// The memory the full load would take, from the footer's row count
    /// and the estimated row size, saturating at the machine word.
    pub fn estimate_memory_required(&self) -> (r: usize)
        requires
            self.wf(),
        ensures
            r as int == spec_memory_required(
                self.reader.file_size as int,
                self.reader.data@.height as int,
            ),
    {
        let rows = self.reader.total_rows();
        let row_size = self.reader.estimate_row_size();
        proof {
            assert((rows as int) * (row_size as int) <= (u64::MAX as int) * (u64::MAX as int))
                by (nonlinear_arith)
                requires
                    0 <= rows as int <= u64::MAX as int,
                    0 <= row_size as int <= u64::MAX as int,
            {}
            assert(usize::MAX <= u64::MAX);
        }
        let need: u128 = (rows as u128) * (row_size as u128);
        if need > usize::MAX as u128 {
            usize::MAX
        } else {
            need as usize
        }
    }

    /// Whether the estimated full load fits the manager's available bytes:
    /// total rows times the estimated row size, under the available figure.
    pub fn can_fit_in_memory(&self) -> (r: bool)
        requires
            self.wf(),
        ensures
            r == (spec_memory_required(
                self.reader.file_size as int,
                self.reader.data@.height as int,
            ) < self.memory_manager.available as int),
    {
        let need = self.estimate_memory_required();
        let available = self.memory_manager.available_memory();
        (need as u128) < (available as u128)
    }

    /// The next batch: reads the row group under the cursor, filters it
    /// through the pushdown if one is set, reports its size, and yields it.
    /// The first error is yielded once and ends the run. Without a
    /// pushdown, the yielded batch is exactly the row group's rows.
    pub fn next_batch(&mut self) -> (r: Option<Result<Frame, ServiceError>>)
        requires
            old(self).wf(),
        ensures
            final(self).wf(),
            final(self).reader == old(self).reader,
            final(self).predicate is Some <==> old(self).predicate is Some,
            ({
                let g = old(self).current_row_group as int;
                let rows = old(self).reader.rg_rows();
                if old(self).exhausted || g >= rows.len() {
                    &&& r is None
                    &&& final(self).exhausted
                    &&& final(self).current_row_group == old(self).current_row_group
                } else {
                    &&& final(self).current_row_group == g + 1
                    &&& match r {
                        Some(Ok(f)) => {
                            &&& f.wf()
                            &&& f@.fields == old(self).reader.data@.fields
                            &&& !final(self).exhausted
                            &&& (old(self).predicate is None ==> f@.height == rows[g] && (
                            forall|i: int|
                                0 <= i < old(self).reader.data@.cols.len() ==> f@.cols[i]
                                    == col_subrange(
                                    #[trigger] old(self).reader.data@.cols[i],
                                    rows_prefix(rows, g),
                                    rows_prefix(rows, g) + rows[g],
                                )))
                            &&& (old(self).predicate is Some ==> exists|m: Seq<bool>|
                                m.len() == rows[g] && f@.height == count_trues(m))
                        },
                        Some(Err(_)) => final(self).exhausted && old(self).predicate is Some,
                        None => false,
                    }
                }
            }),
    {
        if self.exhausted {
            return None;
        }
        if self.current_row_group >= self.reader.num_row_groups() {
            self.exhausted = true;
            return None;
        }
        let g = self.current_row_group;
        self.current_row_group = g + 1;
        let batch = match self.reader.read_row_group(g) {
            Ok(f) => f,
            Err(e) => {
                self.exhausted = true;
                return Some(Err(e));
            },
        };
        let out = match &self.predicate {
            None => batch,
            Some(p) => {
                let mask = match p.apply(&batch) {
                    Ok(m) => m,
                    Err(e) => {
                        self.exhausted = true;
                        return Some(Err(e));
                    },
                };
                match batch.filter_mask(&mask) {
                    Ok(f) => {
                        proof {
                            crate::frame::lemma_count_trues_le(mask@);
                        }
                        f
                    },
                    Err(e) => {
                        self.exhausted = true;
                        return Some(Err(e));
                    },
                }
            },
        };
        let size = out.estimated_bytes();
        self.memory_manager.track_usage(size);
        Some(Ok(out))
    }

    /// Materializes the remaining row groups into one frame. On a fresh
    /// reader without a pushdown the result's height is exactly the file's
    /// total row count; with a pushdown the schema is kept and the height
    /// is whatever the masks kept. An empty file is `NoData`.
    #[verifier::loop_isolation(false)]
    pub fn collect(self) -> (r: Result<Frame, ServiceError>)
        requires
            self.wf(),
            self.current_row_group == 0,
            !self.exhausted,
        ensures
            self.predicate is None ==> match r {
                Ok(f) => {
                    &&& self.reader.rg_rows().len() > 0
                    &&& f.wf()
                    &&& f@.fields == self.reader.data@.fields
                    &&& f@.height == self.reader.data@.height
                    &&& f@.cols == self.reader.data@.cols
                },
                Err(e) => e is NoData && self.reader.rg_rows().len() == 0,
            },
            self.predicate is None ==> (self.reader.rg_rows().len() > 0 <==> r is Ok),
            r matches Ok(f) ==> f.wf() && f@.fields == self.reader.data@.fields && f@.height
                <= self.reader.data@.height,
    {
        let mut me = self;
        let ghost rows = me.reader.rg_rows();
        let ghost dat = me.reader.data@;
        let ghost had_pred = me.predicate is Some;
        let n = me.reader.num_row_groups();
        if n == 0 {
            return Err(ServiceError::NoData);
        }
        let mut acc = crate::frame::Frame { fields: Vec::new(), columns: Vec::new(), height: 0 };
        let mut got_first: bool = false;
        proof {
            lemma_rows_prefix_nonneg(rows, 0);
        }
        loop
            invariant
                me.wf(),
                me.reader.rg_rows() == rows,
                me.reader.data@ == dat,
                me.predicate is Some <==> had_pred,
                0 < rows.len(),
                !me.exhausted,
                0 <= me.current_row_group <= rows.len(),
                got_first ==> {
                    &&& acc.wf()
                    &&& acc@.fields == dat.fields
                    &&& acc@.height <= rows_prefix(rows, me.current_row_group as int)
                    &&& (!had_pred ==> acc@.height == rows_prefix(
                        rows,
                        me.current_row_group as int,
                    ) && acc@.cols.len() == dat.cols.len() && (forall|i: int|
                        0 <= i < dat.cols.len() ==> acc@.cols[i] == col_subrange(
                            #[trigger] dat.cols[i],
                            0,
                            rows_prefix(rows, me.current_row_group as int),
                        )))
                },
                got_first <==> me.current_row_group > 0,
            decreases rows.len() - me.current_row_group,
        {
            let ghost g = me.current_row_group as int;
            proof {
                lemma_rows_prefix_mono(rows, g, rows.len() as int);
                if g < rows.len() {
                    lemma_rows_prefix_mono(rows, g + 1, rows.len() as int);
                }
                lemma_rows_prefix_nonneg(rows, g);
            }
            match me.next_batch() {
                None => {
                    break;
                },
                Some(Err(e)) => {
                    proof {
                        if !had_pred {
                            assert(false);
                        }
                    }
                    return Err(e);
                },
                Some(Ok(batch)) => {
                    proof {
                        if had_pred {
                            let m = choose|m: Seq<bool>|
                                m.len() == rows[g] && batch@.height == crate::frame::count_trues(
                                    m,
                                );
                            crate::frame::lemma_count_trues_le(m);
                        }
                    }
                    if !got_first {
                        acc = batch;
                        got_first = true;
                    } else {
                        let ghost pre_acc = acc@;
                        acc = match acc.vstack(&batch) {
                            Ok(f) => f,
                            Err(_) => {
                                proof {
                                    assert(acc@.height + batch@.height <= rows_prefix(
                                        rows,
                                        g + 1,
                                    ));
                                    assert(rows_prefix(rows, g + 1) <= dat.height);
                                    assert(false);
                                }
                                return Err(ServiceError::Compute);
                            },
                        };
                        proof {
                            if !had_pred {
                                assert forall|i: int| 0 <= i < dat.cols.len() implies acc@.cols[i]
                                    == col_subrange(
                                    #[trigger] dat.cols[i],
                                    0,
                                    rows_prefix(rows, g + 1),
                                ) by {
                                    lemma_rows_prefix_nonneg(rows, g);
                                    assert(col_len(dat.cols[i]) == dat.height);
                                    lemma_col_subrange_join(
                                        dat.cols[i],
                                        0,
                                        rows_prefix(rows, g),
                                        rows_prefix(rows, g) + rows[g],
                                    );
                                    assert(acc@.cols[i] == crate::frame::col_append(
                                        pre_acc.cols[i],
                                        batch@.cols[i],
                                    ));
                                }
                            }
                        }
                    }
                },
            }
        }
        proof {
            assert(me.current_row_group == rows.len());
            assert(got_first);
            if !had_pred {
                assert(acc@.height == dat.height);
                assert(acc@.cols =~= dat.cols) by {
                    assert forall|i: int| 0 <= i < dat.cols.len() implies acc@.cols[i]
                        == dat.cols[i] by {
                        assert(col_len(dat.cols[i]) == dat.height);
                        lemma_col_subrange_full(dat.cols[i]);
                    }
                }
            }
        }
        Ok(acc)
    }
}

pub proof fn lemma_rows_prefix_nonneg(rows: Seq<usize>, n: int)
    ensures
        rows_prefix(rows, n) >= 0,
    decreases n,
{
    if n > 0 {
        lemma_rows_prefix_nonneg(rows, n - 1);
    }
}

} // verus!
