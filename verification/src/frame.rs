//! Columnar table values: a schema of typed fields and equal-length columns.
use vstd::prelude::*;

use crate::ServiceError;

verus! {

/// Logical type of one column.
#[derive(Clone, Copy, PartialEq, Eq, Structural, Debug)]
pub enum LogicalType {
    Int64,
    Float64,
    Utf8,
    Boolean,
}

/// One schema entry: a named, typed, possibly nullable column.
pub struct Field {
    pub name: String,
    pub dtype: LogicalType,
    pub nullable: bool,
}

/// The mathematical value of a `Field`.
pub struct FieldV {
    pub name: Seq<char>,
    pub dtype: LogicalType,
    pub nullable: bool,
}

impl View for Field {
    type V = FieldV;

    open spec fn view(&self) -> FieldV {
        FieldV { name: self.name@, dtype: self.dtype, nullable: self.nullable }
    }
}

/// The values of one column. Floating-point columns are carried as raw
/// IEEE-754 bit patterns so that the core stays within exact integer values.
pub enum ColumnData {
    Int64(Vec<i64>),
    Float64Bits(Vec<u64>),
    Utf8(Vec<String>),
    Boolean(Vec<bool>),
}

/// The mathematical value of a `ColumnData`.
pub enum ColV {
    Int64(Seq<i64>),
    Float64Bits(Seq<u64>),
    Utf8(Seq<Seq<char>>),
    Boolean(Seq<bool>),
}

impl View for ColumnData {
    type V = ColV;

    open spec fn view(&self) -> ColV {
        match self {
            ColumnData::Int64(v) => ColV::Int64(v@),
            ColumnData::Float64Bits(v) => ColV::Float64Bits(v@),
            ColumnData::Utf8(v) => ColV::Utf8(v.deep_view()),
            ColumnData::Boolean(v) => ColV::Boolean(v@),
        }
    }
}

/// Length of a column value.
pub open spec fn col_len(c: ColV) -> nat {
    match c {
        ColV::Int64(s) => s.len(),
        ColV::Float64Bits(s) => s.len(),
        ColV::Utf8(s) => s.len(),
        ColV::Boolean(s) => s.len(),
    }
}

/// The logical type a column value carries.
pub open spec fn col_type(c: ColV) -> LogicalType {
    match c {
        ColV::Int64(_) => LogicalType::Int64,
        ColV::Float64Bits(_) => LogicalType::Float64,
        ColV::Utf8(_) => LogicalType::Utf8,
        ColV::Boolean(_) => LogicalType::Boolean,
    }
}

/// A columnar table: schema plus one column per field, all of one height.
pub struct Frame {
    pub fields: Vec<Field>,
    pub columns: Vec<ColumnData>,
    pub height: usize,
}

/// The mathematical value of a `Frame`.
pub struct FrameV {
    pub fields: Seq<FieldV>,
    pub cols: Seq<ColV>,
    pub height: nat,
}

impl View for Frame {
    type V = FrameV;

    open spec fn view(&self) -> FrameV {
        FrameV { fields: self.fields.deep_view(), cols: self.columns.deep_view(), height: self.height as nat }
    }
}

impl DeepView for Frame {
    type V = FrameV;

    open spec fn deep_view(&self) -> FrameV {
        self.view()
    }
}

impl DeepView for Field {
    type V = FieldV;

    open spec fn deep_view(&self) -> FieldV {
        self.view()
    }
}

impl DeepView for ColumnData {
    type V = ColV;

    open spec fn deep_view(&self) -> ColV {
        self.view()
    }
}

impl FrameV {
    /// Well-formedness: one column per field, each column of the frame's
    /// height and of its field's type.
    pub open spec fn wf(self) -> bool {
        &&& self.cols.len() == self.fields.len()
        &&& forall|i: int|
            0 <= i < self.fields.len() ==> col_type(#[trigger] self.cols[i]) == self.fields[i].dtype
                && col_len(self.cols[i]) == self.height
    }

    /// Two frames agree on their schema.
    pub open spec fn same_schema(self, other: FrameV) -> bool {
        self.fields == other.fields
    }
}

impl Frame {
    pub open spec fn wf(self) -> bool {
        self@.wf()
    }

    /// The empty frame: no columns, no rows.
    pub fn new_empty() -> (r: Frame)
        ensures
            r@.fields.len() == 0,
            r@.cols.len() == 0,
            r@.height == 0,
            r.wf(),
    {
        Frame { fields: Vec::new(), columns: Vec::new(), height: 0 }
    }

    pub fn height(&self) -> (r: usize)
        ensures
            r as nat == self@.height,
    {
        self.height
    }

    pub fn width(&self) -> (r: usize)
        ensures
            r as nat == self@.fields.len(),
    {
        self.fields.len()
    }

    pub fn schema(&self) -> (r: &Vec<Field>)
        ensures
            r.deep_view() == self@.fields,
    {
        &self.fields
    }

    /// Builds a frame after checking the invariants: as many columns as
    /// fields, every column of its field's type, all columns of one height.
    #[verifier::loop_isolation(false)]
    pub fn new(fields: Vec<Field>, columns: Vec<ColumnData>) -> (r: Result<Frame, ServiceError>)
        ensures
            match r {
                Ok(f) => {
                    &&& f@.fields == fields.deep_view()
                    &&& f@.cols == columns.deep_view()
                    &&& f.wf()
                },
                Err(e) => {
                    &&& e is Compute
                    &&& !frame_parts_ok(fields.deep_view(), columns.deep_view())
                },
            },
            frame_parts_ok(fields.deep_view(), columns.deep_view()) ==> r is Ok,
    {
        if columns.len() != fields.len() {
            return Err(ServiceError::Compute);
        }
        let height: usize = if columns.len() == 0 {
            0
        } else {
            columns[0].len()
        };
        let mut i: usize = 0;
        while i < fields.len()
            invariant
                fields.len() == columns.len(),
                0 <= i <= fields.len(),
                columns.len() > 0 ==> height as nat == col_len(columns.deep_view()[0]),
                columns.len() == 0 ==> height == 0,
                forall|j: int|
                    0 <= j < i ==> col_type(#[trigger] columns.deep_view()[j])
                        == fields.deep_view()[j].dtype
                        && col_len(columns.deep_view()[j]) == height as nat,
            decreases fields.len() - i,
        {
            if !columns[i].type_matches(fields[i].dtype) || columns[i].len() != height {
                proof {
                    if frame_parts_ok(fields.deep_view(), columns.deep_view()) {
                        assert(col_type(columns.deep_view()[i as int]) == fields.deep_view()[i
                            as int].dtype);
                        assert(col_len(columns.deep_view()[i as int]) == col_len(
                            columns.deep_view()[0],
                        ));
                    }
                }
                return Err(ServiceError::Compute);
            }
            i += 1;
        }
        Ok(Frame { fields, columns, height })
    }

    /// An estimate of the resident bytes of the frame's column buffers,
    /// saturating at the largest `u64`.
    #[verifier::loop_isolation(false)]
    pub fn estimated_bytes(&self) -> (r: u64)
        ensures
            est_total(self@.cols) <= u64::MAX ==> r as int == est_total(self@.cols),
            est_total(self@.cols) > u64::MAX ==> r == u64::MAX,
    {
        let mut acc: u64 = 0;
        let mut i: usize = 0;
        proof {
            lemma_est_total_prefix_bound(self@.cols, 0);
        }
        while i < self.columns.len()
            invariant
                0 <= i <= self@.cols.len(),
                est_prefix(self@.cols, i as int) <= u64::MAX ==> acc as int == est_prefix(
                    self@.cols,
                    i as int,
                ),
                est_prefix(self@.cols, i as int) > u64::MAX ==> acc == u64::MAX,
            decreases self.columns.len() - i,
        {
            let b = self.columns[i].estimated_bytes();
            acc = if acc <= u64::MAX - b {
                acc + b
            } else {
                u64::MAX
            };
            proof {
                lemma_est_prefix_step(self@.cols, i as int);
            }
            i += 1;
        }
        proof {
            assert(est_prefix(self@.cols, self@.cols.len() as int) == est_total(self@.cols));
        }
        acc
    }

    /// Looks a column up by its field name; the first match wins.
    #[verifier::loop_isolation(false)]
    pub fn column(&self, name: &String) -> (r: Option<&ColumnData>)
        requires
            self.wf(),
        ensures
            ({
                let m = first_match_from(self@.fields, name@, 0);
                match r {
                    Some(c) => 0 <= m < self@.cols.len() && c@ == self@.cols[m]
                        && self@.fields[m].name == name@,
                    None => m == -1,
                }
            }),
    {
        let mut i: usize = 0;
        while i < self.fields.len()
            invariant
                self.wf(),
                0 <= i <= self.fields.len(),
                first_match_from(self@.fields, name@, 0) == first_match_from(
                    self@.fields,
                    name@,
                    i as int,
                ),
            decreases self.fields.len() - i,
        {
            if self.fields[i].name == *name {
                return Some(&self.columns[i]);
            }
            i += 1;
        }
        None
    }
}

/// Whether fields and columns can form a well-formed frame.
pub open spec fn frame_parts_ok(fields: Seq<FieldV>, cols: Seq<ColV>) -> bool {
    &&& cols.len() == fields.len()
    &&& forall|i: int|
        0 <= i < fields.len() ==> col_type(#[trigger] cols[i]) == fields[i].dtype && col_len(
            cols[i],
        ) == if cols.len() == 0 {
            0
        } else {
            col_len(cols[0])
        }
}

/// The least index at or after `from` whose field carries `name`,
/// or -1 when no field does.
pub open spec fn first_match_from(fields: Seq<FieldV>, name: Seq<char>, from: int) -> int
    decreases fields.len() - from,
{
    if from < 0 || from >= fields.len() {
        -1
    } else if fields[from].name == name {
        from
    } else {
        first_match_from(fields, name, from + 1)
    }
}

/// Estimated bytes of one column: eight per numeric cell, one per boolean,
/// and four per character plus eight per entry for strings.
pub open spec fn est_col(c: ColV) -> int {
    match c {
        ColV::Int64(s) => 8 * s.len() as int,
        ColV::Float64Bits(s) => 8 * s.len() as int,
        ColV::Boolean(s) => 1 * s.len() as int,
        ColV::Utf8(s) => est_strs(s),
    }
}

pub open spec fn est_strs(s: Seq<Seq<char>>) -> int
    decreases s.len(),
{
    if s.len() == 0 {
        0
    } else {
        est_strs(s.drop_last()) + 8 + 4 * s.last().len() as int
    }
}

pub open spec fn est_prefix(cols: Seq<ColV>, n: int) -> int
    decreases n,
{
    if n <= 0 {
        0
    } else {
        est_prefix(cols, n - 1) + est_col(cols[n - 1])
    }
}

pub open spec fn est_total(cols: Seq<ColV>) -> int {
    est_prefix(cols, cols.len() as int)
}

proof fn lemma_est_prefix_step(cols: Seq<ColV>, i: int)
    requires
        0 <= i < cols.len(),
    ensures
        est_prefix(cols, i + 1) == est_prefix(cols, i) + est_col(cols[i]),
{
}

proof fn lemma_est_col_nonneg(c: ColV)
    ensures
        est_col(c) >= 0,
{
    match c {
        ColV::Utf8(s) => lemma_est_strs_nonneg(s),
        _ => {},
    }
}

proof fn lemma_est_strs_nonneg(s: Seq<Seq<char>>)
    ensures
        est_strs(s) >= 0,
    decreases s.len(),
{
    if s.len() > 0 {
        lemma_est_strs_nonneg(s.drop_last());
    }
}

proof fn lemma_est_total_prefix_bound(cols: Seq<ColV>, n: int)
    ensures
        est_prefix(cols, n) >= 0,
    decreases n,
{
    if n > 0 {
        lemma_est_total_prefix_bound(cols, n - 1);
        lemma_est_col_nonneg(cols[n - 1]);
    }
}

/// A frame's estimated byte count is never negative.
pub proof fn lemma_est_total_nonneg(cols: Seq<ColV>)
    ensures
        est_total(cols) >= 0,
{
    lemma_est_total_prefix_bound(cols, cols.len() as int);
}

impl ColumnData {
    /// Number of cells the column holds.
    pub fn len(&self) -> (r: usize)
        ensures
            r as nat == col_len(self@),
    {
        match self {
            ColumnData::Int64(v) => v.len(),
            ColumnData::Float64Bits(v) => v.len(),
            ColumnData::Utf8(v) => v.len(),
            ColumnData::Boolean(v) => v.len(),
        }
    }

    /// Whether the column carries values of the given logical type.
    pub fn type_matches(&self, t: LogicalType) -> (r: bool)
        ensures
            r == (col_type(self@) == t),
    {
        match self {
            ColumnData::Int64(_) => matches!(t, LogicalType::Int64),
            ColumnData::Float64Bits(_) => matches!(t, LogicalType::Float64),
            ColumnData::Utf8(_) => matches!(t, LogicalType::Utf8),
            ColumnData::Boolean(_) => matches!(t, LogicalType::Boolean),
        }
    }

    /// Estimated buffer bytes, saturating at the largest `u64`.
    #[verifier::loop_isolation(false)]
    pub fn estimated_bytes(&self) -> (r: u64)
        ensures
            est_col(self@) <= u64::MAX ==> r as int == est_col(self@),
            est_col(self@) > u64::MAX ==> r == u64::MAX,
    {
        match self {
            ColumnData::Int64(v) => {
                if v.len() as u64 <= u64::MAX / 8 {
                    8 * (v.len() as u64)
                } else {
                    u64::MAX
                }
            },
            ColumnData::Float64Bits(v) => {
                if v.len() as u64 <= u64::MAX / 8 {
                    8 * (v.len() as u64)
                } else {
                    u64::MAX
                }
            },
            ColumnData::Boolean(v) => v.len() as u64,
            ColumnData::Utf8(v) => {
                let mut acc: u64 = 0;
                let mut i: usize = 0;
                while i < v.len()
                    invariant
                        0 <= i <= v.len(),
                        est_strs(v.deep_view().take(i as int)) <= u64::MAX ==> acc as int
                            == est_strs(v.deep_view().take(i as int)),
                        est_strs(v.deep_view().take(i as int)) > u64::MAX ==> acc == u64::MAX,
                    decreases v.len() - i,
                {
                    proof {
                        lemma_est_strs_nonneg(v.deep_view().take(i as int));
                        assert(v.deep_view().take(i as int + 1).drop_last() =~= v.deep_view().take(
                            i as int,
                        ));
                        assert(v.deep_view().take(i as int + 1).last() == v.deep_view()[i as int]);
                    }
                    let entry: u64 = {
                        let cl = v[i].as_str().unicode_len();
                        if cl as u64 <= (u64::MAX - 8) / 4 {
                            8 + 4 * (cl as u64)
                        } else {
                            u64::MAX
                        }
                    };
                    acc = if acc <= u64::MAX - entry {
                        acc + entry
                    } else {
                        u64::MAX
                    };
                    i += 1;
                }
                proof {
                    assert(v.deep_view().take(v.len() as int) =~= v.deep_view());
                }
                acc
            },
        }
    }
}

/// `s` restricted to the positions where `m` is true.
pub open spec fn seq_keep<T>(s: Seq<T>, m: Seq<bool>) -> Seq<T>
    decreases s.len(),
{
    if s.len() == 0 {
        Seq::empty()
    } else if m.len() >= s.len() && m[s.len() - 1] {
        seq_keep(s.drop_last(), m).push(s.last())
    } else {
        seq_keep(s.drop_last(), m)
    }
}

/// How many entries of `m` are true.
pub open spec fn count_trues(m: Seq<bool>) -> nat
    decreases m.len(),
{
    if m.len() == 0 {
        0
    } else {
        count_trues(m.drop_last()) + if m.last() {
            1nat
        } else {
            0nat
        }
    }
}

/// A subrange of one column.
pub open spec fn col_subrange(c: ColV, start: int, end: int) -> ColV {
    match c {
        ColV::Int64(s) => ColV::Int64(s.subrange(start, end)),
        ColV::Float64Bits(s) => ColV::Float64Bits(s.subrange(start, end)),
        ColV::Utf8(s) => ColV::Utf8(s.subrange(start, end)),
        ColV::Boolean(s) => ColV::Boolean(s.subrange(start, end)),
    }
}

/// Adjacent subranges of one column stack back into the wider subrange.
pub proof fn lemma_col_subrange_join(c: ColV, a: int, b: int, d: int)
    requires
        0 <= a <= b <= d <= col_len(c),
    ensures
        col_append(col_subrange(c, a, b), col_subrange(c, b, d)) == col_subrange(c, a, d),
{
    match c {
        ColV::Int64(s) => {
            assert(s.subrange(a, b) + s.subrange(b, d) =~= s.subrange(a, d));
        },
        ColV::Float64Bits(s) => {
            assert(s.subrange(a, b) + s.subrange(b, d) =~= s.subrange(a, d));
        },
        ColV::Utf8(s) => {
            assert(s.subrange(a, b) + s.subrange(b, d) =~= s.subrange(a, d));
        },
        ColV::Boolean(s) => {
            assert(s.subrange(a, b) + s.subrange(b, d) =~= s.subrange(a, d));
        },
    }
}

/// The subrange over a column's whole length is the column.
pub proof fn lemma_col_subrange_full(c: ColV)
    ensures
        col_subrange(c, 0, col_len(c) as int) == c,
{
    match c {
        ColV::Int64(s) => {
            assert(s.subrange(0, s.len() as int) =~= s);
        },
        ColV::Float64Bits(s) => {
            assert(s.subrange(0, s.len() as int) =~= s);
        },
        ColV::Utf8(s) => {
            assert(s.subrange(0, s.len() as int) =~= s);
        },
        ColV::Boolean(s) => {
            assert(s.subrange(0, s.len() as int) =~= s);
        },
    }
}

/// Two columns of one type, stacked.
pub open spec fn col_append(a: ColV, b: ColV) -> ColV {
    match (a, b) {
        (ColV::Int64(x), ColV::Int64(y)) => ColV::Int64(x + y),
        (ColV::Float64Bits(x), ColV::Float64Bits(y)) => ColV::Float64Bits(x + y),
        (ColV::Utf8(x), ColV::Utf8(y)) => ColV::Utf8(x + y),
        (ColV::Boolean(x), ColV::Boolean(y)) => ColV::Boolean(x + y),
        _ => a,
    }
}

/// One column restricted to the rows where the mask is true.
pub open spec fn col_keep(c: ColV, m: Seq<bool>) -> ColV {
    match c {
        ColV::Int64(s) => ColV::Int64(seq_keep(s, m)),
        ColV::Float64Bits(s) => ColV::Float64Bits(seq_keep(s, m)),
        ColV::Utf8(s) => ColV::Utf8(seq_keep(s, m)),
        ColV::Boolean(s) => ColV::Boolean(seq_keep(s, m)),
    }
}

/// The length of a filtered sequence is the number of true mask entries.
pub proof fn lemma_seq_keep_len<T>(s: Seq<T>, m: Seq<bool>)
    requires
        s.len() == m.len(),
    ensures
        seq_keep(s, m).len() == count_trues(m),
    decreases s.len(),
{
    if s.len() > 0 {
        lemma_seq_keep_len(s.drop_last(), m.drop_last());
        assert(seq_keep(s.drop_last(), m.drop_last()) == seq_keep(s.drop_last(), m)) by {
            lemma_seq_keep_take(s.drop_last(), m, m.len() - 1);
            assert(m.take(m.len() - 1) =~= m.drop_last());
        }
    }
}

proof fn lemma_seq_keep_take<T>(s: Seq<T>, m: Seq<bool>, n: int)
    requires
        s.len() <= n <= m.len(),
    ensures
        seq_keep(s, m.take(n)) == seq_keep(s, m),
    decreases s.len(),
{
    if s.len() > 0 {
        lemma_seq_keep_take(s.drop_last(), m, n);
        assert(seq_keep(s, m.take(n)) =~= seq_keep(s, m));
    }
}

impl ColumnData {
    /// Copies the rows in `[start, end)`.
    #[verifier::loop_isolation(false)]
    pub fn slice_rows(&self, start: usize, end: usize) -> (r: ColumnData)
        requires
            start <= end,
            end as nat <= col_len(self@),
        ensures
            r@ == col_subrange(self@, start as int, end as int),
    {
        match self {
            ColumnData::Int64(v) => {
                let mut out: Vec<i64> = Vec::new();
                let mut j: usize = start;
                while j < end
                    invariant
                        start <= j <= end,
                        end <= v.len(),
                        out@ =~= v@.subrange(start as int, j as int),
                    decreases end - j,
                {
                    out.push(v[j]);
                    assert(out@ =~= v@.subrange(start as int, j + 1));
                    j += 1;
                }
                assert(out@ =~= v@.subrange(start as int, end as int));
                ColumnData::Int64(out)
            },
            ColumnData::Float64Bits(v) => {
                let mut out: Vec<u64> = Vec::new();
                let mut j: usize = start;
                while j < end
                    invariant
                        start <= j <= end,
                        end <= v.len(),
                        out@ =~= v@.subrange(start as int, j as int),
                    decreases end - j,
                {
                    out.push(v[j]);
                    assert(out@ =~= v@.subrange(start as int, j + 1));
                    j += 1;
                }
                assert(out@ =~= v@.subrange(start as int, end as int));
                ColumnData::Float64Bits(out)
            },
            ColumnData::Utf8(v) => {
                let mut out: Vec<String> = Vec::new();
                let mut j: usize = start;
                while j < end
                    invariant
                        start <= j <= end,
                        end <= v.len(),
                        out.deep_view() =~= v.deep_view().subrange(start as int, j as int),
                    decreases end - j,
                {
                    out.push(v[j].clone());
                    assert(out.deep_view() =~= v.deep_view().subrange(start as int, j + 1));
                    j += 1;
                }
                assert(out.deep_view() =~= v.deep_view().subrange(start as int, end as int));
                ColumnData::Utf8(out)
            },
            ColumnData::Boolean(v) => {
                let mut out: Vec<bool> = Vec::new();
                let mut j: usize = start;
                while j < end
                    invariant
                        start <= j <= end,
                        end <= v.len(),
                        out@ =~= v@.subrange(start as int, j as int),
                    decreases end - j,
                {
                    out.push(v[j]);
                    assert(out@ =~= v@.subrange(start as int, j + 1));
                    j += 1;
                }
                assert(out@ =~= v@.subrange(start as int, end as int));
                ColumnData::Boolean(out)
            },
        }
    }

    /// An exact copy of the column.
    pub fn duplicate(&self) -> (r: ColumnData)
        ensures
            r@ == self@,
    {
        let n = self.len();
        let r = self.slice_rows(0, n);
        proof {
            match self@ {
                ColV::Int64(s) => assert(s.subrange(0, s.len() as int) =~= s),
                ColV::Float64Bits(s) => assert(s.subrange(0, s.len() as int) =~= s),
                ColV::Utf8(s) => assert(s.subrange(0, s.len() as int) =~= s),
                ColV::Boolean(s) => assert(s.subrange(0, s.len() as int) =~= s),
            }
        }
        r
    }

    /// Appends a column of the same type.
    #[verifier::loop_isolation(false)]
    pub fn append_rows(&self, other: &ColumnData) -> (r: Result<ColumnData, ServiceError>)
        ensures
            col_type(self@) == col_type(other@) ==> r is Ok,
            match r {
                Ok(c) => col_type(self@) == col_type(other@) && c@ == col_append(self@, other@),
                Err(e) => e is SchemaMismatch && col_type(self@) != col_type(other@),
            },
    {
        match (self, other) {
            (ColumnData::Int64(a), ColumnData::Int64(b)) => {
                let mut out: Vec<i64> = Vec::new();
                let mut j: usize = 0;
                while j < a.len()
                    invariant
                        0 <= j <= a.len(),
                        out@ =~= a@.take(j as int),
                    decreases a.len() - j,
                {
                    out.push(a[j]);
                    assert(out@ =~= a@.take(j + 1));
                    j += 1;
                }
                assert(out@ =~= a@);
                let mut k: usize = 0;
                while k < b.len()
                    invariant
                        0 <= k <= b.len(),
                        out@ =~= a@ + b@.take(k as int),
                    decreases b.len() - k,
                {
                    out.push(b[k]);
                    assert(out@ =~= a@ + b@.take(k + 1));
                    k += 1;
                }
                assert(out@ =~= a@ + b@);
                Ok(ColumnData::Int64(out))
            },
            (ColumnData::Float64Bits(a), ColumnData::Float64Bits(b)) => {
                let mut out: Vec<u64> = Vec::new();
                let mut j: usize = 0;
                while j < a.len()
                    invariant
                        0 <= j <= a.len(),
                        out@ =~= a@.take(j as int),
                    decreases a.len() - j,
                {
                    out.push(a[j]);
                    assert(out@ =~= a@.take(j + 1));
                    j += 1;
                }
                assert(out@ =~= a@);
                let mut k: usize = 0;
                while k < b.len()
                    invariant
                        0 <= k <= b.len(),
                        out@ =~= a@ + b@.take(k as int),
                    decreases b.len() - k,
                {
                    out.push(b[k]);
                    assert(out@ =~= a@ + b@.take(k + 1));
                    k += 1;
                }
                assert(out@ =~= a@ + b@);
                Ok(ColumnData::Float64Bits(out))
            },
            (ColumnData::Utf8(a), ColumnData::Utf8(b)) => {
                let mut out: Vec<String> = Vec::new();
                let mut j: usize = 0;
                while j < a.len()
                    invariant
                        0 <= j <= a.len(),
                        out@ =~= a@.take(j as int),
                        out.deep_view() =~= a.deep_view().take(j as int),
                    decreases a.len() - j,
                {
                    out.push(a[j].clone());
                    assert(out@ =~= a@.take(j + 1));
                    assert(out.deep_view() =~= a.deep_view().take(j + 1));
                    j += 1;
                }
                assert(out.deep_view() =~= a.deep_view());
                let mut k: usize = 0;
                while k < b.len()
                    invariant
                        0 <= k <= b.len(),
                        out@ =~= a@ + b@.take(k as int),
                        out.deep_view() =~= a.deep_view() + b.deep_view().take(k as int),
                    decreases b.len() - k,
                {
                    out.push(b[k].clone());
                    assert(out@ =~= a@ + b@.take(k + 1));
                    assert(out.deep_view() =~= a.deep_view() + b.deep_view().take(k + 1));
                    k += 1;
                }
                assert(out.deep_view() =~= a.deep_view() + b.deep_view());
                Ok(ColumnData::Utf8(out))
            },
            (ColumnData::Boolean(a), ColumnData::Boolean(b)) => {
                let mut out: Vec<bool> = Vec::new();
                let mut j: usize = 0;
                while j < a.len()
                    invariant
                        0 <= j <= a.len(),
                        out@ =~= a@.take(j as int),
                    decreases a.len() - j,
                {
                    out.push(a[j]);
                    assert(out@ =~= a@.take(j + 1));
                    j += 1;
                }
                assert(out@ =~= a@);
                let mut k: usize = 0;
                while k < b.len()
                    invariant
                        0 <= k <= b.len(),
                        out@ =~= a@ + b@.take(k as int),
                    decreases b.len() - k,
                {
                    out.push(b[k]);
                    assert(out@ =~= a@ + b@.take(k + 1));
                    k += 1;
                }
                assert(out@ =~= a@ + b@);
                Ok(ColumnData::Boolean(out))
            },
            _ => Err(ServiceError::SchemaMismatch),
        }
    }

    /// Keeps the rows where the mask is true.
    #[verifier::loop_isolation(false)]
    pub fn filter_rows(&self, mask: &Vec<bool>) -> (r: ColumnData)
        requires
            mask@.len() == col_len(self@),
        ensures
            r@ == col_keep(self@, mask@),
    {
        match self {
            ColumnData::Int64(v) => {
                let mut out: Vec<i64> = Vec::new();
                let mut j: usize = 0;
                while j < v.len()
                    invariant
                        0 <= j <= v.len(),
                        mask@.len() == v@.len(),
                        out@ =~= seq_keep(v@.take(j as int), mask@),
                    decreases v.len() - j,
                {
                    proof {
                        assert(v@.take(j + 1).drop_last() =~= v@.take(j as int));
                    }
                    if mask[j] {
                        out.push(v[j]);
                    }
                    j += 1;
                }
                assert(v@.take(v@.len() as int) =~= v@);
                ColumnData::Int64(out)
            },
            ColumnData::Float64Bits(v) => {
                let mut out: Vec<u64> = Vec::new();
                let mut j: usize = 0;
                while j < v.len()
                    invariant
                        0 <= j <= v.len(),
                        mask@.len() == v@.len(),
                        out@ =~= seq_keep(v@.take(j as int), mask@),
                    decreases v.len() - j,
                {
                    proof {
                        assert(v@.take(j + 1).drop_last() =~= v@.take(j as int));
                    }
                    if mask[j] {
                        out.push(v[j]);
                    }
                    j += 1;
                }
                assert(v@.take(v@.len() as int) =~= v@);
                ColumnData::Float64Bits(out)
            },
            ColumnData::Utf8(v) => {
                let mut out: Vec<String> = Vec::new();
                let mut j: usize = 0;
                while j < v.len()
                    invariant
                        0 <= j <= v.len(),
                        mask@.len() == v.deep_view().len(),
                        out.deep_view() =~= seq_keep(v.deep_view().take(j as int), mask@),
                    decreases v.len() - j,
                {
                    proof {
                        assert(v.deep_view().take(j + 1).drop_last() =~= v.deep_view().take(
                            j as int,
                        ));
                    }
                    if mask[j] {
                        out.push(v[j].clone());
                    }
                    j += 1;
                }
                assert(v.deep_view().take(v.deep_view().len() as int) =~= v.deep_view());
                ColumnData::Utf8(out)
            },
            ColumnData::Boolean(v) => {
                let mut out: Vec<bool> = Vec::new();
                let mut j: usize = 0;
                while j < v.len()
                    invariant
                        0 <= j <= v.len(),
                        mask@.len() == v@.len(),
                        out@ =~= seq_keep(v@.take(j as int), mask@),
                    decreases v.len() - j,
                {
                    proof {
                        assert(v@.take(j + 1).drop_last() =~= v@.take(j as int));
                    }
                    if mask[j] {
                        out.push(v[j]);
                    }
                    j += 1;
                }
                assert(v@.take(v@.len() as int) =~= v@);
                ColumnData::Boolean(out)
            },
        }
    }

    /// Value-level equality of two columns.
    #[verifier::loop_isolation(false)]
    pub fn same_values(&self, other: &ColumnData) -> (r: bool)
        ensures
            r == (self@ == other@),
    {
        match (self, other) {
            (ColumnData::Int64(a), ColumnData::Int64(b)) => {
                if a.len() != b.len() {
                    return false;
                }
                let mut j: usize = 0;
                while j < a.len()
                    invariant
                        0 <= j <= a.len(),
                        a@.len() == b@.len(),
                        forall|t: int| 0 <= t < j ==> a@[t] == b@[t],
                    decreases a.len() - j,
                {
                    if a[j] != b[j] {
                        return false;
                    }
                    j += 1;
                }
                proof {
                    assert(a@ =~= b@);
                }
                true
            },
            (ColumnData::Float64Bits(a), ColumnData::Float64Bits(b)) => {
                if a.len() != b.len() {
                    return false;
                }
                let mut j: usize = 0;
                while j < a.len()
                    invariant
                        0 <= j <= a.len(),
                        a@.len() == b@.len(),
                        forall|t: int| 0 <= t < j ==> a@[t] == b@[t],
                    decreases a.len() - j,
                {
                    if a[j] != b[j] {
                        return false;
                    }
                    j += 1;
                }
                proof {
                    assert(a@ =~= b@);
                }
                true
            },
            (ColumnData::Utf8(a), ColumnData::Utf8(b)) => {
                if a.len() != b.len() {
                    proof {
                        assert(a.deep_view().len() == a@.len());
                        assert(b.deep_view().len() == b@.len());
                    }
                    return false;
                }
                let mut j: usize = 0;
                while j < a.len()
                    invariant
                        0 <= j <= a.len(),
                        a.deep_view().len() == b.deep_view().len(),
                        forall|t: int| 0 <= t < j ==> a.deep_view()[t] == b.deep_view()[t],
                    decreases a.len() - j,
                {
                    if a[j] != b[j] {
                        proof {
                            assert(a.deep_view()[j as int] == a@[j as int]@);
                            assert(b.deep_view()[j as int] == b@[j as int]@);
                            assert(a.deep_view() != b.deep_view());
                        }
                        return false;
                    }
                    j += 1;
                }
                proof {
                    assert(a.deep_view() =~= b.deep_view());
                }
                true
            },
            (ColumnData::Boolean(a), ColumnData::Boolean(b)) => {
                if a.len() != b.len() {
                    return false;
                }
                let mut j: usize = 0;
                while j < a.len()
                    invariant
                        0 <= j <= a.len(),
                        a@.len() == b@.len(),
                        forall|t: int| 0 <= t < j ==> a@[t] == b@[t],
                    decreases a.len() - j,
                {
                    if a[j] != b[j] {
                        return false;
                    }
                    j += 1;
                }
                proof {
                    assert(a@ =~= b@);
                }
                true
            },
            _ => false,
        }
    }
}

/// Sum of the heights of the first `n` frames.
pub open spec fn sum_heights(s: Seq<FrameV>, n: int) -> int
    decreases n,
{
    if n <= 0 {
        0
    } else {
        sum_heights(s, n - 1) + s[n - 1].height
    }
}

pub proof fn lemma_sum_heights_mono(s: Seq<FrameV>, a: int, b: int)
    requires
        0 <= a <= b,
    ensures
        sum_heights(s, a) <= sum_heights(s, b),
    decreases b - a,
{
    if a < b {
        lemma_sum_heights_mono(s, a, b - 1);
    }
}

/// Length of a filtered column is the count of true mask entries.
pub proof fn lemma_col_keep_len(c: ColV, m: Seq<bool>)
    requires
        m.len() == col_len(c),
    ensures
        col_len(col_keep(c, m)) == count_trues(m),
{
    match c {
        ColV::Int64(s) => lemma_seq_keep_len(s, m),
        ColV::Float64Bits(s) => lemma_seq_keep_len(s, m),
        ColV::Utf8(s) => lemma_seq_keep_len(s, m),
        ColV::Boolean(s) => lemma_seq_keep_len(s, m),
    }
}

impl Field {
    /// An exact copy of the field.
    pub fn duplicate(&self) -> (r: Field)
        ensures
            r@ == self@,
    {
        Field { name: self.name.clone(), dtype: self.dtype, nullable: self.nullable }
    }
}

/// Whether two schemas are the same fields in the same order.
#[verifier::loop_isolation(false)]
pub fn schema_equal(a: &Vec<Field>, b: &Vec<Field>) -> (r: bool)
    ensures
        r == (a.deep_view() == b.deep_view()),
{
    if a.len() != b.len() {
        proof {
            assert(a.deep_view().len() == a@.len());
            assert(b.deep_view().len() == b@.len());
        }
        return false;
    }
    let mut i: usize = 0;
    while i < a.len()
        invariant
            0 <= i <= a.len(),
            a@.len() == b@.len(),
            forall|t: int| 0 <= t < i ==> a.deep_view()[t] == b.deep_view()[t],
        decreases a.len() - i,
    {
        let fa = &a[i];
        let fb = &b[i];
        if !(fa.name == fb.name) || !(matches!((fa.dtype, fb.dtype),
            (LogicalType::Int64, LogicalType::Int64)
            | (LogicalType::Float64, LogicalType::Float64)
            | (LogicalType::Utf8, LogicalType::Utf8)
            | (LogicalType::Boolean, LogicalType::Boolean))) || fa.nullable != fb.nullable {
            proof {
                assert(a.deep_view()[i as int] == a@[i as int]@);
                assert(b.deep_view()[i as int] == b@[i as int]@);
                assert(a.deep_view()[i as int] != b.deep_view()[i as int]);
            }
            return false;
        }
        proof {
            assert(a.deep_view()[i as int] == a@[i as int]@);
            assert(b.deep_view()[i as int] == b@[i as int]@);
            assert(a.deep_view()[i as int] == b.deep_view()[i as int]);
        }
        i += 1;
    }
    proof {
        assert(a.deep_view() =~= b.deep_view());
    }
    true
}

impl Frame {
    /// An exact copy of the frame.
    #[verifier::loop_isolation(false)]
    pub fn duplicate(&self) -> (r: Frame)
        ensures
            r@ == self@,
    {
        let mut fields: Vec<Field> = Vec::new();
        let mut i: usize = 0;
        while i < self.fields.len()
            invariant
                0 <= i <= self.fields.len(),
                fields.deep_view() =~= self.fields.deep_view().take(i as int),
            decreases self.fields.len() - i,
        {
            fields.push(self.fields[i].duplicate());
            assert(fields.deep_view() =~= self.fields.deep_view().take(i + 1));
            i += 1;
        }
        assert(fields.deep_view() =~= self.fields.deep_view());
        let mut columns: Vec<ColumnData> = Vec::new();
        let mut j: usize = 0;
        while j < self.columns.len()
            invariant
                0 <= j <= self.columns.len(),
                columns.deep_view() =~= self.columns.deep_view().take(j as int),
            decreases self.columns.len() - j,
        {
            columns.push(self.columns[j].duplicate());
            assert(columns.deep_view() =~= self.columns.deep_view().take(j + 1));
            j += 1;
        }
        assert(columns.deep_view() =~= self.columns.deep_view());
        Frame { fields, columns, height: self.height }
    }

    /// The rows in `[offset, offset + len)`, clamped to the frame's height.
    #[verifier::loop_isolation(false)]
    pub fn slice(&self, offset: usize, len: usize) -> (r: Frame)
        requires
            self.wf(),
        ensures
            ({
                let start = if offset as int > self@.height {
                    self@.height as int
                } else {
                    offset as int
                };
                let end = if offset + len > self@.height {
                    self@.height as int
                } else {
                    offset + len
                };
                &&& r@.fields == self@.fields
                &&& r@.height == end - start
                &&& r@.cols.len() == self@.cols.len()
                &&& forall|i: int|
                    0 <= i < self@.cols.len() ==> r@.cols[i] == col_subrange(
                        #[trigger] self@.cols[i],
                        start,
                        end,
                    )
                &&& r.wf()
            }),
    {
        let start: usize = if offset > self.height {
            self.height
        } else {
            offset
        };
        let rem: usize = self.height - start;
        let take: usize = if len > rem {
            rem
        } else {
            len
        };
        let end: usize = start + take;
        let mut fields: Vec<Field> = Vec::new();
        let mut i: usize = 0;
        while i < self.fields.len()
            invariant
                0 <= i <= self.fields.len(),
                fields.deep_view() =~= self.fields.deep_view().take(i as int),
            decreases self.fields.len() - i,
        {
            fields.push(self.fields[i].duplicate());
            assert(fields.deep_view() =~= self.fields.deep_view().take(i + 1));
            i += 1;
        }
        assert(fields.deep_view() =~= self.fields.deep_view());
        let mut columns: Vec<ColumnData> = Vec::new();
        let mut j: usize = 0;
        while j < self.columns.len()
            invariant
                0 <= j <= self.columns.len(),
                start <= end <= self@.height,
                columns@.len() == j as int,
                forall|t: int|
                    0 <= t < j ==> columns.deep_view()[t] == col_subrange(
                        #[trigger] self.columns.deep_view()[t],
                        start as int,
                        end as int,
                    ),
            decreases self.columns.len() - j,
        {
            proof {
                assert(col_len(self@.cols[j as int]) == self@.height);
            }
            columns.push(self.columns[j].slice_rows(start, end));
            j += 1;
        }
        let f = Frame { fields, columns, height: end - start };
        proof {
            assert forall|i2: int| 0 <= i2 < f@.fields.len() implies col_type(
                #[trigger] f@.cols[i2],
            ) == f@.fields[i2].dtype && col_len(f@.cols[i2]) == f@.height by {
                assert(f@.cols[i2] == col_subrange(self@.cols[i2], start as int, end as int));
                assert(col_type(self@.cols[i2]) == self@.fields[i2].dtype);
                assert(col_len(self@.cols[i2]) == self@.height);
            }
        }
        f
    }

    /// Stacks `other` below `self`; the schemas must agree and the summed
    /// height must fit the machine.
    #[verifier::loop_isolation(false)]
    pub fn vstack(&self, other: &Frame) -> (r: Result<Frame, ServiceError>)
        requires
            self.wf(),
            other.wf(),
        ensures
            match r {
                Ok(f) => {
                    &&& self@.fields == other@.fields
                    &&& f@.fields == self@.fields
                    &&& f@.height == self@.height + other@.height
                    &&& f@.cols.len() == self@.cols.len()
                    &&& forall|i: int|
                        0 <= i < self@.cols.len() ==> f@.cols[i] == col_append(
                            #[trigger] self@.cols[i],
                            other@.cols[i],
                        )
                    &&& f.wf()
                },
                Err(e) => {
                    ||| (e is SchemaMismatch && self@.fields != other@.fields)
                    ||| (e is MemoryLimit && self@.height + other@.height > usize::MAX)
                },
            },
            self@.fields == other@.fields && self@.height + other@.height <= usize::MAX ==> r is Ok,
    {
        if !schema_equal(&self.fields, &other.fields) {
            return Err(ServiceError::SchemaMismatch);
        }
        if other.height > usize::MAX - self.height {
            return Err(ServiceError::MemoryLimit);
        }
        let mut fields: Vec<Field> = Vec::new();
        let mut i: usize = 0;
        while i < self.fields.len()
            invariant
                0 <= i <= self.fields.len(),
                fields.deep_view() =~= self.fields.deep_view().take(i as int),
            decreases self.fields.len() - i,
        {
            fields.push(self.fields[i].duplicate());
            assert(fields.deep_view() =~= self.fields.deep_view().take(i + 1));
            i += 1;
        }
        assert(fields.deep_view() =~= self.fields.deep_view());
        let mut columns: Vec<ColumnData> = Vec::new();
        let mut j: usize = 0;
        while j < self.columns.len()
            invariant
                0 <= j <= self.columns.len(),
                columns@.len() == j as int,
                forall|t: int|
                    0 <= t < j ==> columns.deep_view()[t] == col_append(
                        #[trigger] self.columns.deep_view()[t],
                        other.columns.deep_view()[t],
                    ),
            decreases self.columns.len() - j,
        {
            match self.columns[j].append_rows(&other.columns[j]) {
                Ok(c) => {
                    columns.push(c);
                },
                Err(_) => {
                    proof {
                        assert(col_type(self@.cols[j as int]) == self@.fields[j as int].dtype);
                        assert(col_type(other@.cols[j as int]) == other@.fields[j as int].dtype);
                        assert(false);
                    }
                    return Err(ServiceError::SchemaMismatch);
                },
            }
            j += 1;
        }
        let f = Frame { fields, columns, height: self.height + other.height };
        proof {
            assert forall|i2: int| 0 <= i2 < f@.fields.len() implies col_type(
                #[trigger] f@.cols[i2],
            ) == f@.fields[i2].dtype && col_len(f@.cols[i2]) == f@.height by {
                assert(f@.cols[i2] == col_append(self@.cols[i2], other@.cols[i2]));
                assert(col_type(self@.cols[i2]) == self@.fields[i2].dtype);
                assert(col_len(self@.cols[i2]) == self@.height);
                assert(col_len(other@.cols[i2]) == other@.height);
            }
        }
        Ok(f)
    }

    /// Keeps the rows where the mask is true; the mask must be as long as
    /// the frame is high.
    #[verifier::loop_isolation(false)]
    pub fn filter_mask(&self, mask: &Vec<bool>) -> (r: Result<Frame, ServiceError>)
        requires
            self.wf(),
        ensures
            match r {
                Ok(f) => {
                    &&& mask@.len() == self@.height
                    &&& f@.fields == self@.fields
                    &&& f@.height == count_trues(mask@)
                    &&& f@.cols.len() == self@.cols.len()
                    &&& forall|i: int|
                        0 <= i < self@.cols.len() ==> f@.cols[i] == col_keep(
                            #[trigger] self@.cols[i],
                            mask@,
                        )
                    &&& f.wf()
                },
                Err(e) => e is Compute && mask@.len() != self@.height,
            },
            mask@.len() == self@.height ==> r is Ok,
    {
        if mask.len() != self.height {
            return Err(ServiceError::Compute);
        }
        proof {
            lemma_count_trues_le(mask@);
        }
        let mut fields: Vec<Field> = Vec::new();
        let mut i: usize = 0;
        while i < self.fields.len()
            invariant
                0 <= i <= self.fields.len(),
                fields.deep_view() =~= self.fields.deep_view().take(i as int),
            decreases self.fields.len() - i,
        {
            fields.push(self.fields[i].duplicate());
            assert(fields.deep_view() =~= self.fields.deep_view().take(i + 1));
            i += 1;
        }
        assert(fields.deep_view() =~= self.fields.deep_view());
        let mut columns: Vec<ColumnData> = Vec::new();
        let mut j: usize = 0;
        let mut kept: usize = 0;
        let mut started: bool = false;
        while j < self.columns.len()
            invariant
                0 <= j <= self.columns.len(),
                columns@.len() == j as int,
                forall|t: int|
                    0 <= t < j ==> columns.deep_view()[t] == col_keep(
                        #[trigger] self.columns.deep_view()[t],
                        mask@,
                    ),
            decreases self.columns.len() - j,
        {
            let c = self.columns[j].filter_rows(mask);
            proof {
                lemma_col_keep_len(self@.cols[j as int], mask@);
            }
            columns.push(c);
            j += 1;
        }
        let height = count_trues_exec(mask);
        let f = Frame { fields, columns, height };
        proof {
            assert forall|i2: int| 0 <= i2 < f@.fields.len() implies col_type(
                #[trigger] f@.cols[i2],
            ) == f@.fields[i2].dtype && col_len(f@.cols[i2]) == f@.height by {
                assert(f@.cols[i2] == col_keep(self@.cols[i2], mask@));
                lemma_col_keep_len(self@.cols[i2], mask@);
                assert(col_type(self@.cols[i2]) == self@.fields[i2].dtype);
            }
        }
        Ok(f)
    }

    /// Value-level equality of two frames: schema, height and every cell.
    #[verifier::loop_isolation(false)]
    pub fn frames_equal(&self, other: &Frame) -> (r: bool)
        requires
            self.wf(),
            other.wf(),
        ensures
            r == (self@ == other@),
    {
        if self.height != other.height {
            return false;
        }
        if !schema_equal(&self.fields, &other.fields) {
            return false;
        }
        let mut j: usize = 0;
        while j < self.columns.len()
            invariant
                0 <= j <= self.columns.len(),
                self.columns@.len() == other.columns@.len(),
                forall|t: int|
                    0 <= t < j ==> self.columns.deep_view()[t] == other.columns.deep_view()[t],
            decreases self.columns.len() - j,
        {
            if !self.columns[j].same_values(&other.columns[j]) {
                proof {
                    assert(self.columns.deep_view()[j as int] == self.columns@[j as int]@);
                    assert(other.columns.deep_view()[j as int] == other.columns@[j as int]@);
                    assert(self@.cols != other@.cols);
                }
                return false;
            }
            proof {
                assert(self.columns.deep_view()[j as int] == self.columns@[j as int]@);
                assert(other.columns.deep_view()[j as int] == other.columns@[j as int]@);
            }
            j += 1;
        }
        proof {
            assert(self.columns.deep_view() =~= other.columns.deep_view());
            assert(self@ == other@);
        }
        true
    }
}

/// Columns stacked pairwise: the widths must agree.
pub open spec fn cols_append(a: Seq<ColV>, b: Seq<ColV>) -> Seq<ColV> {
    Seq::new(a.len(), |i: int| col_append(a[i], b[i]))
}

/// The columns of the first `n` frames of a run, stacked in order.
pub open spec fn stack_cols(s: Seq<FrameV>, n: int) -> Seq<ColV>
    decreases n,
{
    if n <= 0 {
        Seq::empty()
    } else if n == 1 {
        s[0].cols
    } else {
        cols_append(stack_cols(s, n - 1), s[n - 1].cols)
    }
}

/// Vertically concatenates a run of frames; fails `NoData` on an empty
/// run and `SchemaMismatch` when a frame disagrees with the first one.
#[verifier::loop_isolation(false)]
pub fn concat_frames(frames: &Vec<Frame>) -> (r: Result<Frame, ServiceError>)
    requires
        forall|i: int| 0 <= i < frames@.len() ==> (#[trigger] frames@[i])@.wf(),
    ensures
        frames@.len() == 0 <==> (r matches Err(e) && e is NoData),
        match r {
            Ok(f) => {
                &&& frames@.len() > 0
                &&& f@.fields == frames.deep_view()[0].fields
                &&& f@.height == sum_heights(frames.deep_view(), frames@.len() as int)
                &&& f@.cols == stack_cols(frames.deep_view(), frames@.len() as int)
                &&& f.wf()
            },
            Err(e) => {
                ||| e is NoData
                ||| (e is SchemaMismatch && exists|i: int|
                    0 <= i < frames@.len() && (#[trigger] frames.deep_view()[i]).fields
                        != frames.deep_view()[0].fields)
                ||| (e is MemoryLimit && sum_heights(frames.deep_view(), frames@.len() as int)
                    > usize::MAX)
            },
        },
{
    if frames.len() == 0 {
        return Err(ServiceError::NoData);
    }
    let mut acc: Frame = frames[0].duplicate();
    proof {
        assert(frames.deep_view().len() == frames@.len());
        assert(frames.deep_view()[0] == frames@[0]@);
        assert(frames.deep_view()[0].wf());
        assert(acc@ == frames.deep_view()[0]);
        assert(sum_heights(frames.deep_view(), 0) == 0);
        assert(sum_heights(frames.deep_view(), 1) == frames.deep_view()[0].height);
        assert(stack_cols(frames.deep_view(), 1) == frames.deep_view()[0].cols);
    }
    let mut i: usize = 1;
    while i < frames.len()
        invariant
            1 <= i <= frames@.len(),
            acc@.fields == frames.deep_view()[0].fields,
            acc@.height == sum_heights(frames.deep_view(), i as int),
            acc@.cols == stack_cols(frames.deep_view(), i as int),
            acc.wf(),
        decreases frames.len() - i,
    {
        proof {
            assert(frames@[i as int]@.wf());
            assert(frames.deep_view()[i as int] == frames@[i as int]@);
        }
        let ghost pre_acc = acc@;
        match acc.vstack(&frames[i]) {
            Ok(f) => {
                acc = f;
                proof {
                    let dv = frames.deep_view();
                    assert(acc@.cols =~= cols_append(pre_acc.cols, dv[i as int].cols)) by {
                        assert forall|t: int| 0 <= t < acc@.cols.len() implies acc@.cols[t]
                            == cols_append(pre_acc.cols, dv[i as int].cols)[t] by {
                            assert(acc@.cols[t] == col_append(
                                pre_acc.cols[t],
                                dv[i as int].cols[t],
                            ));
                        }
                    }
                    assert(acc@.cols == stack_cols(dv, i + 1));
                }
            },
            Err(e) => {
                match e {
                    ServiceError::SchemaMismatch => {
                        proof {
                            assert(frames.deep_view()[i as int].fields
                                != frames.deep_view()[0].fields);
                        }
                        return Err(ServiceError::SchemaMismatch);
                    },
                    _ => {
                        proof {
                            lemma_sum_heights_mono(
                                frames.deep_view(),
                                i as int + 1,
                                frames@.len() as int,
                            );
                        }
                        return Err(ServiceError::MemoryLimit);
                    },
                }
            },
        }
        i += 1;
    }
    Ok(acc)
}

/// Counts the true entries of a mask.
#[verifier::loop_isolation(false)]
pub fn count_trues_exec(mask: &Vec<bool>) -> (r: usize)
    ensures
        r as nat == count_trues(mask@),
{
    proof {
        lemma_count_trues_le(mask@);
    }
    let mut acc: usize = 0;
    let mut j: usize = 0;
    while j < mask.len()
        invariant
            0 <= j <= mask.len(),
            acc as nat == count_trues(mask@.take(j as int)),
            acc <= j,
        decreases mask.len() - j,
    {
        proof {
            assert(mask@.take(j + 1).drop_last() =~= mask@.take(j as int));
            lemma_count_trues_le(mask@.take(j as int));
        }
        if mask[j] {
            acc += 1;
        }
        j += 1;
    }
    proof {
        assert(mask@.take(mask@.len() as int) =~= mask@);
    }
    acc
}

/// A mask has at most as many true entries as entries.
pub proof fn lemma_count_trues_le(m: Seq<bool>)
    ensures
        count_trues(m) <= m.len(),
    decreases m.len(),
{
    if m.len() > 0 {
        lemma_count_trues_le(m.drop_last());
    }
}

} // verus!
