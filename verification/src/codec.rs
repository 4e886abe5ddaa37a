//! The frame codec: a length-prefixed byte encoding of one frame (schema
//! first, then the column batches), with a proved round trip.
use vstd::prelude::*;
use vstd::bytes::{
    lemma_auto_spec_u32_to_from_le_bytes, lemma_auto_spec_u64_to_from_le_bytes,
    spec_u32_from_le_bytes, spec_u32_to_le_bytes, spec_u64_from_le_bytes, spec_u64_to_le_bytes,
    u32_from_le_bytes, u32_to_le_bytes, u64_from_le_bytes, u64_to_le_bytes,
};
use vstd::utf8::{char_is_scalar, char_u32_cast, is_scalar};

use crate::frame::{col_len, col_type, ColV, ColumnData, Field, FieldV, Frame, FrameV, LogicalType};
use crate::ServiceError;

verus! {

/// The wire form of a logical type.
pub open spec fn type_tag(t: LogicalType) -> u8 {
    match t {
        LogicalType::Int64 => 0u8,
        LogicalType::Float64 => 1u8,
        LogicalType::Utf8 => 2u8,
        LogicalType::Boolean => 3u8,
    }
}

/// The characters of a string, each as its scalar value in four bytes.
pub open spec fn enc_chars(s: Seq<char>) -> Seq<u8>
    decreases s.len(),
{
    if s.len() == 0 {
        Seq::empty()
    } else {
        enc_chars(s.drop_last()) + spec_u32_to_le_bytes(s.last() as u32)
    }
}

/// A string: its character count, then its characters.
pub open spec fn enc_str(s: Seq<char>) -> Seq<u8> {
    spec_u64_to_le_bytes(s.len() as u64) + enc_chars(s)
}

/// A schema field: its name, its type tag, its nullability.
pub open spec fn enc_field(f: FieldV) -> Seq<u8> {
    enc_str(f.name) + seq![type_tag(f.dtype)] + seq![
        if f.nullable {
            1u8
        } else {
            0u8
        },
    ]
}

/// The first `n` fields, in order.
pub open spec fn enc_fields(fs: Seq<FieldV>, n: int) -> Seq<u8>
    decreases n,
{
    if n <= 0 {
        Seq::empty()
    } else {
        enc_fields(fs, n - 1) + enc_field(fs[n - 1])
    }
}

/// Sixty-four signed bits, as their two's-complement word.
pub open spec fn enc_i64(x: i64) -> Seq<u8> {
    spec_u64_to_le_bytes(x as u64)
}

/// The first `n` cells of one column.
pub open spec fn enc_col_prefix(c: ColV, n: int) -> Seq<u8>
    decreases n,
{
    if n <= 0 {
        Seq::empty()
    } else {
        enc_col_prefix(c, n - 1) + match c {
            ColV::Int64(s) => enc_i64(s[n - 1]),
            ColV::Float64Bits(s) => spec_u64_to_le_bytes(s[n - 1]),
            ColV::Utf8(s) => enc_str(s[n - 1]),
            ColV::Boolean(s) => seq![
                if s[n - 1] {
                    1u8
                } else {
                    0u8
                },
            ],
        }
    }
}

/// One whole column.
pub open spec fn enc_col(c: ColV) -> Seq<u8> {
    enc_col_prefix(c, col_len(c) as int)
}

/// The first `n` columns, in order.
pub open spec fn enc_cols(cs: Seq<ColV>, n: int) -> Seq<u8>
    decreases n,
{
    if n <= 0 {
        Seq::empty()
    } else {
        enc_cols(cs, n - 1) + enc_col(cs[n - 1])
    }
}

/// A whole frame: width, height, the schema, then the columns.
pub open spec fn enc_frame(v: FrameV) -> Seq<u8> {
    spec_u64_to_le_bytes(v.fields.len() as u64) + spec_u64_to_le_bytes(v.height as u64)
        + enc_fields(v.fields, v.fields.len() as int) + enc_cols(v.cols, v.cols.len() as int)
}

/// Reading a word at `pos`: the value and the position after it.
pub open spec fn p_u64(b: Seq<u8>, pos: int) -> Option<(u64, int)> {
    if 0 <= pos && pos + 8 <= b.len() {
        Option::Some((spec_u64_from_le_bytes(b.subrange(pos, pos + 8)), pos + 8))
    } else {
        Option::None
    }
}

pub open spec fn p_u32(b: Seq<u8>, pos: int) -> Option<(u32, int)> {
    if 0 <= pos && pos + 4 <= b.len() {
        Option::Some((spec_u32_from_le_bytes(b.subrange(pos, pos + 4)), pos + 4))
    } else {
        Option::None
    }
}

pub open spec fn p_u8(b: Seq<u8>, pos: int) -> Option<(u8, int)> {
    if 0 <= pos && pos + 1 <= b.len() {
        Option::Some((b[pos], pos + 1))
    } else {
        Option::None
    }
}

/// Reading one character: a four-byte word that must be a Unicode scalar.
pub open spec fn p_char(b: Seq<u8>, pos: int) -> Option<(char, int)> {
    match p_u32(b, pos) {
        Option::None => Option::None,
        Option::Some((w, pos2)) => {
            if is_scalar(w) {
                Option::Some((w as char, pos2))
            } else {
                Option::None
            }
        },
    }
}

/// Reading `n` characters.
pub open spec fn p_chars(b: Seq<u8>, pos: int, n: int) -> Option<(Seq<char>, int)>
    decreases n,
{
    if n <= 0 {
        Option::Some((Seq::empty(), pos))
    } else {
        match p_chars(b, pos, n - 1) {
            Option::None => Option::None,
            Option::Some((s, p)) => {
                match p_char(b, p) {
                    Option::None => Option::None,
                    Option::Some((c, p2)) => Option::Some((s.push(c), p2)),
                }
            },
        }
    }
}

/// Reading a string: its count, then that many characters.
pub open spec fn p_str(b: Seq<u8>, pos: int) -> Option<(Seq<char>, int)> {
    match p_u64(b, pos) {
        Option::None => Option::None,
        Option::Some((n, p)) => p_chars(b, p, n as int),
    }
}

/// Reading one field: name, type tag, nullability.
pub open spec fn p_field(b: Seq<u8>, pos: int) -> Option<(FieldV, int)> {
    match p_str(b, pos) {
        Option::None => Option::None,
        Option::Some((name, p1)) => {
            match p_u8(b, p1) {
                Option::None => Option::None,
                Option::Some((tag, p2)) => {
                    match p_u8(b, p2) {
                        Option::None => Option::None,
                        Option::Some((nul, p3)) => {
                            if tag <= 3 && nul <= 1 {
                                let dt = if tag == 0 {
                                    LogicalType::Int64
                                } else if tag == 1 {
                                    LogicalType::Float64
                                } else if tag == 2 {
                                    LogicalType::Utf8
                                } else {
                                    LogicalType::Boolean
                                };
                                Option::Some(
                                    (FieldV { name, dtype: dt, nullable: nul == 1 }, p3),
                                )
                            } else {
                                Option::None
                            }
                        },
                    }
                },
            }
        },
    }
}

/// Reading `n` fields.
pub open spec fn p_fields(b: Seq<u8>, pos: int, n: int) -> Option<(Seq<FieldV>, int)>
    decreases n,
{
    if n <= 0 {
        Option::Some((Seq::empty(), pos))
    } else {
        match p_fields(b, pos, n - 1) {
            Option::None => Option::None,
            Option::Some((fs, p)) => {
                match p_field(b, p) {
                    Option::None => Option::None,
                    Option::Some((f, p2)) => Option::Some((fs.push(f), p2)),
                }
            },
        }
    }
}

/// Reading `n` cells of a column of the given type.
pub open spec fn p_col(b: Seq<u8>, pos: int, t: LogicalType, n: int) -> Option<(ColV, int)>
    decreases n,
{
    if n <= 0 {
        let c = match t {
            LogicalType::Int64 => ColV::Int64(Seq::empty()),
            LogicalType::Float64 => ColV::Float64Bits(Seq::empty()),
            LogicalType::Utf8 => ColV::Utf8(Seq::empty()),
            LogicalType::Boolean => ColV::Boolean(Seq::empty()),
        };
        Option::Some((c, pos))
    } else {
        match p_col(b, pos, t, n - 1) {
            Option::None => Option::None,
            Option::Some((c, p)) => {
                match (c, t) {
                    (ColV::Int64(s), LogicalType::Int64) => {
                        match p_u64(b, p) {
                            Option::None => Option::None,
                            Option::Some((w, p2)) => Option::Some(
                                (ColV::Int64(s.push(w as i64)), p2),
                            ),
                        }
                    },
                    (ColV::Float64Bits(s), LogicalType::Float64) => {
                        match p_u64(b, p) {
                            Option::None => Option::None,
                            Option::Some((w, p2)) => Option::Some(
                                (ColV::Float64Bits(s.push(w)), p2),
                            ),
                        }
                    },
                    (ColV::Utf8(s), LogicalType::Utf8) => {
                        match p_str(b, p) {
                            Option::None => Option::None,
                            Option::Some((w, p2)) => Option::Some((ColV::Utf8(s.push(w)), p2)),
                        }
                    },
                    (ColV::Boolean(s), LogicalType::Boolean) => {
                        match p_u8(b, p) {
                            Option::None => Option::None,
                            Option::Some((w, p2)) => {
                                if w <= 1 {
                                    Option::Some((ColV::Boolean(s.push(w == 1)), p2))
                                } else {
                                    Option::None
                                }
                            },
                        }
                    },
                    _ => Option::None,
                }
            },
        }
    }
}

/// Reading the first `n` columns, one per field, each of the frame's
/// height.
pub open spec fn p_cols(b: Seq<u8>, pos: int, fs: Seq<FieldV>, height: int, n: int) -> Option<
    (Seq<ColV>, int),
>
    decreases n,
{
    if n <= 0 {
        Option::Some((Seq::empty(), pos))
    } else {
        match p_cols(b, pos, fs, height, n - 1) {
            Option::None => Option::None,
            Option::Some((cs, p)) => {
                match p_col(b, p, fs[n - 1].dtype, height) {
                    Option::None => Option::None,
                    Option::Some((c, p2)) => Option::Some((cs.push(c), p2)),
                }
            },
        }
    }
}

/// Reading a whole frame; every byte must be consumed.
pub open spec fn p_frame(b: Seq<u8>) -> Option<FrameV> {
    match p_u64(b, 0) {
        Option::None => Option::None,
        Option::Some((width, p1)) => {
            match p_u64(b, p1) {
                Option::None => Option::None,
                Option::Some((height, p2)) => {
                    match p_fields(b, p2, width as int) {
                        Option::None => Option::None,
                        Option::Some((fs, p3)) => {
                            match p_cols(b, p3, fs, height as int, width as int) {
                                Option::None => Option::None,
                                Option::Some((cs, p4)) => {
                                    if p4 == b.len() {
                                        Option::Some(
                                            FrameV { fields: fs, cols: cs, height: height as nat },
                                        )
                                    } else {
                                        Option::None
                                    }
                                },
                            }
                        },
                    }
                },
            }
        },
    }
}

/// Per-variant prefix of a column's cells.
pub open spec fn col_take(c: ColV, n: int) -> ColV {
    match c {
        ColV::Int64(s) => ColV::Int64(s.take(n)),
        ColV::Float64Bits(s) => ColV::Float64Bits(s.take(n)),
        ColV::Utf8(s) => ColV::Utf8(s.take(n)),
        ColV::Boolean(s) => ColV::Boolean(s.take(n)),
    }
}

/// Machine bounds under which the encoding is faithful: every count fits
/// the length word.
pub open spec fn bounded(v: FrameV) -> bool {
    &&& v.fields.len() <= u64::MAX
    &&& v.height <= u64::MAX
    &&& forall|i: int| 0 <= i < v.fields.len() ==> (#[trigger] v.fields[i]).name.len() <= u64::MAX
    &&& forall|i: int|
        0 <= i < v.cols.len() ==> match #[trigger] v.cols[i] {
            ColV::Utf8(s) => forall|j: int| 0 <= j < s.len() ==> (#[trigger] s[j]).len() <= u64::MAX,
            _ => true,
        }
}

pub proof fn lemma_enc_chars_len(s: Seq<char>)
    ensures
        enc_chars(s).len() == 4 * s.len(),
    decreases s.len(),
{
    lemma_auto_spec_u32_to_from_le_bytes();
    if s.len() > 0 {
        lemma_enc_chars_len(s.drop_last());
    }
}

pub proof fn lemma_p_u64_at(b: Seq<u8>, pos: int, x: u64)
    requires
        0 <= pos,
        pos + 8 <= b.len(),
        b.subrange(pos, pos + 8) == spec_u64_to_le_bytes(x),
    ensures
        p_u64(b, pos) == Option::Some((x, pos + 8)),
{
    lemma_auto_spec_u64_to_from_le_bytes();
}

pub proof fn lemma_p_char_at(b: Seq<u8>, pos: int, c: char)
    requires
        0 <= pos,
        pos + 4 <= b.len(),
        b.subrange(pos, pos + 4) == spec_u32_to_le_bytes(c as u32),
    ensures
        p_char(b, pos) == Option::Some((c, pos + 4)),
{
    lemma_auto_spec_u32_to_from_le_bytes();
    assert(spec_u32_to_le_bytes(c as u32).len() == 4);
    assert(spec_u32_from_le_bytes(spec_u32_to_le_bytes(c as u32)) == c as u32);
    char_is_scalar(c);
    char_u32_cast(c, c as u32);
}

pub proof fn lemma_p_chars_enc(b: Seq<u8>, pos: int, s: Seq<char>)
    requires
        0 <= pos,
        pos + enc_chars(s).len() <= b.len(),
        b.subrange(pos, pos + enc_chars(s).len()) == enc_chars(s),
    ensures
        p_chars(b, pos, s.len() as int) == Option::Some((s, pos + enc_chars(s).len())),
    decreases s.len(),
{
    lemma_enc_chars_len(s);
    if s.len() == 0 {
        assert(s =~= Seq::<char>::empty());
    } else {
        let dl = s.drop_last();
        lemma_enc_chars_len(dl);
        lemma_auto_spec_u32_to_from_le_bytes();
        let l1 = enc_chars(dl).len();
        assert(b.subrange(pos, pos + l1) =~= enc_chars(dl)) by {
            assert forall|t: int| 0 <= t < l1 implies #[trigger] (b.subrange(pos, pos + l1)[t])
                == enc_chars(dl)[t] by {
                assert(b.subrange(pos, pos + enc_chars(s).len())[t] == enc_chars(s)[t]);
                assert(enc_chars(s)[t] == enc_chars(dl)[t]);
            }
        }
        lemma_p_chars_enc(b, pos, dl);
        assert(b.subrange(pos + l1, pos + l1 + 4) =~= spec_u32_to_le_bytes(s.last() as u32)) by {
            assert forall|t: int|
                0 <= t < 4 implies #[trigger] (b.subrange(pos + l1, pos + l1 + 4)[t])
                == spec_u32_to_le_bytes(s.last() as u32)[t] by {
                assert(b.subrange(pos, pos + enc_chars(s).len())[l1 + t] == enc_chars(s)[l1 + t]);
                assert(enc_chars(s)[l1 + t] == spec_u32_to_le_bytes(s.last() as u32)[t]);
            }
        }
        lemma_p_char_at(b, pos + l1, s.last());
        assert(dl.push(s.last()) =~= s);
    }
}

pub proof fn lemma_p_str_enc(b: Seq<u8>, pos: int, s: Seq<char>)
    requires
        0 <= pos,
        s.len() <= u64::MAX,
        pos + enc_str(s).len() <= b.len(),
        b.subrange(pos, pos + enc_str(s).len()) == enc_str(s),
    ensures
        p_str(b, pos) == Option::Some((s, pos + enc_str(s).len())),
{
    lemma_auto_spec_u64_to_from_le_bytes();
    lemma_enc_chars_len(s);
    assert(b.subrange(pos, pos + 8) =~= spec_u64_to_le_bytes(s.len() as u64)) by {
        assert forall|t: int| 0 <= t < 8 implies #[trigger] (b.subrange(pos, pos + 8)[t])
            == spec_u64_to_le_bytes(s.len() as u64)[t] by {
            assert(b.subrange(pos, pos + enc_str(s).len())[t] == enc_str(s)[t]);
            assert(enc_str(s)[t] == spec_u64_to_le_bytes(s.len() as u64)[t]);
        }
    }
    lemma_p_u64_at(b, pos, s.len() as u64);
    assert(b.subrange(pos + 8, pos + 8 + enc_chars(s).len()) =~= enc_chars(s)) by {
        assert forall|t: int|
            0 <= t < enc_chars(s).len() implies #[trigger] (b.subrange(
            pos + 8,
            pos + 8 + enc_chars(s).len(),
        )[t]) == enc_chars(s)[t] by {
            assert(b.subrange(pos, pos + enc_str(s).len())[8 + t] == enc_str(s)[8 + t]);
            assert(enc_str(s)[8 + t] == enc_chars(s)[t]);
        }
    }
    lemma_p_chars_enc(b, pos + 8, s);
}

pub proof fn lemma_p_field_enc(b: Seq<u8>, pos: int, f: FieldV)
    requires
        0 <= pos,
        f.name.len() <= u64::MAX,
        pos + enc_field(f).len() <= b.len(),
        b.subrange(pos, pos + enc_field(f).len()) == enc_field(f),
    ensures
        p_field(b, pos) == Option::Some((f, pos + enc_field(f).len())),
{
    let ls = enc_str(f.name).len() as int;
    assert(b.subrange(pos, pos + ls) =~= enc_str(f.name)) by {
        assert forall|t: int| 0 <= t < ls implies b.subrange(pos, pos + ls)[t] == enc_str(
            f.name,
        )[t] by {
            assert(b.subrange(pos, pos + enc_field(f).len())[t] == enc_field(f)[t]);
            assert(enc_field(f)[t] == enc_str(f.name)[t]);
        }
    }
    lemma_p_str_enc(b, pos, f.name);
    assert(b[pos + ls] == type_tag(f.dtype)) by {
        assert(b.subrange(pos, pos + enc_field(f).len())[ls] == enc_field(f)[ls]);
    }
    assert(b[pos + ls + 1] == (if f.nullable {
        1u8
    } else {
        0u8
    })) by {
        assert(b.subrange(pos, pos + enc_field(f).len())[ls + 1] == enc_field(f)[ls + 1]);
    }
}

pub proof fn lemma_p_fields_enc(b: Seq<u8>, pos: int, fs: Seq<FieldV>, n: int)
    requires
        0 <= pos,
        0 <= n <= fs.len(),
        forall|i: int| 0 <= i < fs.len() ==> (#[trigger] fs[i]).name.len() <= u64::MAX,
        pos + enc_fields(fs, n).len() <= b.len(),
        b.subrange(pos, pos + enc_fields(fs, n).len()) == enc_fields(fs, n),
    ensures
        p_fields(b, pos, n) == Option::Some((fs.take(n), pos + enc_fields(fs, n).len())),
    decreases n,
{
    if n == 0 {
        assert(fs.take(0) =~= Seq::<FieldV>::empty());
    } else {
        let l1 = enc_fields(fs, n - 1).len();
        let lf = enc_field(fs[n - 1]).len();
        assert(b.subrange(pos, pos + l1) =~= enc_fields(fs, n - 1)) by {
            assert forall|t: int| 0 <= t < l1 implies #[trigger] (b.subrange(pos, pos + l1)[t])
                == enc_fields(fs, n - 1)[t] by {
                assert(b.subrange(pos, pos + enc_fields(fs, n).len())[t] == enc_fields(fs, n)[t]);
                assert(enc_fields(fs, n)[t] == enc_fields(fs, n - 1)[t]);
            }
        }
        lemma_p_fields_enc(b, pos, fs, n - 1);
        assert(b.subrange(pos + l1, pos + l1 + lf) =~= enc_field(fs[n - 1])) by {
            assert forall|t: int|
                0 <= t < lf implies #[trigger] (b.subrange(pos + l1, pos + l1 + lf)[t])
                == enc_field(fs[n - 1])[t] by {
                assert(b.subrange(pos, pos + enc_fields(fs, n).len())[l1 + t] == enc_fields(
                    fs,
                    n,
                )[l1 + t]);
                assert(enc_fields(fs, n)[l1 + t] == enc_field(fs[n - 1])[t]);
            }
        }
        lemma_p_field_enc(b, pos + l1, fs[n - 1]);
        assert(fs.take(n - 1).push(fs[n - 1]) =~= fs.take(n));
    }
}

/// Every cell of a string column is bounded.
pub open spec fn col_bounded(c: ColV) -> bool {
    match c {
        ColV::Utf8(s) => forall|j: int| 0 <= j < s.len() ==> (#[trigger] s[j]).len() <= u64::MAX,
        _ => true,
    }
}

pub proof fn lemma_p_col_enc(b: Seq<u8>, pos: int, c: ColV, n: int)
    requires
        0 <= pos,
        0 <= n <= col_len(c),
        col_bounded(c),
        pos + enc_col_prefix(c, n).len() <= b.len(),
        b.subrange(pos, pos + enc_col_prefix(c, n).len()) == enc_col_prefix(c, n),
    ensures
        p_col(b, pos, col_type(c), n) == Option::Some(
            (col_take(c, n), pos + enc_col_prefix(c, n).len()),
        ),
    decreases n,
{
    lemma_auto_spec_u64_to_from_le_bytes();
    if n == 0 {
        match c {
            ColV::Int64(s) => {
                assert(s.take(0) =~= Seq::<i64>::empty());
            },
            ColV::Float64Bits(s) => {
                assert(s.take(0) =~= Seq::<u64>::empty());
            },
            ColV::Utf8(s) => {
                assert(s.take(0) =~= Seq::<Seq<char>>::empty());
            },
            ColV::Boolean(s) => {
                assert(s.take(0) =~= Seq::<bool>::empty());
            },
        }
    } else {
        let l1 = enc_col_prefix(c, n - 1).len();
        let cell: Seq<u8> = match c {
            ColV::Int64(s) => enc_i64(s[n - 1]),
            ColV::Float64Bits(s) => spec_u64_to_le_bytes(s[n - 1]),
            ColV::Utf8(s) => enc_str(s[n - 1]),
            ColV::Boolean(s) => seq![
                if s[n - 1] {
                    1u8
                } else {
                    0u8
                },
            ],
        };
        let lc = cell.len();
        assert(b.subrange(pos, pos + l1) =~= enc_col_prefix(c, n - 1)) by {
            assert forall|t: int|
                0 <= t < l1 implies #[trigger] (b.subrange(pos, pos + l1)[t]) == enc_col_prefix(
                c,
                n - 1,
            )[t] by {
                assert(b.subrange(pos, pos + enc_col_prefix(c, n).len())[t] == enc_col_prefix(
                    c,
                    n,
                )[t]);
                assert(enc_col_prefix(c, n)[t] == enc_col_prefix(c, n - 1)[t]);
            }
        }
        lemma_p_col_enc(b, pos, c, n - 1);
        assert(b.subrange(pos + l1, pos + l1 + lc) =~= cell) by {
            assert forall|t: int| 0 <= t < lc implies #[trigger] (b.subrange(
                pos + l1,
                pos + l1 + lc,
            )[t]) == cell[t] by {
                assert(b.subrange(pos, pos + enc_col_prefix(c, n).len())[l1 + t] == enc_col_prefix(
                    c,
                    n,
                )[l1 + t]);
                assert(enc_col_prefix(c, n)[l1 + t] == cell[t]);
            }
        }
        match c {
            ColV::Int64(s) => {
                let x = s[n - 1];
                lemma_p_u64_at(b, pos + l1, x as u64);
                assert(((x as u64) as i64) == x) by (bit_vector);
                assert(s.take(n - 1).push(x) =~= s.take(n));
            },
            ColV::Float64Bits(s) => {
                lemma_p_u64_at(b, pos + l1, s[n - 1]);
                assert(s.take(n - 1).push(s[n - 1]) =~= s.take(n));
            },
            ColV::Utf8(s) => {
                lemma_p_str_enc(b, pos + l1, s[n - 1]);
                assert(s.take(n - 1).push(s[n - 1]) =~= s.take(n));
            },
            ColV::Boolean(s) => {
                assert(b[pos + l1] == cell[0]);
                assert(s.take(n - 1).push(s[n - 1]) =~= s.take(n));
            },
        }
    }
}

pub proof fn lemma_p_cols_enc(b: Seq<u8>, pos: int, fs: Seq<FieldV>, cs: Seq<ColV>, height: int, n: int)
    requires
        0 <= pos,
        0 <= n <= cs.len(),
        cs.len() == fs.len(),
        height >= 0,
        forall|i: int|
            0 <= i < cs.len() ==> col_type(#[trigger] cs[i]) == fs[i].dtype && col_len(cs[i])
                == height && col_bounded(cs[i]),
        pos + enc_cols(cs, n).len() <= b.len(),
        b.subrange(pos, pos + enc_cols(cs, n).len()) == enc_cols(cs, n),
    ensures
        p_cols(b, pos, fs, height, n) == Option::Some((cs.take(n), pos + enc_cols(cs, n).len())),
    decreases n,
{
    if n == 0 {
        assert(cs.take(0) =~= Seq::<ColV>::empty());
    } else {
        let l1 = enc_cols(cs, n - 1).len();
        let lc = enc_col(cs[n - 1]).len();
        assert(b.subrange(pos, pos + l1) =~= enc_cols(cs, n - 1)) by {
            assert forall|t: int| 0 <= t < l1 implies #[trigger] (b.subrange(pos, pos + l1)[t])
                == enc_cols(cs, n - 1)[t] by {
                assert(b.subrange(pos, pos + enc_cols(cs, n).len())[t] == enc_cols(cs, n)[t]);
                assert(enc_cols(cs, n)[t] == enc_cols(cs, n - 1)[t]);
            }
        }
        lemma_p_cols_enc(b, pos, fs, cs, height, n - 1);
        assert(b.subrange(pos + l1, pos + l1 + lc) =~= enc_col(cs[n - 1])) by {
            assert forall|t: int| 0 <= t < lc implies #[trigger] (b.subrange(
                pos + l1,
                pos + l1 + lc,
            )[t]) == enc_col(cs[n - 1])[t] by {
                assert(b.subrange(pos, pos + enc_cols(cs, n).len())[l1 + t] == enc_cols(
                    cs,
                    n,
                )[l1 + t]);
                assert(enc_cols(cs, n)[l1 + t] == enc_col(cs[n - 1])[t]);
            }
        }
        lemma_p_col_enc(b, pos + l1, cs[n - 1], height);
        assert(col_take(cs[n - 1], height) == cs[n - 1]) by {
            match cs[n - 1] {
                ColV::Int64(s) => {
                    assert(s.take(height) =~= s);
                },
                ColV::Float64Bits(s) => {
                    assert(s.take(height) =~= s);
                },
                ColV::Utf8(s) => {
                    assert(s.take(height) =~= s);
                },
                ColV::Boolean(s) => {
                    assert(s.take(height) =~= s);
                },
            }
        }
        assert(cs.take(n - 1).push(cs[n - 1]) =~= cs.take(n));
    }
}

/// The round trip: a well-formed, machine-bounded frame parses back from
/// its own encoding, exactly.
pub proof fn lemma_codec_round_trip(v: FrameV)
    requires
        v.wf(),
        bounded(v),
    ensures
        p_frame(enc_frame(v)) == Option::Some(v),
{
    let b = enc_frame(v);
    lemma_auto_spec_u64_to_from_le_bytes();
    let w = v.fields.len() as u64;
    let h = v.height as u64;
    let lw = spec_u64_to_le_bytes(w);
    let lh = spec_u64_to_le_bytes(h);
    let bf = enc_fields(v.fields, v.fields.len() as int);
    let bc = enc_cols(v.cols, v.cols.len() as int);
    assert(b =~= lw + lh + bf + bc);
    assert(b.subrange(0, 8) =~= lw);
    lemma_p_u64_at(b, 0, w);
    assert(b.subrange(8, 16) =~= lh) by {
        assert forall|t: int| 0 <= t < 8 implies #[trigger] (b.subrange(8, 16)[t]) == lh[t] by {
            assert(b[8 + t] == lh[t]);
        }
    }
    lemma_p_u64_at(b, 8, h);
    assert(b.subrange(16, 16 + bf.len() as int) =~= bf) by {
        assert forall|t: int| 0 <= t < bf.len() implies #[trigger] (b.subrange(
            16,
            16 + bf.len() as int,
        )[t]) == bf[t] by {
            assert(b[16 + t] == bf[t]);
        }
    }
    assert forall|i: int|
        0 <= i < v.fields.len() implies (#[trigger] v.fields[i]).name.len() <= u64::MAX by {}
    lemma_p_fields_enc(b, 16, v.fields, v.fields.len() as int);
    assert(v.fields.take(v.fields.len() as int) =~= v.fields);
    let p3 = 16 + bf.len() as int;
    assert(b.subrange(p3, p3 + bc.len() as int) =~= bc) by {
        assert forall|t: int| 0 <= t < bc.len() implies #[trigger] (b.subrange(
            p3,
            p3 + bc.len() as int,
        )[t]) == bc[t] by {
            assert(b[p3 + t] == bc[t]);
        }
    }
    assert forall|i: int|
        0 <= i < v.cols.len() implies col_type(#[trigger] v.cols[i]) == v.fields[i].dtype
        && col_len(v.cols[i]) == v.height as int && col_bounded(v.cols[i]) by {}
    lemma_p_cols_enc(b, p3, v.fields, v.cols, v.height as int, v.cols.len() as int);
    assert(v.cols.take(v.cols.len() as int) =~= v.cols);
}

/// Appends a word.
fn push_u64(out: &mut Vec<u8>, x: u64)
    ensures
        final(out)@ == old(out)@ + spec_u64_to_le_bytes(x),
{
    let mut b = u64_to_le_bytes(x);
    out.append(&mut b);
}

/// Appends a four-byte word.
fn push_u32(out: &mut Vec<u8>, x: u32)
    ensures
        final(out)@ == old(out)@ + spec_u32_to_le_bytes(x),
{
    let mut b = u32_to_le_bytes(x);
    out.append(&mut b);
}

/// Appends a string: its character count, then its characters.
#[verifier::loop_isolation(false)]
fn push_str(out: &mut Vec<u8>, s: &String)
    ensures
        final(out)@ == old(out)@ + enc_str(s@),
        s@.len() <= usize::MAX,
{
    let n = s.as_str().unicode_len();
    push_u64(out, n as u64);
    let ghost base = out@;
    let mut i: usize = 0;
    proof {
        assert(enc_chars(s@.take(0)) =~= Seq::<u8>::empty());
        assert(out@ =~= base + enc_chars(s@.take(0)));
    }
    while i < n
        invariant
            0 <= i <= n,
            n as nat == s@.len(),
            out@ == base + enc_chars(s@.take(i as int)),
        decreases n - i,
    {
        let c = s.as_str().get_char(i);
        push_u32(out, c as u32);
        proof {
            assert(s@.take(i + 1).drop_last() =~= s@.take(i as int));
            assert(s@.take(i + 1).last() == s@[i as int]);
            assert(out@ =~= base + enc_chars(s@.take(i + 1)));
        }
        i += 1;
    }
    proof {
        assert(s@.take(n as int) =~= s@);
        assert(out@ =~= old(out)@ + enc_str(s@));
    }
}

/// Appends one column's cells.
#[verifier::loop_isolation(false)]
fn push_col(out: &mut Vec<u8>, col: &ColumnData)
    ensures
        final(out)@ == old(out)@ + enc_col(col@),
        col_bounded(col@),
{
    let ghost base = out@;
    match col {
        ColumnData::Int64(v) => {
            let mut i: usize = 0;
            while i < v.len()
                invariant
                    0 <= i <= v@.len(),
                    out@ == base + enc_col_prefix(col@, i as int),
                decreases v.len() - i,
            {
                push_u64(out, v[i] as u64);
                proof {
                    assert(out@ =~= base + enc_col_prefix(col@, i + 1));
                }
                i += 1;
            }
        },
        ColumnData::Float64Bits(v) => {
            let mut i: usize = 0;
            while i < v.len()
                invariant
                    0 <= i <= v@.len(),
                    out@ == base + enc_col_prefix(col@, i as int),
                decreases v.len() - i,
            {
                push_u64(out, v[i]);
                proof {
                    assert(out@ =~= base + enc_col_prefix(col@, i + 1));
                }
                i += 1;
            }
        },
        ColumnData::Utf8(v) => {
            let mut i: usize = 0;
            while i < v.len()
                invariant
                    0 <= i <= v@.len(),
                    out@ == base + enc_col_prefix(col@, i as int),
                    forall|k: int| 0 <= k < i ==> (#[trigger] v.deep_view()[k]).len() <= u64::MAX,
                decreases v.len() - i,
            {
                push_str(out, &v[i]);
                proof {
                    assert(v.deep_view()[i as int] == v@[i as int]@);
                    assert(out@ =~= base + enc_col_prefix(col@, i + 1));
                    assert(usize::MAX <= u64::MAX);
                }
                i += 1;
            }
            proof {
                assert(col@ matches ColV::Utf8(sv) && sv == v.deep_view());
            }
        },
        ColumnData::Boolean(v) => {
            let mut i: usize = 0;
            while i < v.len()
                invariant
                    0 <= i <= v@.len(),
                    out@ == base + enc_col_prefix(col@, i as int),
                decreases v.len() - i,
            {
                let b: u8 = if v[i] {
                    1
                } else {
                    0
                };
                out.push(b);
                proof {
                    assert(out@ =~= base + enc_col_prefix(col@, i + 1));
                }
                i += 1;
            }
        },
    }
    proof {
        assert(col_len(col@) == match col@ {
            ColV::Int64(s) => s.len(),
            ColV::Float64Bits(s) => s.len(),
            ColV::Utf8(s) => s.len(),
            ColV::Boolean(s) => s.len(),
        });
    }
}

/// Encodes a frame: width, height, the schema fields, then the columns.
#[verifier::loop_isolation(false)]
pub fn encode(frame: &Frame) -> (r: Vec<u8>)
    requires
        frame.wf(),
    ensures
        r@ == enc_frame(frame@),
        bounded(frame@),
{
    let mut out: Vec<u8> = Vec::new();
    push_u64(&mut out, frame.width() as u64);
    push_u64(&mut out, frame.height() as u64);
    let ghost head = out@;
    let mut i: usize = 0;
    proof {
        assert(out@ =~= head + enc_fields(frame@.fields, 0));
    }
    while i < frame.fields.len()
        invariant
            0 <= i <= frame@.fields.len(),
            out@ == head + enc_fields(frame@.fields, i as int),
            forall|t: int|
                0 <= t < i ==> (#[trigger] frame@.fields[t]).name.len() <= u64::MAX,
        decreases frame.fields.len() - i,
    {
        let f = &frame.fields[i];
        push_str(&mut out, &f.name);
        let tag: u8 = match f.dtype {
            LogicalType::Int64 => 0,
            LogicalType::Float64 => 1,
            LogicalType::Utf8 => 2,
            LogicalType::Boolean => 3,
        };
        out.push(tag);
        let nul: u8 = if f.nullable {
            1
        } else {
            0
        };
        out.push(nul);
        proof {
            assert(frame@.fields[i as int] == frame.fields@[i as int]@);
            assert(out@ =~= head + enc_fields(frame@.fields, i + 1));
            assert(usize::MAX <= u64::MAX);
        }
        i += 1;
    }
    let ghost mid = out@;
    let mut j: usize = 0;
    proof {
        assert(out@ =~= mid + enc_cols(frame@.cols, 0));
    }
    while j < frame.columns.len()
        invariant
            0 <= j <= frame@.cols.len(),
            out@ == mid + enc_cols(frame@.cols, j as int),
            forall|t: int| 0 <= t < j ==> col_bounded(#[trigger] frame@.cols[t]),
        decreases frame.columns.len() - j,
    {
        push_col(&mut out, &frame.columns[j]);
        proof {
            assert(frame@.cols[j as int] == frame.columns@[j as int]@);
            assert(out@ =~= mid + enc_cols(frame@.cols, j + 1));
        }
        j += 1;
    }
    proof {
        assert(out@ =~= enc_frame(frame@));
        assert(bounded(frame@)) by {
            assert(usize::MAX <= u64::MAX);
            assert(frame@.fields.len() == frame.fields@.len());
            assert(frame@.cols.len() == frame.columns@.len());
        }
    }
    out
}

/// Relies on `char::from_u32` of std: `Some` exactly for Unicode scalar
/// values, handing back the character with that scalar value.
pub assume_specification[ char::from_u32 ](u: u32) -> (r: Option<char>)
    ensures
        match r {
            Some(c) => c as u32 == u && is_scalar(u),
            None => !is_scalar(u),
        },
;

/// Relies on `String`'s `FromIterator<char>`: collecting characters yields
/// the string of exactly those characters in order.
#[verifier::external_body]
fn string_from_chars(chars: &Vec<char>) -> (r: String)
    ensures
        r@ == chars@,
{
    chars.iter().collect()
}

/// Reads a word, if eight bytes remain.
fn read_u64(bytes: &Vec<u8>, pos: usize) -> (r: Option<(u64, usize)>)
    ensures
        match r {
            Some((x, p2)) => p_u64(bytes@, pos as int) == Option::Some((x, p2 as int)),
            None => p_u64(bytes@, pos as int) is None,
        },
{
    if bytes.len() >= 8 && pos <= bytes.len() - 8 {
        let s = vstd::slice::slice_subrange(bytes.as_slice(), pos, pos + 8);
        let x = u64_from_le_bytes(s);
        Some((x, pos + 8))
    } else {
        None
    }
}

/// Reads a four-byte word, if four bytes remain.
fn read_u32(bytes: &Vec<u8>, pos: usize) -> (r: Option<(u32, usize)>)
    ensures
        match r {
            Some((x, p2)) => p_u32(bytes@, pos as int) == Option::Some((x, p2 as int)),
            None => p_u32(bytes@, pos as int) is None,
        },
{
    if bytes.len() >= 4 && pos <= bytes.len() - 4 {
        let s = vstd::slice::slice_subrange(bytes.as_slice(), pos, pos + 4);
        let x = u32_from_le_bytes(s);
        Some((x, pos + 4))
    } else {
        None
    }
}

/// Reads one byte, if one remains.
fn read_u8(bytes: &Vec<u8>, pos: usize) -> (r: Option<(u8, usize)>)
    ensures
        match r {
            Some((x, p2)) => p_u8(bytes@, pos as int) == Option::Some((x, p2 as int)),
            None => p_u8(bytes@, pos as int) is None,
        },
{
    if pos < bytes.len() {
        Some((bytes[pos], pos + 1))
    } else {
        None
    }
}

/// Reads one character, if a scalar four-byte word remains.
fn read_char(bytes: &Vec<u8>, pos: usize) -> (r: Option<(char, usize)>)
    ensures
        match r {
            Some((c, p2)) => p_char(bytes@, pos as int) == Option::Some((c, p2 as int)),
            None => p_char(bytes@, pos as int) is None,
        },
{
    match read_u32(bytes, pos) {
        None => None,
        Some((w, p2)) => {
            match char::from_u32(w) {
                None => None,
                Some(c) => {
                    proof {
                        char_u32_cast(c, w);
                    }
                    Some((c, p2))
                },
            }
        },
    }
}

/// Once one cell fails, the whole count fails.
proof fn lemma_p_chars_fail(b: Seq<u8>, pos: int, i: int, n: int)
    requires
        0 <= i < n,
        p_chars(b, pos, i) matches Option::Some(sp) && p_char(b, sp.1) is None,
    ensures
        p_chars(b, pos, n) is None,
    decreases n,
{
    if n - 1 > i {
        lemma_p_chars_fail(b, pos, i, n - 1);
    }
}

proof fn lemma_p_fields_fail(b: Seq<u8>, pos: int, i: int, n: int)
    requires
        0 <= i < n,
        p_fields(b, pos, i) matches Option::Some(sp) && p_field(b, sp.1) is None,
    ensures
        p_fields(b, pos, n) is None,
    decreases n,
{
    if n - 1 > i {
        lemma_p_fields_fail(b, pos, i, n - 1);
    }
}

proof fn lemma_p_col_fail(b: Seq<u8>, pos: int, t: LogicalType, i: int, n: int)
    requires
        0 <= i < n,
        p_col(b, pos, t, i) matches Option::Some(sp) && p_col(b, pos, t, i + 1) is None,
    ensures
        p_col(b, pos, t, n) is None,
    decreases n,
{
    if n - 1 > i {
        lemma_p_col_fail(b, pos, t, i, n - 1);
    }
}

proof fn lemma_p_cols_fail(b: Seq<u8>, pos: int, fs: Seq<FieldV>, height: int, i: int, n: int)
    requires
        0 <= i < n,
        p_cols(b, pos, fs, height, i) matches Option::Some(sp) && p_col(
            b,
            sp.1,
            fs[i].dtype,
            height,
        ) is None,
    ensures
        p_cols(b, pos, fs, height, n) is None,
    decreases n,
{
    if n - 1 > i {
        lemma_p_cols_fail(b, pos, fs, height, i, n - 1);
    }
}

/// Reads `n` characters.
#[verifier::loop_isolation(false)]
fn read_chars(bytes: &Vec<u8>, pos: usize, n: u64) -> (r: Option<(Vec<char>, usize)>)
    ensures
        match r {
            Some((s, p2)) => p_chars(bytes@, pos as int, n as int) == Option::Some(
                (s@, p2 as int),
            ),
            None => p_chars(bytes@, pos as int, n as int) is None,
        },
{
    let mut out: Vec<char> = Vec::new();
    let mut p: usize = pos;
    let mut i: u64 = 0;
    proof {
        assert(p_chars(bytes@, pos as int, 0) == Option::Some((out@, p as int)));
    }
    while i < n
        invariant
            0 <= i <= n,
            p_chars(bytes@, pos as int, i as int) == Option::Some((out@, p as int)),
        decreases n - i,
    {
        match read_char(bytes, p) {
            None => {
                proof {
                    lemma_p_chars_fail(bytes@, pos as int, i as int, n as int);
                }
                return None;
            },
            Some((c, p2)) => {
                out.push(c);
                p = p2;
            },
        }
        i += 1;
    }
    Some((out, p))
}

/// Reads a string.
fn read_string(bytes: &Vec<u8>, pos: usize) -> (r: Option<(String, usize)>)
    ensures
        match r {
            Some((s, p2)) => p_str(bytes@, pos as int) == Option::Some((s@, p2 as int)),
            None => p_str(bytes@, pos as int) is None,
        },
{
    match read_u64(bytes, pos) {
        None => None,
        Some((n, p1)) => {
            match read_chars(bytes, p1, n) {
                None => None,
                Some((cs, p2)) => Some((string_from_chars(&cs), p2)),
            }
        },
    }
}

/// Reads one schema field.
fn read_field(bytes: &Vec<u8>, pos: usize) -> (r: Option<(Field, usize)>)
    ensures
        match r {
            Some((f, p2)) => p_field(bytes@, pos as int) == Option::Some((f@, p2 as int)),
            None => p_field(bytes@, pos as int) is None,
        },
{
    match read_string(bytes, pos) {
        None => None,
        Some((name, p1)) => {
            match read_u8(bytes, p1) {
                None => None,
                Some((tag, p2)) => {
                    match read_u8(bytes, p2) {
                        None => None,
                        Some((nul, p3)) => {
                            if tag <= 3 && nul <= 1 {
                                let dt = if tag == 0 {
                                    LogicalType::Int64
                                } else if tag == 1 {
                                    LogicalType::Float64
                                } else if tag == 2 {
                                    LogicalType::Utf8
                                } else {
                                    LogicalType::Boolean
                                };
                                Some((Field { name, dtype: dt, nullable: nul == 1 }, p3))
                            } else {
                                None
                            }
                        },
                    }
                },
            }
        },
    }
}

/// Reads `n` cells of one column of the given type.
#[verifier::loop_isolation(false)]
fn read_col(bytes: &Vec<u8>, pos: usize, dt: LogicalType, n: u64) -> (r: Option<
    (ColumnData, usize),
>)
    ensures
        match r {
            Some((c, p2)) => p_col(bytes@, pos as int, dt, n as int) == Option::Some(
                (c@, p2 as int),
            ),
            None => p_col(bytes@, pos as int, dt, n as int) is None,
        },
{
    let mut p: usize = pos;
    let mut i: u64 = 0;
    match dt {
        LogicalType::Int64 => {
            let mut v: Vec<i64> = Vec::new();
            while i < n
                invariant
                    0 <= i <= n,
                    p_col(bytes@, pos as int, LogicalType::Int64, i as int) == Option::Some(
                        (ColV::Int64(v@), p as int),
                    ),
                decreases n - i,
            {
                match read_u64(bytes, p) {
                    None => {
                        proof {
                            lemma_p_col_fail(
                                bytes@,
                                pos as int,
                                LogicalType::Int64,
                                i as int,
                                n as int,
                            );
                        }
                        return None;
                    },
                    Some((w, p2)) => {
                        v.push(#[verifier::truncate] (w as i64));
                        p = p2;
                    },
                }
                i += 1;
            }
            Some((ColumnData::Int64(v), p))
        },
        LogicalType::Float64 => {
            let mut v: Vec<u64> = Vec::new();
            while i < n
                invariant
                    0 <= i <= n,
                    p_col(bytes@, pos as int, LogicalType::Float64, i as int) == Option::Some(
                        (ColV::Float64Bits(v@), p as int),
                    ),
                decreases n - i,
            {
                match read_u64(bytes, p) {
                    None => {
                        proof {
                            lemma_p_col_fail(
                                bytes@,
                                pos as int,
                                LogicalType::Float64,
                                i as int,
                                n as int,
                            );
                        }
                        return None;
                    },
                    Some((w, p2)) => {
                        v.push(w);
                        p = p2;
                    },
                }
                i += 1;
            }
            Some((ColumnData::Float64Bits(v), p))
        },
        LogicalType::Utf8 => {
            let mut v: Vec<String> = Vec::new();
            proof {
                assert(v.deep_view() =~= Seq::<Seq<char>>::empty());
            }
            while i < n
                invariant
                    0 <= i <= n,
                    p_col(bytes@, pos as int, LogicalType::Utf8, i as int) == Option::Some(
                        (ColV::Utf8(v.deep_view()), p as int),
                    ),
                decreases n - i,
            {
                let ghost snap = v@;
                let ghost snapd = v.deep_view();
                match read_string(bytes, p) {
                    None => {
                        proof {
                            lemma_p_col_fail(
                                bytes@,
                                pos as int,
                                LogicalType::Utf8,
                                i as int,
                                n as int,
                            );
                        }
                        return None;
                    },
                    Some((w, p2)) => {
                        v.push(w);
                        p = p2;
                        proof {
                            assert(v.deep_view() =~= snapd.push(w@)) by {
                                assert forall|t: int|
                                    0 <= t < v.deep_view().len() implies #[trigger] v.deep_view()[
                                t] == snapd.push(w@)[t] by {
                                    assert(v.deep_view()[t] == v@[t]@);
                                    if t < snap.len() {
                                        assert(v@[t] == snap[t]);
                                        assert(snapd[t] == snap[t]@);
                                    }
                                }
                            }
                        }
                    },
                }
                i += 1;
            }
            Some((ColumnData::Utf8(v), p))
        },
        LogicalType::Boolean => {
            let mut v: Vec<bool> = Vec::new();
            while i < n
                invariant
                    0 <= i <= n,
                    p_col(bytes@, pos as int, LogicalType::Boolean, i as int) == Option::Some(
                        (ColV::Boolean(v@), p as int),
                    ),
                decreases n - i,
            {
                let fail = match read_u8(bytes, p) {
                    None => true,
                    Some((w, p2)) => {
                        if w <= 1 {
                            v.push(w == 1);
                            p = p2;
                            false
                        } else {
                            true
                        }
                    },
                };
                if fail {
                    proof {
                        lemma_p_col_fail(
                            bytes@,
                            pos as int,
                            LogicalType::Boolean,
                            i as int,
                            n as int,
                        );
                    }
                    return None;
                }
                i += 1;
            }
            Some((ColumnData::Boolean(v), p))
        },
    }
}

/// A parsed column has the asked-for type and exactly `n` cells.
proof fn lemma_p_col_props(b: Seq<u8>, pos: int, t: LogicalType, n: int)
    requires
        p_col(b, pos, t, n) is Some,
        n >= 0,
    ensures
        col_type(p_col(b, pos, t, n)->Some_0.0) == t,
        col_len(p_col(b, pos, t, n)->Some_0.0) == n,
    decreases n,
{
    if n > 0 {
        lemma_p_col_props(b, pos, t, n - 1);
    }
}

/// Decodes a frame from its byte encoding; any malformed run of bytes, or
/// one whose frame the machine cannot hold, is a `Compute` fault.
#[verifier::loop_isolation(false)]
pub fn decode(bytes: &Vec<u8>) -> (r: Result<Frame, ServiceError>)
    ensures
        match p_frame(bytes@) {
            Option::Some(v) => {
                if v.height <= usize::MAX {
                    r matches Ok(f) && f@ == v && f.wf()
                } else {
                    r matches Err(e) && e is Compute
                }
            },
            Option::None => r matches Err(e) && e is Compute,
        },
{
    let (w, p1) = match read_u64(bytes, 0) {
        None => {
            return Err(ServiceError::Compute);
        },
        Some(x) => x,
    };
    let (h, p2) = match read_u64(bytes, p1) {
        None => {
            return Err(ServiceError::Compute);
        },
        Some(x) => x,
    };
    let mut fields: Vec<Field> = Vec::new();
    let mut p: usize = p2;
    let mut i: u64 = 0;
    proof {
        assert(fields.deep_view() =~= Seq::<FieldV>::empty());
        assert(p_fields(bytes@, p2 as int, 0) == Option::Some((fields.deep_view(), p as int)));
    }
    while i < w
        invariant
            0 <= i <= w,
            p_fields(bytes@, p2 as int, i as int) == Option::Some(
                (fields.deep_view(), p as int),
            ),
            fields@.len() == i,
        decreases w - i,
    {
        let ghost snap = fields@;
        let ghost snapd = fields.deep_view();
        match read_field(bytes, p) {
            None => {
                proof {
                    lemma_p_fields_fail(bytes@, p2 as int, i as int, w as int);
                }
                return Err(ServiceError::Compute);
            },
            Some((f, pn)) => {
                fields.push(f);
                p = pn;
                proof {
                    assert(fields.deep_view() =~= snapd.push(f@)) by {
                        assert forall|t: int|
                            0 <= t < fields.deep_view().len() implies #[trigger] fields.deep_view()[
                        t] == snapd.push(f@)[t] by {
                            assert(fields.deep_view()[t] == fields@[t]@);
                            if t < snap.len() {
                                assert(fields@[t] == snap[t]);
                                assert(snapd[t] == snap[t]@);
                            }
                        }
                    }
                }
            },
        }
        i += 1;
    }
    let ghost fsv = fields.deep_view();
    let p3 = p;
    let mut columns: Vec<ColumnData> = Vec::new();
    let mut j: u64 = 0;
    proof {
        assert(columns.deep_view() =~= Seq::<crate::frame::ColV>::empty());
        assert(p_cols(bytes@, p3 as int, fsv, h as int, 0) == Option::Some(
            (columns.deep_view(), p as int),
        ));
    }
    while j < w
        invariant
            0 <= j <= w,
            fields@.len() == w,
            fields.deep_view() == fsv,
            p_cols(bytes@, p3 as int, fsv, h as int, j as int) == Option::Some(
                (columns.deep_view(), p as int),
            ),
            columns@.len() == j,
            forall|t: int|
                0 <= t < j ==> col_type(#[trigger] columns.deep_view()[t]) == fsv[t].dtype
                    && col_len(columns.deep_view()[t]) == h,
        decreases w - j,
    {
        let ghost snap = columns@;
        let ghost snapd = columns.deep_view();
        let dt = fields[j as usize].dtype;
        proof {
            assert(fsv[j as int] == fields@[j as int]@);
        }
        match read_col(bytes, p, dt, h) {
            None => {
                proof {
                    lemma_p_cols_fail(bytes@, p3 as int, fsv, h as int, j as int, w as int);
                }
                return Err(ServiceError::Compute);
            },
            Some((c, pn)) => {
                proof {
                    lemma_p_col_props(bytes@, p as int, dt, h as int);
                }
                columns.push(c);
                p = pn;
                proof {
                    assert(columns.deep_view() =~= snapd.push(c@)) by {
                        assert forall|t: int|
                            0 <= t < columns.deep_view().len() implies #[trigger] columns.deep_view()[
                        t] == snapd.push(c@)[t] by {
                            assert(columns.deep_view()[t] == columns@[t]@);
                            if t < snap.len() {
                                assert(columns@[t] == snap[t]);
                                assert(snapd[t] == snap[t]@);
                            }
                        }
                    }
                }
            },
        }
        j += 1;
    }
    if p != bytes.len() {
        return Err(ServiceError::Compute);
    }
    if h > usize::MAX as u64 {
        return Err(ServiceError::Compute);
    }
    let f = Frame { fields, columns, height: h as usize };
    proof {
        assert(f.wf());
        assert(f@ == p_frame(bytes@)->Some_0);
    }
    Ok(f)
}

} // verus!
