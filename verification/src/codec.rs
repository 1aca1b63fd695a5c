//! The byte encoding used to persist a table.
//!
//! The format is deterministic and order-preserving (all integers are
//! little-endian):
//! - table: the column count as a `u64`, the columns, the row count as a
//!   `u64`, the rows;
//! - column: the name as a string, then one tag byte for the type;
//! - row: one value per column (the width is the column count);
//! - value: one tag byte, then the payload; text is a string, the two
//!   floating-point kinds are their raw bit patterns;
//! - string: the UTF-8 byte length as a `u64`, then the UTF-8 bytes.
//!
//! Decoding rejects trailing bytes. [`lemma_encode_decode_round_trip`] states
//! the round-trip law: decoding an encoded table yields the table back.

use vstd::bytes::*;
use vstd::prelude::*;
use vstd::slice::{slice_subrange, slice_to_vec};
use vstd::string::{StrSliceExecFns, StringExecFns};
use vstd::utf8::{
    decode_utf8, encode_utf8, encode_utf8_decode_utf8, encode_utf8_valid_utf8, valid_utf8,
};

use crate::engine::{cols_model, row_model, rows_model, Db, DbModel, LoadDbError, LoadDbErrorKind};
use crate::{Column, ColumnModel, Data, DataModel, Type};

verus! {

pub const TAG_INT32: u8 = 0;

pub const TAG_INT64: u8 = 1;

pub const TAG_FLOAT32: u8 = 2;

pub const TAG_FLOAT64: u8 = 3;

pub const TAG_TEXT: u8 = 4;

pub const TAG_NULL: u8 = 5;

/// The tag byte a type is stored as.
pub open spec fn tag_of_type(t: Type) -> u8 {
    match t {
        Type::Int32 => TAG_INT32,
        Type::Int64 => TAG_INT64,
        Type::Float32 => TAG_FLOAT32,
        Type::Float64 => TAG_FLOAT64,
        Type::Text => TAG_TEXT,
    }
}

/// The type a tag byte stands for, if any.
pub open spec fn type_of_tag(b: u8) -> Option<Type> {
    if b == TAG_INT32 {
        Some(Type::Int32)
    } else if b == TAG_INT64 {
        Some(Type::Int64)
    } else if b == TAG_FLOAT32 {
        Some(Type::Float32)
    } else if b == TAG_FLOAT64 {
        Some(Type::Float64)
    } else if b == TAG_TEXT {
        Some(Type::Text)
    } else {
        None
    }
}

/// The encoding of a string: its UTF-8 byte length, then its UTF-8 bytes.
pub open spec fn spec_enc_str(s: Seq<char>) -> Seq<u8> {
    spec_u64_to_le_bytes(encode_utf8(s).len() as u64) + encode_utf8(s)
}

/// The encoding of a column: its name, then its type tag.
pub open spec fn spec_enc_column(c: ColumnModel) -> Seq<u8> {
    spec_enc_str(c.name) + seq![tag_of_type(c.ty)]
}

/// The encodings of the columns, in order.
pub open spec fn spec_enc_columns(cs: Seq<ColumnModel>) -> Seq<u8>
    decreases cs.len(),
{
    if cs.len() == 0 {
        Seq::empty()
    } else {
        spec_enc_column(cs[0]) + spec_enc_columns(cs.drop_first())
    }
}

/// The encoding of a value: its tag byte, then its payload.
pub open spec fn spec_enc_data(d: DataModel) -> Seq<u8> {
    match d {
        DataModel::Int32(x) => seq![TAG_INT32] + spec_u32_to_le_bytes(x as u32),
        DataModel::Int64(x) => seq![TAG_INT64] + spec_u64_to_le_bytes(x as u64),
        DataModel::Float32(bits) => seq![TAG_FLOAT32] + spec_u32_to_le_bytes(bits),
        DataModel::Float64(bits) => seq![TAG_FLOAT64] + spec_u64_to_le_bytes(bits),
        DataModel::Text(s) => seq![TAG_TEXT] + spec_enc_str(s),
        DataModel::Null => seq![TAG_NULL],
    }
}

/// The encodings of a row's values, in order.
pub open spec fn spec_enc_row(vals: Seq<DataModel>) -> Seq<u8>
    decreases vals.len(),
{
    if vals.len() == 0 {
        Seq::empty()
    } else {
        spec_enc_data(vals[0]) + spec_enc_row(vals.drop_first())
    }
}

/// The encodings of the rows, in order.
pub open spec fn spec_enc_rows(rs: Seq<Seq<DataModel>>) -> Seq<u8>
    decreases rs.len(),
{
    if rs.len() == 0 {
        Seq::empty()
    } else {
        spec_enc_row(rs[0]) + spec_enc_rows(rs.drop_first())
    }
}

/// The encoding of a whole table.
pub open spec fn spec_enc_db(m: DbModel) -> Seq<u8> {
    spec_u64_to_le_bytes(m.columns.len() as u64) + spec_enc_columns(m.columns)
        + spec_u64_to_le_bytes(m.rows.len() as u64) + spec_enc_rows(m.rows)
}

/// A string short enough that its byte length fits the machine's sizes.
pub open spec fn str_fits(s: Seq<char>) -> bool {
    encode_utf8(s).len() <= usize::MAX
}

/// A value short enough to encode on this machine.
pub open spec fn data_fits(d: DataModel) -> bool {
    match d {
        DataModel::Text(s) => str_fits(s),
        _ => true,
    }
}

/// The shape invariant, stated over the model.
pub open spec fn model_wf(m: DbModel) -> bool {
    forall|j: int| 0 <= j < m.rows.len() ==> (#[trigger] m.rows[j]).len() == m.columns.len()
}

/// Dimension bounds under which the encoding is faithful: counts and every
/// string's byte length fit the machine's sizes. Any table held in memory
/// meets them.
pub open spec fn encodable(m: DbModel) -> bool {
    &&& m.columns.len() <= usize::MAX
    &&& m.rows.len() <= usize::MAX
    &&& forall|i: int| 0 <= i < m.columns.len() ==> str_fits((#[trigger] m.columns[i]).name)
    &&& forall|j: int, i: int|
        0 <= j < m.rows.len() && 0 <= i < m.rows[j].len() ==> data_fits(#[trigger] m.rows[j][i])
}

/// Reading a `u64` at position `p`.
pub open spec fn spec_dec_u64(b: Seq<u8>, p: int) -> Option<(u64, int)> {
    if 0 <= p && p + 8 <= b.len() {
        Some((spec_u64_from_le_bytes(b.subrange(p, p + 8)), p + 8))
    } else {
        None
    }
}

/// Reading a `u32` at position `p`.
pub open spec fn spec_dec_u32(b: Seq<u8>, p: int) -> Option<(u32, int)> {
    if 0 <= p && p + 4 <= b.len() {
        Some((spec_u32_from_le_bytes(b.subrange(p, p + 4)), p + 4))
    } else {
        None
    }
}

/// Reading one byte at position `p`.
pub open spec fn spec_dec_u8(b: Seq<u8>, p: int) -> Option<(u8, int)> {
    if 0 <= p && p + 1 <= b.len() {
        Some((b[p], p + 1))
    } else {
        None
    }
}

/// Reading a string at position `p`: its byte length, then that many bytes,
/// which must be valid UTF-8.
pub open spec fn spec_dec_str(b: Seq<u8>, p: int) -> Option<(Seq<char>, int)> {
    match spec_dec_u64(b, p) {
        Some(r0) => {
            let n = r0.0 as int;
            let p1 = r0.1;
            if p1 + n <= b.len() {
                let body = b.subrange(p1, p1 + n);
                if valid_utf8(body) {
                    Some((decode_utf8(body), p1 + n))
                } else {
                    None
                }
            } else {
                None
            }
        },
        None => None,
    }
}

/// Reading a type tag at position `p`.
pub open spec fn spec_dec_type(b: Seq<u8>, p: int) -> Option<(Type, int)> {
    match spec_dec_u8(b, p) {
        Some(r0) => match type_of_tag(r0.0) {
            Some(t) => Some((t, r0.1)),
            None => None,
        },
        None => None,
    }
}

/// Reading a column at position `p`.
pub open spec fn spec_dec_column(b: Seq<u8>, p: int) -> Option<(ColumnModel, int)> {
    match spec_dec_str(b, p) {
        Some(r0) => match spec_dec_type(b, r0.1) {
            Some(r1) => Some(((ColumnModel { name: r0.0, ty: r1.0 }), r1.1)),
            None => None,
        },
        None => None,
    }
}

/// Reading `n` columns at position `p`.
pub open spec fn spec_dec_columns(b: Seq<u8>, p: int, n: nat) -> Option<(Seq<ColumnModel>, int)>
    decreases n,
{
    if n == 0 {
        Some((Seq::empty(), p))
    } else {
        match spec_dec_column(b, p) {
            Some(r0) => match spec_dec_columns(b, r0.1, (n - 1) as nat) {
                Some(r1) => Some((seq![r0.0] + r1.0, r1.1)),
                None => None,
            },
            None => None,
        }
    }
}

/// Reading one value at position `p`.
pub open spec fn spec_dec_data(b: Seq<u8>, p: int) -> Option<(DataModel, int)> {
    match spec_dec_u8(b, p) {
        Some(r0) => {
            let tag = r0.0;
            let p1 = r0.1;
            if tag == TAG_INT32 {
                match spec_dec_u32(b, p1) {
                    Some(r1) => Some((DataModel::Int32(r1.0 as i32), r1.1)),
                    None => None,
                }
            } else if tag == TAG_INT64 {
                match spec_dec_u64(b, p1) {
                    Some(r1) => Some((DataModel::Int64(r1.0 as i64), r1.1)),
                    None => None,
                }
            } else if tag == TAG_FLOAT32 {
                match spec_dec_u32(b, p1) {
                    Some(r1) => Some((DataModel::Float32(r1.0), r1.1)),
                    None => None,
                }
            } else if tag == TAG_FLOAT64 {
                match spec_dec_u64(b, p1) {
                    Some(r1) => Some((DataModel::Float64(r1.0), r1.1)),
                    None => None,
                }
            } else if tag == TAG_TEXT {
                match spec_dec_str(b, p1) {
                    Some(r1) => Some((DataModel::Text(r1.0), r1.1)),
                    None => None,
                }
            } else if tag == TAG_NULL {
                Some((DataModel::Null, p1))
            } else {
                None
            }
        },
        None => None,
    }
}

/// Reading a row of `width` values at position `p`.
pub open spec fn spec_dec_row(b: Seq<u8>, p: int, width: nat) -> Option<(Seq<DataModel>, int)>
    decreases width,
{
    if width == 0 {
        Some((Seq::empty(), p))
    } else {
        match spec_dec_data(b, p) {
            Some(r0) => match spec_dec_row(b, r0.1, (width - 1) as nat) {
                Some(r1) => Some((seq![r0.0] + r1.0, r1.1)),
                None => None,
            },
            None => None,
        }
    }
}

/// Reading `n` rows of `width` values each at position `p`.
pub open spec fn spec_dec_rows(b: Seq<u8>, p: int, n: nat, width: nat) -> Option<
    (Seq<Seq<DataModel>>, int),
>
    decreases n,
{
    if n == 0 {
        Some((Seq::empty(), p))
    } else {
        match spec_dec_row(b, p, width) {
            Some(r0) => match spec_dec_rows(b, r0.1, (n - 1) as nat, width) {
                Some(r1) => Some((seq![r0.0] + r1.0, r1.1)),
                None => None,
            },
            None => None,
        }
    }
}

/// Reading a whole table: counts and contents, with no trailing bytes.
pub open spec fn spec_dec_db(b: Seq<u8>) -> Option<DbModel> {
    match spec_dec_u64(b, 0) {
        Some(r0) => match spec_dec_columns(b, r0.1, r0.0 as nat) {
            Some(r1) => match spec_dec_u64(b, r1.1) {
                Some(r2) => match spec_dec_rows(b, r2.1, r2.0 as nat, r0.0 as nat) {
                    Some(r3) => if r3.1 == b.len() {
                        Some((DbModel { columns: r1.0, rows: r3.0 }))
                    } else {
                        None
                    },
                    None => None,
                },
                None => None,
            },
            None => None,
        },
        None => None,
    }
}

/// A subrange equal to a concatenation splits into subranges equal to the parts.
proof fn lemma_subrange_split(b: Seq<u8>, p: int, e1: Seq<u8>, e2: Seq<u8>)
    requires
        0 <= p,
        p + e1.len() + e2.len() <= b.len(),
        b.subrange(p, p + e1.len() + e2.len()) == e1 + e2,
    ensures
        b.subrange(p, p + e1.len()) == e1,
        b.subrange(p + e1.len(), p + e1.len() + e2.len()) == e2,
{
    assert forall|k: int| 0 <= k < e1.len() implies b.subrange(p, p + e1.len() as int)[k]
        == e1[k] by {
        assert(b.subrange(p, p + e1.len() + e2.len() as int)[k] == (e1 + e2)[k]);
    }
    assert(b.subrange(p, p + e1.len() as int) =~= e1);
    assert forall|k: int| 0 <= k < e2.len() implies b.subrange(
        p + e1.len(),
        p + e1.len() + e2.len() as int,
    )[k] == e2[k] by {
        assert(b.subrange(p + e1.len(), p + e1.len() + e2.len() as int)[k] == b[p + e1.len() + k]);
        assert(b.subrange(p, p + e1.len() + e2.len() as int)[e1.len() + k] == b[p + e1.len() + k]);
        assert(b.subrange(p, p + e1.len() + e2.len() as int)[e1.len() + k] == (e1 + e2)[e1.len()
            + k]);
        assert((e1 + e2)[e1.len() + k] == e2[k]);
    }
    assert(b.subrange(p + e1.len(), p + e1.len() + e2.len() as int) =~= e2);
}

/// The bytes of `e` stand in `b` at position `p`.
pub open spec fn holds_at(b: Seq<u8>, p: int, e: Seq<u8>) -> bool {
    &&& 0 <= p
    &&& p + e.len() <= b.len()
    &&& b.subrange(p, p + e.len()) == e
}

/// A concatenation standing at `p` splits into its parts.
proof fn lemma_holds_at_split(b: Seq<u8>, p: int, e1: Seq<u8>, e2: Seq<u8>)
    requires
        holds_at(b, p, e1 + e2),
    ensures
        holds_at(b, p, e1),
        holds_at(b, p + e1.len(), e2),
{
    lemma_subrange_split(b, p, e1, e2);
}

proof fn lemma_dec_u64_prefix(x: u64, b: Seq<u8>, p: int)
    requires
        holds_at(b, p, spec_u64_to_le_bytes(x)),
    ensures
        spec_dec_u64(b, p) == Some((x, p + 8)),
{
    lemma_auto_spec_u64_to_from_le_bytes();
}

proof fn lemma_dec_u32_prefix(x: u32, b: Seq<u8>, p: int)
    requires
        holds_at(b, p, spec_u32_to_le_bytes(x)),
    ensures
        spec_dec_u32(b, p) == Some((x, p + 4)),
{
    lemma_auto_spec_u32_to_from_le_bytes();
}

proof fn lemma_dec_str_prefix(s: Seq<char>, b: Seq<u8>, p: int)
    requires
        holds_at(b, p, spec_enc_str(s)),
        str_fits(s),
    ensures
        spec_dec_str(b, p) == Some((s, p + spec_enc_str(s).len())),
{
    let eb = encode_utf8(s);
    let lenb = spec_u64_to_le_bytes(eb.len() as u64);
    lemma_auto_spec_u64_to_from_le_bytes();
    lemma_holds_at_split(b, p, lenb, eb);
    lemma_dec_u64_prefix(eb.len() as u64, b, p);
    encode_utf8_valid_utf8(s);
    encode_utf8_decode_utf8(s);
    assert(b.subrange(p + 8, p + 8 + eb.len() as int) == eb);
    assert(decode_utf8(eb) == s);
}

proof fn lemma_dec_type_prefix(t: Type, b: Seq<u8>, p: int)
    requires
        holds_at(b, p, seq![tag_of_type(t)]),
    ensures
        spec_dec_type(b, p) == Some((t, p + 1)),
{
    assert(b.subrange(p, p + 1)[0] == tag_of_type(t));
    assert(b[p] == tag_of_type(t));
}

proof fn lemma_dec_column_prefix(c: ColumnModel, b: Seq<u8>, p: int)
    requires
        holds_at(b, p, spec_enc_column(c)),
        str_fits(c.name),
    ensures
        spec_dec_column(b, p) == Some((c, p + spec_enc_column(c).len())),
{
    let e1 = spec_enc_str(c.name);
    let e2 = seq![tag_of_type(c.ty)];
    lemma_holds_at_split(b, p, e1, e2);
    lemma_dec_str_prefix(c.name, b, p);
    lemma_dec_type_prefix(c.ty, b, p + e1.len());
    assert((ColumnModel { name: c.name, ty: c.ty }) =~= c);
}

proof fn lemma_dec_data_prefix(d: DataModel, b: Seq<u8>, p: int)
    requires
        holds_at(b, p, spec_enc_data(d)),
        data_fits(d),
    ensures
        spec_dec_data(b, p) == Some((d, p + spec_enc_data(d).len())),
{
    lemma_auto_spec_u32_to_from_le_bytes();
    lemma_auto_spec_u64_to_from_le_bytes();
    match d {
        DataModel::Int32(x) => {
            lemma_holds_at_split(b, p, seq![TAG_INT32], spec_u32_to_le_bytes(x as u32));
            assert(b[p] == TAG_INT32) by {
                assert(b.subrange(p, p + 1)[0] == seq![TAG_INT32][0]);
            }
            lemma_dec_u32_prefix(x as u32, b, p + 1);
            assert(((x as u32) as i32) == x) by (bit_vector);
        },
        DataModel::Int64(x) => {
            lemma_holds_at_split(b, p, seq![TAG_INT64], spec_u64_to_le_bytes(x as u64));
            assert(b[p] == TAG_INT64) by {
                assert(b.subrange(p, p + 1)[0] == seq![TAG_INT64][0]);
            }
            lemma_dec_u64_prefix(x as u64, b, p + 1);
            assert(((x as u64) as i64) == x) by (bit_vector);
        },
        DataModel::Float32(bits) => {
            lemma_holds_at_split(b, p, seq![TAG_FLOAT32], spec_u32_to_le_bytes(bits));
            assert(b[p] == TAG_FLOAT32) by {
                assert(b.subrange(p, p + 1)[0] == seq![TAG_FLOAT32][0]);
            }
            lemma_dec_u32_prefix(bits, b, p + 1);
        },
        DataModel::Float64(bits) => {
            lemma_holds_at_split(b, p, seq![TAG_FLOAT64], spec_u64_to_le_bytes(bits));
            assert(b[p] == TAG_FLOAT64) by {
                assert(b.subrange(p, p + 1)[0] == seq![TAG_FLOAT64][0]);
            }
            lemma_dec_u64_prefix(bits, b, p + 1);
        },
        DataModel::Text(s) => {
            lemma_holds_at_split(b, p, seq![TAG_TEXT], spec_enc_str(s));
            assert(b[p] == TAG_TEXT) by {
                assert(b.subrange(p, p + 1)[0] == seq![TAG_TEXT][0]);
            }
            lemma_dec_str_prefix(s, b, p + 1);
        },
        DataModel::Null => {
            assert(b[p] == TAG_NULL) by {
                assert(b.subrange(p, p + 1)[0] == seq![TAG_NULL][0]);
            }
        },
    }
}

proof fn lemma_dec_columns_prefix(cs: Seq<ColumnModel>, b: Seq<u8>, p: int)
    requires
        holds_at(b, p, spec_enc_columns(cs)),
        forall|i: int| 0 <= i < cs.len() ==> str_fits((#[trigger] cs[i]).name),
    ensures
        spec_dec_columns(b, p, cs.len()) == Some((cs, p + spec_enc_columns(cs).len())),
    decreases cs.len(),
{
    if cs.len() == 0 {
        assert(cs =~= Seq::<ColumnModel>::empty());
    } else {
        let e0 = spec_enc_column(cs[0]);
        let erest = spec_enc_columns(cs.drop_first());
        lemma_holds_at_split(b, p, e0, erest);
        lemma_dec_column_prefix(cs[0], b, p);
        assert(forall|i: int|
            0 <= i < cs.drop_first().len() ==> str_fits((#[trigger] cs.drop_first()[i]).name));
        lemma_dec_columns_prefix(cs.drop_first(), b, p + e0.len());
        assert(seq![cs[0]] + cs.drop_first() =~= cs);
    }
}

proof fn lemma_dec_row_prefix(vals: Seq<DataModel>, b: Seq<u8>, p: int)
    requires
        holds_at(b, p, spec_enc_row(vals)),
        forall|i: int| 0 <= i < vals.len() ==> data_fits(#[trigger] vals[i]),
    ensures
        spec_dec_row(b, p, vals.len()) == Some((vals, p + spec_enc_row(vals).len())),
    decreases vals.len(),
{
    if vals.len() == 0 {
        assert(vals =~= Seq::<DataModel>::empty());
    } else {
        let e0 = spec_enc_data(vals[0]);
        let erest = spec_enc_row(vals.drop_first());
        lemma_holds_at_split(b, p, e0, erest);
        lemma_dec_data_prefix(vals[0], b, p);
        assert(forall|i: int|
            0 <= i < vals.drop_first().len() ==> data_fits(#[trigger] vals.drop_first()[i]));
        lemma_dec_row_prefix(vals.drop_first(), b, p + e0.len());
        assert(seq![vals[0]] + vals.drop_first() =~= vals);
    }
}

proof fn lemma_dec_rows_prefix(rs: Seq<Seq<DataModel>>, width: nat, b: Seq<u8>, p: int)
    requires
        holds_at(b, p, spec_enc_rows(rs)),
        forall|j: int| 0 <= j < rs.len() ==> (#[trigger] rs[j]).len() == width,
        forall|j: int, i: int|
            0 <= j < rs.len() && 0 <= i < rs[j].len() ==> data_fits(#[trigger] rs[j][i]),
    ensures
        spec_dec_rows(b, p, rs.len(), width) == Some((rs, p + spec_enc_rows(rs).len())),
    decreases rs.len(),
{
    if rs.len() == 0 {
        assert(rs =~= Seq::<Seq<DataModel>>::empty());
    } else {
        let e0 = spec_enc_row(rs[0]);
        let erest = spec_enc_rows(rs.drop_first());
        lemma_holds_at_split(b, p, e0, erest);
        assert(forall|i: int| 0 <= i < rs[0].len() ==> data_fits(#[trigger] rs[0][i]));
        lemma_dec_row_prefix(rs[0], b, p);
        assert(forall|j: int|
            0 <= j < rs.drop_first().len() ==> (#[trigger] rs.drop_first()[j]).len() == width);
        assert forall|j: int, i: int|
            0 <= j < rs.drop_first().len() && 0 <= i < rs.drop_first()[j].len() implies data_fits(
            #[trigger] rs.drop_first()[j][i],
        ) by {
            assert(rs.drop_first()[j] == rs[j + 1]);
        }
        lemma_dec_rows_prefix(rs.drop_first(), width, b, p + e0.len());
        assert(seq![rs[0]] + rs.drop_first() =~= rs);
    }
}

proof fn lemma_enc_columns_take_step(cs: Seq<ColumnModel>, i: int)
    requires
        0 <= i < cs.len(),
    ensures
        spec_enc_columns(cs.take(i + 1)) == spec_enc_columns(cs.take(i)) + spec_enc_column(cs[i]),
    decreases i,
{
    if i == 0 {
        assert(cs.take(1).drop_first() =~= Seq::<ColumnModel>::empty());
        assert(cs.take(0) =~= Seq::<ColumnModel>::empty());
        assert(spec_enc_columns(cs.take(1)) =~= spec_enc_columns(cs.take(0)) + spec_enc_column(
            cs[0],
        ));
    } else {
        lemma_enc_columns_take_step(cs.drop_first(), i - 1);
        assert(cs.take(i + 1).drop_first() =~= cs.drop_first().take(i));
        assert(cs.take(i).drop_first() =~= cs.drop_first().take(i - 1));
        assert(cs.take(i + 1)[0] == cs[0]);
        assert(cs.take(i)[0] == cs[0]);
        assert(cs.drop_first()[i - 1] == cs[i]);
        assert(spec_enc_columns(cs.take(i + 1)) =~= spec_enc_columns(cs.take(i))
            + spec_enc_column(cs[i]));
    }
}

proof fn lemma_enc_row_take_step(vals: Seq<DataModel>, i: int)
    requires
        0 <= i < vals.len(),
    ensures
        spec_enc_row(vals.take(i + 1)) == spec_enc_row(vals.take(i)) + spec_enc_data(vals[i]),
    decreases i,
{
    if i == 0 {
        assert(vals.take(1).drop_first() =~= Seq::<DataModel>::empty());
        assert(vals.take(0) =~= Seq::<DataModel>::empty());
        assert(spec_enc_row(vals.take(1)) =~= spec_enc_row(vals.take(0)) + spec_enc_data(
            vals[0],
        ));
    } else {
        lemma_enc_row_take_step(vals.drop_first(), i - 1);
        assert(vals.take(i + 1).drop_first() =~= vals.drop_first().take(i));
        assert(vals.take(i).drop_first() =~= vals.drop_first().take(i - 1));
        assert(vals.take(i + 1)[0] == vals[0]);
        assert(vals.take(i)[0] == vals[0]);
        assert(vals.drop_first()[i - 1] == vals[i]);
        assert(spec_enc_row(vals.take(i + 1)) =~= spec_enc_row(vals.take(i)) + spec_enc_data(
            vals[i],
        ));
    }
}

proof fn lemma_enc_rows_take_step(rs: Seq<Seq<DataModel>>, i: int)
    requires
        0 <= i < rs.len(),
    ensures
        spec_enc_rows(rs.take(i + 1)) == spec_enc_rows(rs.take(i)) + spec_enc_row(rs[i]),
    decreases i,
{
    if i == 0 {
        assert(rs.take(1).drop_first() =~= Seq::<Seq<DataModel>>::empty());
        assert(rs.take(0) =~= Seq::<Seq<DataModel>>::empty());
        assert(spec_enc_rows(rs.take(1)) =~= spec_enc_rows(rs.take(0)) + spec_enc_row(rs[0]));
    } else {
        lemma_enc_rows_take_step(rs.drop_first(), i - 1);
        assert(rs.take(i + 1).drop_first() =~= rs.drop_first().take(i));
        assert(rs.take(i).drop_first() =~= rs.drop_first().take(i - 1));
        assert(rs.take(i + 1)[0] == rs[0]);
        assert(rs.take(i)[0] == rs[0]);
        assert(rs.drop_first()[i - 1] == rs[i]);
        assert(spec_enc_rows(rs.take(i + 1)) =~= spec_enc_rows(rs.take(i)) + spec_enc_row(rs[i]));
    }
}

fn push_u64(out: &mut Vec<u8>, x: u64)
    ensures
        final(out)@ == old(out)@ + spec_u64_to_le_bytes(x),
{
    let mut s = u64_to_le_bytes(x);
    out.append(&mut s);
}

fn push_u32(out: &mut Vec<u8>, x: u32)
    ensures
        final(out)@ == old(out)@ + spec_u32_to_le_bytes(x),
{
    let mut s = u32_to_le_bytes(x);
    out.append(&mut s);
}

fn push_str(out: &mut Vec<u8>, s: &str)
    requires
        str_fits(s@),
    ensures
        final(out)@ == old(out)@ + spec_enc_str(s@),
{
    let n = s.len();
    push_u64(out, n as u64);
    let mut bv = s.as_bytes_vec();
    out.append(&mut bv);
    proof {
        assert(out@ =~= old(out)@ + spec_enc_str(s@));
    }
}

fn push_data(out: &mut Vec<u8>, d: &Data)
    requires
        data_fits(d@),
    ensures
        final(out)@ == old(out)@ + spec_enc_data(d@),
{
    match d {
        Data::Int32(x) => {
            out.push(TAG_INT32);
            push_u32(out, *x as u32);
            proof {
                assert(out@ =~= old(out)@ + spec_enc_data(d@));
            }
        },
        Data::Int64(x) => {
            out.push(TAG_INT64);
            push_u64(out, *x as u64);
            proof {
                assert(out@ =~= old(out)@ + spec_enc_data(d@));
            }
        },
        Data::Float32(bits) => {
            out.push(TAG_FLOAT32);
            push_u32(out, *bits);
            proof {
                assert(out@ =~= old(out)@ + spec_enc_data(d@));
            }
        },
        Data::Float64(bits) => {
            out.push(TAG_FLOAT64);
            push_u64(out, *bits);
            proof {
                assert(out@ =~= old(out)@ + spec_enc_data(d@));
            }
        },
        Data::Text(s) => {
            out.push(TAG_TEXT);
            push_str(out, s.as_str());
            proof {
                assert(out@ =~= old(out)@ + spec_enc_data(d@));
            }
        },
        Data::Null => {
            out.push(TAG_NULL);
            proof {
                assert(out@ =~= old(out)@ + spec_enc_data(d@));
            }
        },
    }
}

fn push_column(out: &mut Vec<u8>, c: &Column)
    requires
        str_fits(c@.name),
    ensures
        final(out)@ == old(out)@ + spec_enc_column(c@),
{
    push_str(out, c.name.as_str());
    let tag: u8 = match c.ty_restriction {
        Type::Int32 => TAG_INT32,
        Type::Int64 => TAG_INT64,
        Type::Float32 => TAG_FLOAT32,
        Type::Float64 => TAG_FLOAT64,
        Type::Text => TAG_TEXT,
    };
    out.push(tag);
    proof {
        assert(out@ =~= old(out)@ + spec_enc_column(c@));
    }
}

fn push_row(out: &mut Vec<u8>, row: &Vec<Data>)
    requires
        forall|i: int| 0 <= i < row@.len() ==> data_fits((#[trigger] row@[i])@),
    ensures
        final(out)@ == old(out)@ + spec_enc_row(row_model(row@)),
{
    let ghost vals = row_model(row@);
    let mut k: usize = 0;
    while k < row.len()
        invariant
            vals == row_model(row@),
            forall|i: int| 0 <= i < row@.len() ==> data_fits((#[trigger] row@[i])@),
            k <= vals.len(),
            out@ == old(out)@ + spec_enc_row(vals.take(k as int)),
        decreases vals.len() - k,
    {
        push_data(out, &row[k]);
        proof {
            lemma_enc_row_take_step(vals, k as int);
            assert(out@ =~= old(out)@ + spec_enc_row(vals.take(k as int + 1)));
        }
        k += 1;
    }
    proof {
        assert(vals.take(vals.len() as int) =~= vals);
    }
}

impl Db {
    /// Encodes the table to bytes. Deterministic and order-preserving; see
    /// the module documentation for the layout.
    pub fn encode(&self) -> (out: Vec<u8>)
        requires
            self.wf(),
            encodable(self@),
        ensures
            out@ == spec_enc_db(self@),
    {
        let mut out: Vec<u8> = Vec::new();
        let ghost e1 = spec_u64_to_le_bytes(self@.columns.len() as u64);
        let ghost e2 = spec_enc_columns(self@.columns);
        let ghost e3 = spec_u64_to_le_bytes(self@.rows.len() as u64);
        push_u64(&mut out, self.columns.len() as u64);
        let n = self.columns.len();
        let mut i: usize = 0;
        while i < n
            invariant
                self.wf(),
                encodable(self@),
                e1 == spec_u64_to_le_bytes(self@.columns.len() as u64),
                n == self.columns@.len(),
                i <= n,
                out@ == e1 + spec_enc_columns(self@.columns.take(i as int)),
            decreases n - i,
        {
            proof {
                assert(self@.columns[i as int] == self.columns@[i as int]@);
            }
            push_column(&mut out, &self.columns[i]);
            proof {
                lemma_enc_columns_take_step(self@.columns, i as int);
                assert(out@ =~= e1 + spec_enc_columns(self@.columns.take(i as int + 1)));
            }
            i += 1;
        }
        proof {
            assert(self@.columns.take(self@.columns.len() as int) =~= self@.columns);
        }
        push_u64(&mut out, self.rows.len() as u64);
        let m = self.rows.len();
        let mut j: usize = 0;
        while j < m
            invariant
                self.wf(),
                encodable(self@),
                e1 == spec_u64_to_le_bytes(self@.columns.len() as u64),
                e2 == spec_enc_columns(self@.columns),
                e3 == spec_u64_to_le_bytes(self@.rows.len() as u64),
                m == self.rows@.len(),
                j <= m,
                out@ == e1 + e2 + e3 + spec_enc_rows(self@.rows.take(j as int)),
            decreases m - j,
        {
            proof {
                assert(self@.rows[j as int] == row_model(self.rows@[j as int]@));
                assert forall|i2: int| 0 <= i2 < self.rows@[j as int]@.len() implies data_fits(
                    (#[trigger] self.rows@[j as int]@[i2])@,
                ) by {
                    assert(self@.rows[j as int][i2] == self.rows@[j as int]@[i2]@);
                    assert(data_fits(self@.rows[j as int][i2]));
                }
            }
            push_row(&mut out, &self.rows[j]);
            proof {
                lemma_enc_rows_take_step(self@.rows, j as int);
                assert(out@ =~= e1 + e2 + e3 + spec_enc_rows(self@.rows.take(j as int + 1)));
            }
            j += 1;
        }
        proof {
            assert(self@.rows.take(self@.rows.len() as int) =~= self@.rows);
            assert(out@ =~= spec_enc_db(self@));
        }
        out
    }
}

/// Relies on `String::from_utf8`: it accepts exactly the byte sequences that
/// are valid UTF-8, and an accepted string's UTF-8 bytes are the input bytes
/// unchanged.
#[verifier::external_body]
fn string_from_utf8(v: Vec<u8>) -> (r: Option<String>)
    ensures
        r is Some <==> valid_utf8(v@),
        r matches Some(s) ==> encode_utf8(s@) == v@,
{
    String::from_utf8(v).ok()
}

fn read_u8(bytes: &Vec<u8>, pos: &mut usize) -> (r: Option<u8>)
    requires
        *old(pos) <= bytes@.len(),
    ensures
        match r {
            Some(x) => {
                &&& spec_dec_u8(bytes@, *old(pos) as int) == Some((x, *final(pos) as int))
                &&& *final(pos) <= bytes@.len()
            },
            None => spec_dec_u8(bytes@, *old(pos) as int) is None,
        },
{
    if *pos < bytes.len() {
        let x = bytes[*pos];
        *pos = *pos + 1;
        Some(x)
    } else {
        None
    }
}

fn read_u32(bytes: &Vec<u8>, pos: &mut usize) -> (r: Option<u32>)
    requires
        *old(pos) <= bytes@.len(),
    ensures
        match r {
            Some(x) => {
                &&& spec_dec_u32(bytes@, *old(pos) as int) == Some((x, *final(pos) as int))
                &&& *final(pos) <= bytes@.len()
            },
            None => spec_dec_u32(bytes@, *old(pos) as int) is None,
        },
{
    if bytes.len() - *pos >= 4 {
        let s = slice_subrange(bytes.as_slice(), *pos, *pos + 4);
        let x = u32_from_le_bytes(s);
        *pos = *pos + 4;
        Some(x)
    } else {
        None
    }
}

fn read_u64(bytes: &Vec<u8>, pos: &mut usize) -> (r: Option<u64>)
    requires
        *old(pos) <= bytes@.len(),
    ensures
        match r {
            Some(x) => {
                &&& spec_dec_u64(bytes@, *old(pos) as int) == Some((x, *final(pos) as int))
                &&& *final(pos) <= bytes@.len()
            },
            None => spec_dec_u64(bytes@, *old(pos) as int) is None,
        },
{
    if bytes.len() - *pos >= 8 {
        let s = slice_subrange(bytes.as_slice(), *pos, *pos + 8);
        let x = u64_from_le_bytes(s);
        *pos = *pos + 8;
        Some(x)
    } else {
        None
    }
}

fn read_str(bytes: &Vec<u8>, pos: &mut usize) -> (r: Option<String>)
    requires
        *old(pos) <= bytes@.len(),
    ensures
        match r {
            Some(s) => {
                &&& spec_dec_str(bytes@, *old(pos) as int) == Some((s@, *final(pos) as int))
                &&& *final(pos) <= bytes@.len()
            },
            None => spec_dec_str(bytes@, *old(pos) as int) is None,
        },
{
    let n = match read_u64(bytes, pos) {
        Some(x) => x,
        None => {
            return None;
        },
    };
    if n > (bytes.len() - *pos) as u64 {
        return None;
    }
    let nn = n as usize;
    let body = slice_subrange(bytes.as_slice(), *pos, *pos + nn);
    let v = slice_to_vec(body);
    match string_from_utf8(v) {
        Some(s) => {
            proof {
                encode_utf8_decode_utf8(s@);
            }
            *pos = *pos + nn;
            Some(s)
        },
        None => None,
    }
}

fn read_type(bytes: &Vec<u8>, pos: &mut usize) -> (r: Option<Type>)
    requires
        *old(pos) <= bytes@.len(),
    ensures
        match r {
            Some(t) => {
                &&& spec_dec_type(bytes@, *old(pos) as int) == Some((t, *final(pos) as int))
                &&& *final(pos) <= bytes@.len()
            },
            None => spec_dec_type(bytes@, *old(pos) as int) is None,
        },
{
    let tag = match read_u8(bytes, pos) {
        Some(t) => t,
        None => {
            return None;
        },
    };
    if tag == TAG_INT32 {
        Some(Type::Int32)
    } else if tag == TAG_INT64 {
        Some(Type::Int64)
    } else if tag == TAG_FLOAT32 {
        Some(Type::Float32)
    } else if tag == TAG_FLOAT64 {
        Some(Type::Float64)
    } else if tag == TAG_TEXT {
        Some(Type::Text)
    } else {
        None
    }
}

fn read_column(bytes: &Vec<u8>, pos: &mut usize) -> (r: Option<Column>)
    requires
        *old(pos) <= bytes@.len(),
    ensures
        match r {
            Some(c) => {
                &&& spec_dec_column(bytes@, *old(pos) as int) == Some((c@, *final(pos) as int))
                &&& *final(pos) <= bytes@.len()
            },
            None => spec_dec_column(bytes@, *old(pos) as int) is None,
        },
{
    let s = match read_str(bytes, pos) {
        Some(s) => s,
        None => {
            return None;
        },
    };
    let t = match read_type(bytes, pos) {
        Some(t) => t,
        None => {
            return None;
        },
    };
    Some(Column::new(s, t))
}

fn read_data(bytes: &Vec<u8>, pos: &mut usize) -> (r: Option<Data>)
    requires
        *old(pos) <= bytes@.len(),
    ensures
        match r {
            Some(d) => {
                &&& spec_dec_data(bytes@, *old(pos) as int) == Some((d@, *final(pos) as int))
                &&& *final(pos) <= bytes@.len()
            },
            None => spec_dec_data(bytes@, *old(pos) as int) is None,
        },
{
    let tag = match read_u8(bytes, pos) {
        Some(t) => t,
        None => {
            return None;
        },
    };
    if tag == TAG_INT32 {
        match read_u32(bytes, pos) {
            Some(x) => Some(Data::Int32(#[verifier::truncate] (x as i32))),
            None => None,
        }
    } else if tag == TAG_INT64 {
        match read_u64(bytes, pos) {
            Some(x) => Some(Data::Int64(#[verifier::truncate] (x as i64))),
            None => None,
        }
    } else if tag == TAG_FLOAT32 {
        match read_u32(bytes, pos) {
            Some(x) => Some(Data::Float32(x)),
            None => None,
        }
    } else if tag == TAG_FLOAT64 {
        match read_u64(bytes, pos) {
            Some(x) => Some(Data::Float64(x)),
            None => None,
        }
    } else if tag == TAG_TEXT {
        match read_str(bytes, pos) {
            Some(s) => Some(Data::Text(s)),
            None => None,
        }
    } else if tag == TAG_NULL {
        Some(Data::Null)
    } else {
        None
    }
}

fn read_row(bytes: &Vec<u8>, pos: &mut usize, width: usize) -> (r: Option<Vec<Data>>)
    requires
        *old(pos) <= bytes@.len(),
    ensures
        match r {
            Some(row) => {
                &&& spec_dec_row(bytes@, *old(pos) as int, width as nat) == Some(
                    (row_model(row@), *final(pos) as int),
                )
                &&& row@.len() == width
                &&& *final(pos) <= bytes@.len()
            },
            None => spec_dec_row(bytes@, *old(pos) as int, width as nat) is None,
        },
{
    let mut row: Vec<Data> = Vec::new();
    let mut k: usize = 0;
    while k < width
        invariant
            *pos <= bytes@.len(),
            k <= width,
            row@.len() == k,
            spec_dec_row(bytes@, *old(pos) as int, width as nat) == (match spec_dec_row(
                bytes@,
                *pos as int,
                (width - k) as nat,
            ) {
                Some(rr) => Some((row_model(row@) + rr.0, rr.1)),
                None => None::<(Seq<DataModel>, int)>,
            }),
        decreases width - k,
    {
        let ghost prev_vals = row_model(row@);
        let ghost p_pre = *pos as int;
        let d = match read_data(bytes, pos) {
            Some(d) => d,
            None => {
                return None;
            },
        };
        row.push(d);
        proof {
            assert(row_model(row@) =~= prev_vals + seq![d@]);
            match spec_dec_row(bytes@, *pos as int, (width - k - 1) as nat) {
                Some(r1) => {
                    assert(prev_vals + (seq![d@] + r1.0) =~= row_model(row@)
                        + r1.0);
                },
                None => {},
            }
        }
        k += 1;
    }
    proof {
        assert(row_model(row@) + Seq::<DataModel>::empty() =~= row_model(row@));
    }
    Some(row)
}

fn read_columns(bytes: &Vec<u8>, pos: &mut usize, n: u64) -> (r: Option<Vec<Column>>)
    requires
        *old(pos) <= bytes@.len(),
    ensures
        match r {
            Some(cols) => {
                &&& spec_dec_columns(bytes@, *old(pos) as int, n as nat) == Some(
                    (cols_model(cols@), *final(pos) as int),
                )
                &&& cols@.len() == n
                &&& *final(pos) <= bytes@.len()
            },
            None => spec_dec_columns(bytes@, *old(pos) as int, n as nat) is None,
        },
{
    let mut cols: Vec<Column> = Vec::new();
    let mut k: u64 = 0;
    while k < n
        invariant
            *pos <= bytes@.len(),
            k <= n,
            cols@.len() == k,
            spec_dec_columns(bytes@, *old(pos) as int, n as nat) == (match spec_dec_columns(
                bytes@,
                *pos as int,
                (n - k) as nat,
            ) {
                Some(rr) => Some((cols_model(cols@) + rr.0, rr.1)),
                None => None::<(Seq<ColumnModel>, int)>,
            }),
        decreases n - k,
    {
        let ghost prev = cols_model(cols@);
        let c = match read_column(bytes, pos) {
            Some(c) => c,
            None => {
                return None;
            },
        };
        cols.push(c);
        proof {
            assert(cols_model(cols@) =~= prev + seq![c@]);
            match spec_dec_columns(bytes@, *pos as int, (n - k - 1) as nat) {
                Some(r1) => {
                    assert(prev + (seq![c@] + r1.0) =~= cols_model(cols@) + r1.0);
                },
                None => {},
            }
        }
        k += 1;
    }
    proof {
        assert(cols_model(cols@) + Seq::<ColumnModel>::empty()
            =~= cols_model(cols@));
    }
    Some(cols)
}

fn read_rows(bytes: &Vec<u8>, pos: &mut usize, n: u64, width: usize) -> (r: Option<Vec<Vec<Data>>>)
    requires
        *old(pos) <= bytes@.len(),
    ensures
        match r {
            Some(rows) => {
                &&& spec_dec_rows(bytes@, *old(pos) as int, n as nat, width as nat) == Some(
                    (
                        rows_model(rows@),
                        *final(pos) as int,
                    ),
                )
                &&& rows@.len() == n
                &&& forall|j: int| 0 <= j < rows@.len() ==> (#[trigger] rows@[j])@.len() == width
                &&& *final(pos) <= bytes@.len()
            },
            None => spec_dec_rows(bytes@, *old(pos) as int, n as nat, width as nat) is None,
        },
{
    let mut rows: Vec<Vec<Data>> = Vec::new();
    let mut k: u64 = 0;
    while k < n
        invariant
            *pos <= bytes@.len(),
            k <= n,
            rows@.len() == k,
            forall|j: int| 0 <= j < rows@.len() ==> (#[trigger] rows@[j])@.len() == width,
            spec_dec_rows(bytes@, *old(pos) as int, n as nat, width as nat) == (match spec_dec_rows(
                bytes@,
                *pos as int,
                (n - k) as nat,
                width as nat,
            ) {
                Some(rr) => Some(
                    (
                        rows_model(rows@) + rr.0,
                        rr.1,
                    ),
                ),
                None => None::<(Seq<Seq<DataModel>>, int)>,
            }),
        decreases n - k,
    {
        let ghost prev = rows_model(rows@);
        let row = match read_row(bytes, pos, width) {
            Some(r0) => r0,
            None => {
                return None;
            },
        };
        rows.push(row);
        proof {
            assert(rows_model(rows@) =~= prev + seq![
                row_model(row@),
            ]);
            match spec_dec_rows(bytes@, *pos as int, (n - k - 1) as nat, width as nat) {
                Some(r1) => {
                    assert(prev + (seq![row_model(row@)] + r1.0) =~= rows_model(rows@) + r1.0);
                },
                None => {},
            }
        }
        k += 1;
    }
    proof {
        assert(rows_model(rows@)
            + Seq::<Seq<DataModel>>::empty() =~= rows_model(rows@));
    }
    Some(rows)
}

/// A load failure for content that does not parse as a table.
fn malformed() -> (e: LoadDbError)
    ensures
        e.kind == LoadDbErrorKind::Malformed,
{
    LoadDbError::new(String::from_str("not a valid table encoding"), LoadDbErrorKind::Malformed)
}

impl Db {
    /// Decodes a table from bytes. Succeeds exactly on the byte sequences the
    /// format admits (no trailing bytes); anything else is reported as a
    /// malformed load, distinguishable from an input/output failure.
    pub fn decode(bytes: &[u8]) -> (r: Result<Db, LoadDbError>)
        ensures
            match r {
                Ok(db) => {
                    &&& db.wf()
                    &&& spec_dec_db(bytes@) == Some(db@)
                },
                Err(e) => {
                    &&& spec_dec_db(bytes@) is None
                    &&& e.kind == LoadDbErrorKind::Malformed
                },
            },
    {
        let v: Vec<u8> = slice_to_vec(bytes);
        let mut pos: usize = 0;
        let ncols = match read_u64(&v, &mut pos) {
            Some(x) => x,
            None => {
                return Err(malformed());
            },
        };
        let columns = match read_columns(&v, &mut pos, ncols) {
            Some(c) => c,
            None => {
                return Err(malformed());
            },
        };
        let width = columns.len();
        let nrows = match read_u64(&v, &mut pos) {
            Some(x) => x,
            None => {
                return Err(malformed());
            },
        };
        let rows = match read_rows(&v, &mut pos, nrows, width) {
            Some(r0) => r0,
            None => {
                return Err(malformed());
            },
        };
        if pos != v.len() {
            return Err(malformed());
        }
        let db = Db { columns, rows };
        proof {
            assert(db@ =~~= (DbModel {
                columns: cols_model(columns@),
                rows: rows_model(rows@),
            }));
            assert forall|j: int| 0 <= j < db@.rows.len() implies (#[trigger] db@.rows[j]).len()
                == db@.columns.len() by {
                assert(db@.rows[j] == row_model(db.rows@[j]@));
            }
        }
        Ok(db)
    }
}

/// Round-trip law: decoding the encoding of any well-shaped table yields that
/// table back, columns in order, rows in order, values unchanged.
pub proof fn lemma_encode_decode_round_trip(m: DbModel)
    requires
        model_wf(m),
        encodable(m),
    ensures
        spec_dec_db(spec_enc_db(m)) == Some(m),
{
    let b = spec_enc_db(m);
    let e1 = spec_u64_to_le_bytes(m.columns.len() as u64);
    let e2 = spec_enc_columns(m.columns);
    let e3 = spec_u64_to_le_bytes(m.rows.len() as u64);
    let e4 = spec_enc_rows(m.rows);
    lemma_auto_spec_u64_to_from_le_bytes();
    assert(b =~= (e1 + e2) + (e3 + e4));
    assert(holds_at(b, 0, (e1 + e2) + (e3 + e4))) by {
        assert(b.subrange(0, b.len() as int) =~= b);
    }
    lemma_holds_at_split(b, 0, e1 + e2, e3 + e4);
    lemma_holds_at_split(b, 0, e1, e2);
    lemma_holds_at_split(b, e1.len() + e2.len() as int, e3, e4);
    lemma_dec_u64_prefix(m.columns.len() as u64, b, 0);
    lemma_dec_columns_prefix(m.columns, b, 8);
    lemma_dec_u64_prefix(m.rows.len() as u64, b, 8 + e2.len() as int);
    lemma_dec_rows_prefix(m.rows, m.columns.len(), b, 16 + e2.len() as int);
    assert((m.columns.len() as u64) as nat == m.columns.len());
    assert((m.rows.len() as u64) as nat == m.rows.len());
    assert((DbModel { columns: m.columns, rows: m.rows }) =~= m);
}

/// The round-trip law, stated of a stored table: the bytes [`Db::encode`]
/// returns decode back to exactly this table's value, so
/// `Db::decode(&t.encode())` yields a table structurally equal to `t`.
pub proof fn lemma_table_round_trip(db: Db)
    requires
        db.wf(),
        encodable(db@),
    ensures
        spec_dec_db(spec_enc_db(db@)) == Some(db@),
{
    lemma_encode_decode_round_trip(db@);
}

} // verus!
