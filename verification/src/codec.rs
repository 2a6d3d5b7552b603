//! The self-describing wire encoding of record batches.
//!
//! A segment is a sequence of frames, each holding one batch. A frame
//! is a compression-capability flag byte, a little-endian `u64`
//! payload length and the payload; the schema is not on the wire but
//! supplied by the reader. A batch payload is the row count
//! followed by each column's cells in field order: one validity byte
//! per cell and, for a valid cell, the value in the physical encoding
//! of the field's type. Dictionary columns are encoded by their
//! resolved values and re-interned on decode, so key codes need not
//! survive a round trip. Null columns store no cell bytes at all.

use vstd::prelude::*;
use vstd::bytes::{
    lemma_auto_spec_u64_to_from_le_bytes, lemma_auto_spec_u128_to_from_le_bytes,
    spec_u128_from_le_bytes, spec_u128_to_le_bytes, spec_u64_from_le_bytes, spec_u64_to_le_bytes,
    u128_from_le_bytes, u128_to_le_bytes, u64_from_le_bytes, u64_to_le_bytes,
};
use vstd::slice::slice_subrange;
use crate::Fault;
use crate::types::{
    DictKeyType, Field, LogicalType, Schema, TimeUnit, TypeModel, FieldModel, schema_supported,
    type_supported,
};
use crate::value::{ScalarValue, ScalarModel, lemma_scalar_model_constructor, value_fits};
use crate::column::{
    Array, BatchModel, ColumnData, RecordBatch, cell_model, cells_fit, dict_cells, keys_in_range,
    lemma_dict_cells_push_key, lemma_dict_cells_values_prefix, lemma_opt_cells_push, null_cells,
    opt_cells, resolve_key, values_fit,
};

verus! {

proof fn lemma_cast_i8(x: i8)
    ensures
        ((x as u64) as i8) == x,
{
    assert(((x as u64) as i8) == x) by (bit_vector);
}

proof fn lemma_cast_i16(x: i16)
    ensures
        ((x as u64) as i16) == x,
{
    assert(((x as u64) as i16) == x) by (bit_vector);
}

proof fn lemma_cast_i32(x: i32)
    ensures
        ((x as u64) as i32) == x,
{
    assert(((x as u64) as i32) == x) by (bit_vector);
}

proof fn lemma_cast_i64(x: i64)
    ensures
        ((x as u64) as i64) == x,
{
    assert(((x as u64) as i64) == x) by (bit_vector);
}

proof fn lemma_cast_u8(x: u8)
    ensures
        ((x as u64) as u8) == x,
{
    assert(((x as u64) as u8) == x) by (bit_vector);
}

proof fn lemma_cast_u16(x: u16)
    ensures
        ((x as u64) as u16) == x,
{
    assert(((x as u64) as u16) == x) by (bit_vector);
}

proof fn lemma_cast_u32(x: u32)
    ensures
        ((x as u64) as u32) == x,
{
    assert(((x as u64) as u32) == x) by (bit_vector);
}

proof fn lemma_cast_i128(x: i128)
    ensures
        ((x as u128) as i128) == x,
{
    assert(((x as u128) as i128) == x) by (bit_vector);
}

/// The 64-bit word that carries one fixed-width value on the wire.
pub open spec fn word_of(m: ScalarModel) -> u64 {
    match m {
        ScalarModel::Int8(x) => x as u64,
        ScalarModel::Int16(x) => x as u64,
        ScalarModel::Int32(x) => x as u64,
        ScalarModel::Int64(x) => x as u64,
        ScalarModel::UInt8(x) => x as u64,
        ScalarModel::UInt16(x) => x as u64,
        ScalarModel::UInt32(x) => x as u64,
        ScalarModel::UInt64(x) => x,
        ScalarModel::Float32Bits(x) => x as u64,
        ScalarModel::Float64Bits(x) => x as u64,
        _ => 0,
    }
}

/// The value a 64-bit wire word stands for under a given type.
pub open spec fn value_of_word(w: u64, t: TypeModel) -> ScalarModel {
    match t {
        TypeModel::Int8 => ScalarModel::Int8(w as i8),
        TypeModel::Int16 => ScalarModel::Int16(w as i16),
        TypeModel::Int32 => ScalarModel::Int32(w as i32),
        TypeModel::Int64 => ScalarModel::Int64(w as i64),
        TypeModel::UInt8 => ScalarModel::UInt8(w as u8),
        TypeModel::UInt16 => ScalarModel::UInt16(w as u16),
        TypeModel::UInt32 => ScalarModel::UInt32(w as u32),
        TypeModel::UInt64 => ScalarModel::UInt64(w),
        TypeModel::Float32 => ScalarModel::Float32Bits(w as u32),
        TypeModel::Float64 => ScalarModel::Float64Bits(w as u64),
        TypeModel::Date32 => ScalarModel::Int32(w as i32),
        TypeModel::Date64 => ScalarModel::Int64(w as i64),
        TypeModel::Time32(_) => ScalarModel::Int32(w as i32),
        TypeModel::Time64(_) => ScalarModel::Int64(w as i64),
        TypeModel::Timestamp(_, _) => ScalarModel::Int64(w as i64),
        _ => ScalarModel::UInt64(w),
    }
}

/// Whether a type's values travel as one 64-bit word.
pub open spec fn is_word_type(t: TypeModel) -> bool {
    match t {
        TypeModel::Int8 => true,
        TypeModel::Int16 => true,
        TypeModel::Int32 => true,
        TypeModel::Int64 => true,
        TypeModel::UInt8 => true,
        TypeModel::UInt16 => true,
        TypeModel::UInt32 => true,
        TypeModel::UInt64 => true,
        TypeModel::Float32 => true,
        TypeModel::Float64 => true,
        TypeModel::Date32 => true,
        TypeModel::Date64 => true,
        TypeModel::Time32(_) => true,
        TypeModel::Time64(_) => true,
        TypeModel::Timestamp(_, _) => true,
        _ => false,
    }
}

/// Parses one non-null value of type `t` at `pos`; `None` on malformed
/// or truncated bytes.
pub open spec fn parse_value(bytes: Seq<u8>, pos: int, t: TypeModel) -> Option<(ScalarModel, int)>
    decreases t,
{
    match t {
        TypeModel::Null => Option::None,
        TypeModel::Boolean => {
            if pos + 1 <= bytes.len() {
                if bytes[pos] == 0u8 {
                    Option::Some((ScalarModel::Boolean(false), pos + 1))
                } else if bytes[pos] == 1u8 {
                    Option::Some((ScalarModel::Boolean(true), pos + 1))
                } else {
                    Option::None
                }
            } else {
                Option::None
            }
        },
        TypeModel::Binary => parse_byte_run(bytes, pos, false),
        TypeModel::LargeBinary => parse_byte_run(bytes, pos, false),
        TypeModel::Utf8 => parse_byte_run(bytes, pos, true),
        TypeModel::LargeUtf8 => parse_byte_run(bytes, pos, true),
        TypeModel::Decimal128(_, _) => {
            if pos + 16 <= bytes.len() {
                Option::Some(
                    (
                        ScalarModel::Decimal128(
                            spec_u128_from_le_bytes(bytes.subrange(pos, pos + 16)) as i128,
                        ),
                        pos + 16,
                    ),
                )
            } else {
                Option::None
            }
        },
        TypeModel::Decimal256(_, _) => {
            if pos + 32 <= bytes.len() {
                Option::Some(
                    (
                        ScalarModel::Decimal256(
                            spec_u128_from_le_bytes(
                                bytes.subrange(pos + 16, pos + 32),
                            ) as i128,
                            spec_u128_from_le_bytes(bytes.subrange(pos, pos + 16)),
                        ),
                        pos + 32,
                    ),
                )
            } else {
                Option::None
            }
        },
        TypeModel::Dictionary(_, vt) => parse_value(bytes, pos, *vt),
        _ => {
            if pos + 8 <= bytes.len() {
                Option::Some(
                    (
                        value_of_word(spec_u64_from_le_bytes(bytes.subrange(pos, pos + 8)), t),
                        pos + 8,
                    ),
                )
            } else {
                Option::None
            }
        },
    }
}

/// Parses a length-prefixed byte run; as text it must be valid UTF-8.
pub open spec fn parse_byte_run(bytes: Seq<u8>, pos: int, text: bool) -> Option<
    (ScalarModel, int),
> {
    if pos + 8 <= bytes.len() {
        let len = spec_u64_from_le_bytes(bytes.subrange(pos, pos + 8)) as int;
        if pos + 8 + len <= bytes.len() {
            let payload = bytes.subrange(pos + 8, pos + 8 + len);
            if text {
                if vstd::utf8::valid_utf8(payload) {
                    Option::Some((ScalarModel::Text(vstd::utf8::decode_utf8(payload)), pos + 8 + len))
                } else {
                    Option::None
                }
            } else {
                Option::Some((ScalarModel::Bytes(payload), pos + 8 + len))
            }
        } else {
            Option::None
        }
    } else {
        Option::None
    }
}

/// The wire bytes of one non-null value of type `t`.
pub open spec fn spec_encode_value(m: ScalarModel, t: TypeModel) -> Seq<u8>
    decreases t,
{
    match t {
        TypeModel::Null => Seq::empty(),
        TypeModel::Boolean => seq![
            if m == ScalarModel::Boolean(true) {
                1u8
            } else {
                0u8
            },
        ],
        TypeModel::Binary => spec_encode_byte_run(m),
        TypeModel::LargeBinary => spec_encode_byte_run(m),
        TypeModel::Utf8 => spec_encode_byte_run(m),
        TypeModel::LargeUtf8 => spec_encode_byte_run(m),
        TypeModel::Decimal128(_, _) => spec_u128_to_le_bytes(
            (match m {
                ScalarModel::Decimal128(x) => x,
                _ => 0,
            }) as u128,
        ),
        TypeModel::Decimal256(_, _) => (match m {
            ScalarModel::Decimal256(hi, lo) => spec_u128_to_le_bytes(lo) + spec_u128_to_le_bytes(
                hi as u128,
            ),
            _ => spec_u128_to_le_bytes(0) + spec_u128_to_le_bytes(0),
        }),
        TypeModel::Dictionary(_, vt) => spec_encode_value(m, *vt),
        _ => spec_u64_to_le_bytes(word_of(m)),
    }
}

/// The wire bytes of a length-prefixed byte run.
pub open spec fn spec_encode_byte_run(m: ScalarModel) -> Seq<u8> {
    let payload = match m {
        ScalarModel::Bytes(b) => b,
        ScalarModel::Text(s) => vstd::utf8::encode_utf8(s),
        _ => Seq::empty(),
    };
    spec_u64_to_le_bytes(payload.len() as u64) + payload
}

/// Reads one little-endian `u64` at `pos`.
fn read_word(bytes: &Vec<u8>, pos: usize) -> (r: Result<(u64, usize), Fault>)
    ensures
        r matches Ok((w, p)) ==> pos + 8 <= bytes@.len() && p == pos + 8 && w
            == spec_u64_from_le_bytes(bytes@.subrange(pos as int, pos as int + 8)),
        r is Err ==> pos + 8 > bytes@.len() && r == Err::<(u64, usize), Fault>(Fault::Decode),
{
    if pos > bytes.len() || bytes.len() - pos < 8 {
        return Err(Fault::Decode);
    }
    let s = slice_subrange(bytes.as_slice(), pos, pos + 8);
    Ok((u64_from_le_bytes(s), pos + 8))
}

/// Reads one little-endian `u128` at `pos`.
fn read_wide(bytes: &Vec<u8>, pos: usize) -> (r: Result<(u128, usize), Fault>)
    ensures
        r matches Ok((w, p)) ==> pos + 16 <= bytes@.len() && p == pos + 16 && w
            == spec_u128_from_le_bytes(bytes@.subrange(pos as int, pos as int + 16)),
        r is Err ==> pos + 16 > bytes@.len() && r == Err::<(u128, usize), Fault>(Fault::Decode),
{
    if pos > bytes.len() || bytes.len() - pos < 16 {
        return Err(Fault::Decode);
    }
    let s = slice_subrange(bytes.as_slice(), pos, pos + 16);
    Ok((u128_from_le_bytes(s), pos + 16))
}

/// Reads a length-prefixed byte run at `pos`.
fn read_byte_run(bytes: &Vec<u8>, pos: usize) -> (r: Result<(Vec<u8>, usize), Fault>)
    ensures
        r matches Ok((v, p)) ==> {
            &&& pos + 8 <= bytes@.len()
            &&& pos + 8 + v@.len() == p <= bytes@.len()
            &&& spec_u64_from_le_bytes(bytes@.subrange(pos as int, pos as int + 8)) == v@.len()
            &&& v@ == bytes@.subrange(pos as int + 8, p as int)
        },
        r is Err ==> r == Err::<(Vec<u8>, usize), Fault>(Fault::Decode) && (pos + 8 > bytes@.len()
            || pos + 8 + spec_u64_from_le_bytes(
            bytes@.subrange(pos as int, pos as int + 8),
        ) > bytes@.len()),
{
    let (w, p) = match read_word(bytes, pos) {
        Ok(x) => x,
        Err(e) => {
            return Err(e);
        },
    };
    if w > (bytes.len() - p) as u64 {
        return Err(Fault::Decode);
    }
    let len = w as usize;
    let s = slice_subrange(bytes.as_slice(), p, p + len);
    let v = vstd::slice::slice_to_vec(s);
    Ok((v, p + len))
}

/// Relies on `String::from_utf8`: it succeeds exactly on valid UTF-8
/// input and yields the characters those bytes encode.
#[verifier::external_body]
fn string_from_utf8(v: Vec<u8>) -> (r: Option<String>)
    ensures
        r is Some <==> vstd::utf8::valid_utf8(v@),
        r matches Some(s) ==> s@ == vstd::utf8::decode_utf8(v@),
{
    match String::from_utf8(v) {
        Ok(s) => Some(s),
        Err(_) => None,
    }
}

/// Decodes one non-null value of type `t` at `pos`, exactly as
/// [`parse_value`] reads it.
#[verifier::rlimit(100)]
pub fn decode_value(bytes: &Vec<u8>, pos: usize, t: &LogicalType) -> (r: Result<
    (ScalarValue, usize),
    Fault,
>)
    ensures
        r matches Ok((v, p)) ==> parse_value(bytes@, pos as int, t@) == Some::<(ScalarModel, int)>(
            (v@, p as int),
        ) && pos < p <= bytes@.len() && value_fits(v@, t@),
        r is Err ==> parse_value(bytes@, pos as int, t@) is None && r == Err::<
            (ScalarValue, usize),
            Fault,
        >(Fault::Decode),
    decreases *t,
{
    match t {
        LogicalType::Null => Err(Fault::Decode),
        LogicalType::Boolean => {
            if pos < bytes.len() {
                let b = bytes[pos];
                if b == 0 {
                    Ok((ScalarValue::Boolean(false), pos + 1))
                } else if b == 1 {
                    Ok((ScalarValue::Boolean(true), pos + 1))
                } else {
                    Err(Fault::Decode)
                }
            } else {
                Err(Fault::Decode)
            }
        },
        LogicalType::Int8 => match read_word(bytes, pos) {
            Ok((w, p)) => Ok((ScalarValue::Int8(w as i8), p)),
            Err(e) => Err(e),
        },
        LogicalType::Int16 => match read_word(bytes, pos) {
            Ok((w, p)) => Ok((ScalarValue::Int16(w as i16), p)),
            Err(e) => Err(e),
        },
        LogicalType::Int32 => match read_word(bytes, pos) {
            Ok((w, p)) => Ok((ScalarValue::Int32(w as i32), p)),
            Err(e) => Err(e),
        },
        LogicalType::Int64 => match read_word(bytes, pos) {
            Ok((w, p)) => Ok((ScalarValue::Int64(w as i64), p)),
            Err(e) => Err(e),
        },
        LogicalType::UInt8 => match read_word(bytes, pos) {
            Ok((w, p)) => Ok((ScalarValue::UInt8(w as u8), p)),
            Err(e) => Err(e),
        },
        LogicalType::UInt16 => match read_word(bytes, pos) {
            Ok((w, p)) => Ok((ScalarValue::UInt16(w as u16), p)),
            Err(e) => Err(e),
        },
        LogicalType::UInt32 => match read_word(bytes, pos) {
            Ok((w, p)) => Ok((ScalarValue::UInt32(w as u32), p)),
            Err(e) => Err(e),
        },
        LogicalType::UInt64 => match read_word(bytes, pos) {
            Ok((w, p)) => Ok((ScalarValue::UInt64(w), p)),
            Err(e) => Err(e),
        },
        LogicalType::Float32 => match read_word(bytes, pos) {
            Ok((w, p)) => Ok((ScalarValue::Float32Bits(w as u32), p)),
            Err(e) => Err(e),
        },
        LogicalType::Float64 => match read_word(bytes, pos) {
            Ok((w, p)) => Ok((ScalarValue::Float64Bits(w), p)),
            Err(e) => Err(e),
        },
        LogicalType::Date32 => match read_word(bytes, pos) {
            Ok((w, p)) => Ok((ScalarValue::Int32(w as i32), p)),
            Err(e) => Err(e),
        },
        LogicalType::Date64 => match read_word(bytes, pos) {
            Ok((w, p)) => Ok((ScalarValue::Int64(w as i64), p)),
            Err(e) => Err(e),
        },
        LogicalType::Time32(_) => match read_word(bytes, pos) {
            Ok((w, p)) => Ok((ScalarValue::Int32(w as i32), p)),
            Err(e) => Err(e),
        },
        LogicalType::Time64(_) => match read_word(bytes, pos) {
            Ok((w, p)) => Ok((ScalarValue::Int64(w as i64), p)),
            Err(e) => Err(e),
        },
        LogicalType::Timestamp(_, _) => match read_word(bytes, pos) {
            Ok((w, p)) => Ok((ScalarValue::Int64(w as i64), p)),
            Err(e) => Err(e),
        },
        LogicalType::Binary => match read_byte_run(bytes, pos) {
            Ok((v, p)) => Ok((ScalarValue::Bytes(v), p)),
            Err(e) => Err(e),
        },
        LogicalType::LargeBinary => match read_byte_run(bytes, pos) {
            Ok((v, p)) => Ok((ScalarValue::Bytes(v), p)),
            Err(e) => Err(e),
        },
        LogicalType::Utf8 => match read_byte_run(bytes, pos) {
            Ok((v, p)) => match string_from_utf8(v) {
                Some(s) => Ok((ScalarValue::Text(s), p)),
                None => Err(Fault::Decode),
            },
            Err(e) => Err(e),
        },
        LogicalType::LargeUtf8 => match read_byte_run(bytes, pos) {
            Ok((v, p)) => match string_from_utf8(v) {
                Some(s) => Ok((ScalarValue::Text(s), p)),
                None => Err(Fault::Decode),
            },
            Err(e) => Err(e),
        },
        LogicalType::Decimal128(_, _) => match read_wide(bytes, pos) {
            Ok((w, p)) => Ok((ScalarValue::Decimal128(w as i128), p)),
            Err(e) => Err(e),
        },
        LogicalType::Decimal256(_, _) => {
            let (lo, p) = match read_wide(bytes, pos) {
                Ok(x) => x,
                Err(e) => {
                    return Err(e);
                },
            };
            match read_wide(bytes, p) {
                Ok((hi, p2)) => Ok((ScalarValue::Decimal256(hi as i128, lo), p2)),
                Err(e) => Err(e),
            }
        },
        LogicalType::Dictionary(_, vt) => decode_value(bytes, pos, &**vt),
    }
}

/// Appends `add` to `out`.
fn push_bytes(out: &mut Vec<u8>, add: &Vec<u8>)
    ensures
        final(out)@ == old(out)@ + add@,
{
    let n = add.len();
    let mut i: usize = 0;
    proof {
        assert(out@ =~= old(out)@ + add@.subrange(0, 0));
    }
    while i < n
        invariant
            n == add@.len(),
            0 <= i <= n,
            out@ == old(out)@ + add@.subrange(0, i as int),
        decreases n - i,
    {
        out.push(add[i]);
        proof {
            assert(out@ =~= old(out)@ + add@.subrange(0, (i + 1) as int));
        }
        i += 1;
    }
    proof {
        assert(old(out)@ + add@.subrange(0, n as int) =~= old(out)@ + add@);
    }
}

/// Appends the wire bytes of one non-null value of type `t`.
pub fn encode_value(out: &mut Vec<u8>, v: &ScalarValue, t: &LogicalType)
    requires
        value_fits(v@, t@),
    ensures
        final(out)@ == old(out)@ + spec_encode_value(v@, t@),
    decreases *t,
{
    proof {
        lemma_scalar_model_constructor(*v);
    }
    match t {
        LogicalType::Null => {
            proof {
                assert(false);
            }
        },
        LogicalType::Boolean => {
            match v {
                ScalarValue::Boolean(b) => {
                    let byte: u8 = if *b {
                        1
                    } else {
                        0
                    };
                    out.push(byte);
                    proof {
                        assert(out@ =~= old(out)@ + spec_encode_value(v@, t@));
                    }
                },
                _ => {
                    proof {
                        assert(false);
                    }
                },
            }
        },
        LogicalType::Int8 => {
            match v {
                ScalarValue::Int8(x) => {
                    let bs = u64_to_le_bytes(*x as u64);
                    push_bytes(out, &bs);
                },
                _ => {
                    proof {
                        assert(false);
                    }
                },
            }
        },
        LogicalType::Int16 => {
            match v {
                ScalarValue::Int16(x) => {
                    let bs = u64_to_le_bytes(*x as u64);
                    push_bytes(out, &bs);
                },
                _ => {
                    proof {
                        assert(false);
                    }
                },
            }
        },
        LogicalType::Int32 => {
            match v {
                ScalarValue::Int32(x) => {
                    let bs = u64_to_le_bytes(*x as u64);
                    push_bytes(out, &bs);
                },
                _ => {
                    proof {
                        assert(false);
                    }
                },
            }
        },
        LogicalType::Int64 => {
            match v {
                ScalarValue::Int64(x) => {
                    let bs = u64_to_le_bytes(*x as u64);
                    push_bytes(out, &bs);
                },
                _ => {
                    proof {
                        assert(false);
                    }
                },
            }
        },
        LogicalType::UInt8 => {
            match v {
                ScalarValue::UInt8(x) => {
                    let bs = u64_to_le_bytes(*x as u64);
                    push_bytes(out, &bs);
                },
                _ => {
                    proof {
                        assert(false);
                    }
                },
            }
        },
        LogicalType::UInt16 => {
            match v {
                ScalarValue::UInt16(x) => {
                    let bs = u64_to_le_bytes(*x as u64);
                    push_bytes(out, &bs);
                },
                _ => {
                    proof {
                        assert(false);
                    }
                },
            }
        },
        LogicalType::UInt32 => {
            match v {
                ScalarValue::UInt32(x) => {
                    let bs = u64_to_le_bytes(*x as u64);
                    push_bytes(out, &bs);
                },
                _ => {
                    proof {
                        assert(false);
                    }
                },
            }
        },
        LogicalType::UInt64 => {
            match v {
                ScalarValue::UInt64(x) => {
                    let bs = u64_to_le_bytes(*x);
                    push_bytes(out, &bs);
                },
                _ => {
                    proof {
                        assert(false);
                    }
                },
            }
        },
        LogicalType::Float32 => {
            match v {
                ScalarValue::Float32Bits(x) => {
                    let bs = u64_to_le_bytes(*x as u64);
                    push_bytes(out, &bs);
                },
                _ => {
                    proof {
                        assert(false);
                    }
                },
            }
        },
        LogicalType::Float64 => {
            match v {
                ScalarValue::Float64Bits(x) => {
                    let bs = u64_to_le_bytes(*x);
                    push_bytes(out, &bs);
                },
                _ => {
                    proof {
                        assert(false);
                    }
                },
            }
        },
        LogicalType::Date32 => {
            match v {
                ScalarValue::Int32(x) => {
                    let bs = u64_to_le_bytes(*x as u64);
                    push_bytes(out, &bs);
                },
                _ => {
                    proof {
                        assert(false);
                    }
                },
            }
        },
        LogicalType::Date64 => {
            match v {
                ScalarValue::Int64(x) => {
                    let bs = u64_to_le_bytes(*x as u64);
                    push_bytes(out, &bs);
                },
                _ => {
                    proof {
                        assert(false);
                    }
                },
            }
        },
        LogicalType::Time32(_) => {
            match v {
                ScalarValue::Int32(x) => {
                    let bs = u64_to_le_bytes(*x as u64);
                    push_bytes(out, &bs);
                },
                _ => {
                    proof {
                        assert(false);
                    }
                },
            }
        },
        LogicalType::Time64(_) => {
            match v {
                ScalarValue::Int64(x) => {
                    let bs = u64_to_le_bytes(*x as u64);
                    push_bytes(out, &bs);
                },
                _ => {
                    proof {
                        assert(false);
                    }
                },
            }
        },
        LogicalType::Timestamp(_, _) => {
            match v {
                ScalarValue::Int64(x) => {
                    let bs = u64_to_le_bytes(*x as u64);
                    push_bytes(out, &bs);
                },
                _ => {
                    proof {
                        assert(false);
                    }
                },
            }
        },
        LogicalType::Binary => {
            match v {
                ScalarValue::Bytes(b) => {
                    encode_byte_run(out, b);
                },
                _ => {
                    proof {
                        assert(false);
                    }
                },
            }
        },
        LogicalType::LargeBinary => {
            match v {
                ScalarValue::Bytes(b) => {
                    encode_byte_run(out, b);
                },
                _ => {
                    proof {
                        assert(false);
                    }
                },
            }
        },
        LogicalType::Utf8 => {
            match v {
                ScalarValue::Text(sv) => {
                    let bv = sv.as_str().as_bytes_vec();
                    encode_byte_run(out, &bv);
                },
                _ => {
                    proof {
                        assert(false);
                    }
                },
            }
        },
        LogicalType::LargeUtf8 => {
            match v {
                ScalarValue::Text(sv) => {
                    let bv = sv.as_str().as_bytes_vec();
                    encode_byte_run(out, &bv);
                },
                _ => {
                    proof {
                        assert(false);
                    }
                },
            }
        },
        LogicalType::Decimal128(_, _) => {
            match v {
                ScalarValue::Decimal128(x) => {
                    let bs = u128_to_le_bytes(*x as u128);
                    push_bytes(out, &bs);
                },
                _ => {
                    proof {
                        assert(false);
                    }
                },
            }
        },
        LogicalType::Decimal256(_, _) => {
            match v {
                ScalarValue::Decimal256(hi, lo) => {
                    let bl = u128_to_le_bytes(*lo);
                    push_bytes(out, &bl);
                    let bh = u128_to_le_bytes(*hi as u128);
                    push_bytes(out, &bh);
                    proof {
                        assert(out@ =~= old(out)@ + spec_encode_value(v@, t@));
                    }
                },
                _ => {
                    proof {
                        assert(false);
                    }
                },
            }
        },
        LogicalType::Dictionary(_, vt) => {
            encode_value(out, v, &**vt);
        },
    }
}

/// Appends one length-prefixed byte run.
fn encode_byte_run(out: &mut Vec<u8>, payload: &Vec<u8>)
    ensures
        final(out)@ == old(out)@ + spec_u64_to_le_bytes(payload@.len() as u64) + payload@,
{
    let bs = u64_to_le_bytes(payload.len() as u64);
    push_bytes(out, &bs);
    push_bytes(out, payload);
    proof {
        assert(out@ =~= old(out)@ + spec_u64_to_le_bytes(payload@.len() as u64) + payload@);
    }
}

/// Parsing an encoded value back yields the value itself, wherever it
/// stands in a longer byte sequence.
pub proof fn lemma_parse_encoded_value(bytes: Seq<u8>, pos: int, m: ScalarModel, t: TypeModel)
    requires
        value_fits(m, t),
        0 <= pos,
        pos + spec_encode_value(m, t).len() <= bytes.len(),
        bytes.subrange(pos, pos + spec_encode_value(m, t).len() as int) == spec_encode_value(m, t),
        spec_encode_value(m, t).len() <= usize::MAX,
    ensures
        parse_value(bytes, pos, t) == Some::<(ScalarModel, int)>(
            (m, pos + spec_encode_value(m, t).len()),
        ),
    decreases t,
{
    lemma_auto_spec_u64_to_from_le_bytes();
    lemma_auto_spec_u128_to_from_le_bytes();
    let enc = spec_encode_value(m, t);
    match t {
        TypeModel::Null => {
            assert(false);
        },
        TypeModel::Boolean => {
            assert(bytes[pos] == enc[0]);
        },
        TypeModel::Binary => {
            lemma_parse_encoded_byte_run(bytes, pos, m, false);
        },
        TypeModel::LargeBinary => {
            lemma_parse_encoded_byte_run(bytes, pos, m, false);
        },
        TypeModel::Utf8 => {
            lemma_parse_encoded_byte_run(bytes, pos, m, true);
        },
        TypeModel::LargeUtf8 => {
            lemma_parse_encoded_byte_run(bytes, pos, m, true);
        },
        TypeModel::Decimal128(_, _) => {
            let x = m->Decimal128_0;
            assert(bytes.subrange(pos, pos + 16) =~= enc);
            assert(spec_u128_from_le_bytes(spec_u128_to_le_bytes(x as u128)) == x as u128);
            lemma_cast_i128(x);
        },
        TypeModel::Decimal256(_, _) => {
            let hi = m->Decimal256_0;
            let lo = m->Decimal256_1;
            assert(enc == spec_u128_to_le_bytes(lo) + spec_u128_to_le_bytes(hi as u128));
            assert(enc.len() == 32);
            assert(bytes.subrange(pos, pos + 16) =~= enc.subrange(0, 16));
            assert(bytes.subrange(pos + 16, pos + 32) =~= enc.subrange(16, 32));
            assert(enc.subrange(0, 16) =~= spec_u128_to_le_bytes(lo));
            assert(enc.subrange(16, 32) =~= spec_u128_to_le_bytes(hi as u128));
            lemma_cast_i128(hi);
        },
        TypeModel::Dictionary(_, vt) => {
            lemma_parse_encoded_value(bytes, pos, m, *vt);
        },
        _ => {
            assert(is_word_type(t));
            assert(enc == spec_u64_to_le_bytes(word_of(m)));
            assert(bytes.subrange(pos, pos + 8) =~= enc);
            let w = spec_u64_from_le_bytes(bytes.subrange(pos, pos + 8));
            assert(w == word_of(m));
            match m {
                ScalarModel::Int8(x) => {
                    lemma_cast_i8(x);
                },
                ScalarModel::Int16(x) => {
                    lemma_cast_i16(x);
                },
                ScalarModel::Int32(x) => {
                    lemma_cast_i32(x);
                },
                ScalarModel::Int64(x) => {
                    lemma_cast_i64(x);
                },
                ScalarModel::UInt8(x) => {
                    lemma_cast_u8(x);
                },
                ScalarModel::UInt16(x) => {
                    lemma_cast_u16(x);
                },
                ScalarModel::UInt32(x) => {
                    lemma_cast_u32(x);
                },
                ScalarModel::Float32Bits(x) => {
                    lemma_cast_u32(x);
                },
                _ => {},
            }
            assert(value_of_word(w, t) == m);
        },
    }
}

/// Parsing an encoded byte run back yields the run itself.
proof fn lemma_parse_encoded_byte_run(bytes: Seq<u8>, pos: int, m: ScalarModel, text: bool)
    requires
        text ==> m is Text,
        !text ==> m is Bytes,
        0 <= pos,
        pos + spec_encode_byte_run(m).len() <= bytes.len(),
        bytes.subrange(pos, pos + spec_encode_byte_run(m).len() as int) == spec_encode_byte_run(m),
        spec_encode_byte_run(m).len() <= usize::MAX,
    ensures
        parse_byte_run(bytes, pos, text) == Some::<(ScalarModel, int)>(
            (m, pos + spec_encode_byte_run(m).len()),
        ),
{
    lemma_auto_spec_u64_to_from_le_bytes();
    let payload = match m {
        ScalarModel::Bytes(b) => b,
        ScalarModel::Text(sv) => vstd::utf8::encode_utf8(sv),
        _ => Seq::empty(),
    };
    let enc = spec_encode_byte_run(m);
    assert(enc == spec_u64_to_le_bytes(payload.len() as u64) + payload);
    assert(enc.len() == 8 + payload.len());
    assert(payload.len() <= u64::MAX);
    assert(bytes.subrange(pos, pos + 8) =~= enc.subrange(0, 8));
    assert(enc.subrange(0, 8) =~= spec_u64_to_le_bytes(payload.len() as u64));
    let len = spec_u64_from_le_bytes(bytes.subrange(pos, pos + 8)) as int;
    assert(len == payload.len());
    assert(bytes.subrange(pos + 8, pos + 8 + len) =~= enc.subrange(8, 8 + len));
    assert(enc.subrange(8, 8 + len) =~= payload);
    if text {
        let sv = m->Text_0;
        vstd::utf8::encode_utf8_valid_utf8(sv);
        vstd::utf8::encode_utf8_decode_utf8(sv);
    }
}

/// Parses one cell (validity byte, then a value when valid).
pub open spec fn parse_cell(bytes: Seq<u8>, pos: int, t: TypeModel) -> Option<
    (Option<ScalarModel>, int),
> {
    if pos + 1 <= bytes.len() {
        if bytes[pos] == 0u8 {
            Option::Some((Option::None, pos + 1))
        } else if bytes[pos] == 1u8 {
            match parse_value(bytes, pos + 1, t) {
                Option::None => Option::None,
                Option::Some((m, p)) => Option::Some((Option::Some(m), p)),
            }
        } else {
            Option::None
        }
    } else {
        Option::None
    }
}

/// The wire bytes of one cell.
pub open spec fn spec_encode_cell(c: Option<ScalarModel>, t: TypeModel) -> Seq<u8> {
    match c {
        Option::None => seq![0u8],
        Option::Some(m) => seq![1u8] + spec_encode_value(m, t),
    }
}

/// Parses the `rows` cells of one column. A null column stores no
/// cell bytes at all.
pub open spec fn parse_cells(bytes: Seq<u8>, pos: int, t: TypeModel, rows: nat) -> Option<
    (Seq<Option<ScalarModel>>, int),
>
    decreases rows,
{
    if t is Null {
        Option::Some((null_cells(rows), pos))
    } else if rows == 0 {
        Option::Some((Seq::empty(), pos))
    } else {
        match parse_cell(bytes, pos, t) {
            Option::None => Option::None,
            Option::Some((c, p)) => match parse_cells(bytes, p, t, (rows - 1) as nat) {
                Option::None => Option::None,
                Option::Some((cs, p2)) => Option::Some((seq![c] + cs, p2)),
            },
        }
    }
}

/// The wire bytes of one column's cells.
pub open spec fn spec_encode_cells(cells: Seq<Option<ScalarModel>>, t: TypeModel) -> Seq<u8>
    decreases cells.len(),
{
    if t is Null || cells.len() == 0 {
        Seq::empty()
    } else {
        spec_encode_cell(cells[0], t) + spec_encode_cells(cells.drop_first(), t)
    }
}

/// Parses the columns for the fields of `schema` from `idx` on.
pub open spec fn parse_columns(
    bytes: Seq<u8>,
    pos: int,
    schema: Seq<FieldModel>,
    idx: nat,
    rows: nat,
) -> Option<(Seq<Seq<Option<ScalarModel>>>, int)>
    decreases schema.len() - idx,
{
    if idx >= schema.len() {
        Option::Some((Seq::empty(), pos))
    } else {
        match parse_cells(bytes, pos, schema[idx as int].data_type, rows) {
            Option::None => Option::None,
            Option::Some((cs, p)) => match parse_columns(bytes, p, schema, idx + 1, rows) {
                Option::None => Option::None,
                Option::Some((cols, p2)) => Option::Some((seq![cs] + cols, p2)),
            },
        }
    }
}

/// The wire bytes of the columns for the fields of `schema` from
/// `idx` on.
pub open spec fn spec_encode_columns(
    columns: Seq<Seq<Option<ScalarModel>>>,
    schema: Seq<FieldModel>,
    idx: nat,
) -> Seq<u8>
    decreases schema.len() - idx,
{
    if idx >= schema.len() || idx >= columns.len() {
        Seq::empty()
    } else {
        spec_encode_cells(columns[idx as int], schema[idx as int].data_type)
            + spec_encode_columns(columns, schema, idx + 1)
    }
}

/// Parses one batch payload against an expected schema: the row count,
/// then every column; trailing bytes are malformed.
pub open spec fn parse_batch_payload(bytes: Seq<u8>, schema: Seq<FieldModel>) -> Option<
    (nat, Seq<Seq<Option<ScalarModel>>>),
> {
    if 8 <= bytes.len() {
        let rows = spec_u64_from_le_bytes(bytes.subrange(0, 8)) as nat;
        if rows <= usize::MAX {
            match parse_columns(bytes, 8, schema, 0, rows) {
                Option::None => Option::None,
                Option::Some((cols, p)) => {
                    if p == bytes.len() {
                        Option::Some((rows, cols))
                    } else {
                        Option::None
                    }
                },
            }
        } else {
            Option::None
        }
    } else {
        Option::None
    }
}

/// The wire bytes of one batch payload.
pub open spec fn spec_encode_payload(
    rows: nat,
    columns: Seq<Seq<Option<ScalarModel>>>,
    schema: Seq<FieldModel>,
) -> Seq<u8> {
    spec_u64_to_le_bytes(rows as u64) + spec_encode_columns(columns, schema, 0)
}

/// Decodes one cell at `pos`, exactly as [`parse_cell`] reads it.
fn decode_cell(bytes: &Vec<u8>, pos: usize, t: &LogicalType) -> (r: Result<
    (Option<ScalarValue>, usize),
    Fault,
>)
    ensures
        r matches Ok((c, p)) ==> parse_cell(bytes@, pos as int, t@) == Some::<
            (Option<ScalarModel>, int),
        >((cell_model(c), p as int)) && pos < p <= bytes@.len() && (c matches Some(v)
            ==> value_fits(v@, t@)),
        r is Err ==> parse_cell(bytes@, pos as int, t@) is None && r == Err::<
            (Option<ScalarValue>, usize),
            Fault,
        >(Fault::Decode),
{
    if pos >= bytes.len() {
        return Err(Fault::Decode);
    }
    let b = bytes[pos];
    if b == 0 {
        Ok((Option::None, pos + 1))
    } else if b == 1 {
        match decode_value(bytes, pos + 1, t) {
            Ok((v, p)) => Ok((Option::Some(v), p)),
            Err(e) => Err(e),
        }
    } else {
        Err(Fault::Decode)
    }
}

/// Decodes the `rows` cells of one non-null column, exactly as
/// [`parse_cells`] reads them.
fn decode_cells(bytes: &Vec<u8>, pos: usize, t: &LogicalType, rows: usize) -> (r: Result<
    (Vec<Option<ScalarValue>>, usize),
    Fault,
>)
    requires
        !(t@ is Null),
        pos <= bytes@.len(),
    ensures
        r matches Ok((cs, p)) ==> {
            &&& parse_cells(bytes@, pos as int, t@, rows as nat) == Some::<
                (Seq<Option<ScalarModel>>, int),
            >((opt_cells(cs@), p as int))
            &&& cs@.len() == rows
            &&& pos <= p <= bytes@.len()
            &&& cells_fit(cs@, t@)
        },
        r is Err ==> parse_cells(bytes@, pos as int, t@, rows as nat) is None && r == Err::<
            (Vec<Option<ScalarValue>>, usize),
            Fault,
        >(Fault::Decode),
{
    let mut out: Vec<Option<ScalarValue>> = Vec::new();
    let mut cur: usize = pos;
    let mut k: usize = 0;
    while k < rows
        invariant
            !(t@ is Null),
            0 <= k <= rows,
            pos <= cur <= bytes@.len(),
            out@.len() == k,
            cells_fit(out@, t@),
            parse_cells(bytes@, pos as int, t@, rows as nat) == (match parse_cells(
                bytes@,
                cur as int,
                t@,
                (rows - k) as nat,
            ) {
                Option::None => Option::None::<(Seq<Option<ScalarModel>>, int)>,
                Option::Some((cs2, p2)) => Option::Some((opt_cells(out@) + cs2, p2)),
            }),
        decreases rows - k,
    {
        let (c, p) = match decode_cell(bytes, cur, t) {
            Ok(x) => x,
            Err(e) => {
                return Err(e);
            },
        };
        let ghost pre = out@;
        out.push(c);
        proof {
            lemma_opt_cells_push(pre, c);
            assert forall|cs2: Seq<Option<ScalarModel>>|
                true implies (opt_cells(pre) + (seq![cell_model(c)] + cs2)) == (opt_cells(out@)
                + cs2) by {
                assert(opt_cells(pre) + (seq![cell_model(c)] + cs2) =~= opt_cells(out@) + cs2);
            }
        }
        cur = p;
        k += 1;
    }
    proof {
        assert(opt_cells(out@) + Seq::<Option<ScalarModel>>::empty() =~= opt_cells(out@));
    }
    Ok((out, cur))
}

/// Builds an all-null vector of `rows` cells.
fn all_null_cells(rows: usize) -> (r: Vec<Option<ScalarValue>>)
    ensures
        r@.len() == rows,
        opt_cells(r@) == null_cells(rows as nat),
        forall|j: int| 0 <= j < rows ==> (#[trigger] r@[j]) is None,
{
    let mut out: Vec<Option<ScalarValue>> = Vec::new();
    let mut k: usize = 0;
    while k < rows
        invariant
            0 <= k <= rows,
            out@.len() == k,
            forall|j: int| 0 <= j < k ==> (#[trigger] out@[j]) is None,
        decreases rows - k,
    {
        out.push(Option::None);
        k += 1;
    }
    proof {
        assert(opt_cells(out@) =~= null_cells(rows as nat));
    }
    out
}

/// Builds the dictionary storage of a column by interning each cell
/// value anew; the resolved cells equal the input cells.
pub(crate) fn build_dict_storage(cells: &Vec<Option<ScalarValue>>, Ghost(t): Ghost<TypeModel>) -> (r: (
    Vec<Option<usize>>,
    Vec<ScalarValue>,
))
    requires
        cells_fit(cells@, t),
    ensures
        keys_in_range(r.0@, r.1@.len() as int),
        values_fit(r.1@, t),
        dict_cells(r.0@, r.1@) == opt_cells(cells@),
        r.0@.len() == cells@.len(),
{
    let mut keys: Vec<Option<usize>> = Vec::new();
    let mut values: Vec<ScalarValue> = Vec::new();
    let n = cells.len();
    let mut i: usize = 0;
    proof {
        assert(dict_cells(keys@, values@) =~= opt_cells(cells@.subrange(0, 0)));
    }
    while i < n
        invariant
            n == cells@.len(),
            0 <= i <= n,
            cells_fit(cells@, t),
            keys@.len() == i,
            keys_in_range(keys@, values@.len() as int),
            values_fit(values@, t),
            dict_cells(keys@, values@) == opt_cells(cells@.subrange(0, i as int)),
        decreases n - i,
    {
        let ghost prek = keys@;
        let ghost prev = values@;
        match &cells[i] {
            Option::None => {
                keys.push(Option::None);
            },
            Option::Some(v) => {
                let idx = crate::array_builder::intern(&mut values, v);
                keys.push(Option::Some(idx));
            },
        }
        proof {
            lemma_dict_cells_values_prefix(prek, prev, values@);
            lemma_dict_cells_push_key(prek, values@, keys@.last());
            assert(keys@ == prek.push(keys@.last()));
            crate::column::lemma_opt_cells_take_one_more(cells@, i as int);
            assert(resolve_key(keys@.last(), values@) == cell_model(cells@[i as int]));
        }
        i += 1;
    }
    proof {
        assert(cells@.subrange(0, n as int) =~= cells@);
    }
    (keys, values)
}

/// Decodes one column of `rows` cells of the given type, exactly as
/// [`parse_cells`] reads it.
fn decode_column(bytes: &Vec<u8>, pos: usize, data_type: &LogicalType, rows: usize) -> (r: Result<
    (Array, usize),
    Fault,
>)
    requires
        type_supported(data_type@),
        pos <= bytes@.len(),
    ensures
        r matches Ok((a, p)) ==> {
            &&& a.wf()
            &&& a@.data_type == data_type@
            &&& parse_cells(bytes@, pos as int, data_type@, rows as nat) == Some::<
                (Seq<Option<ScalarModel>>, int),
            >((a@.cells, p as int))
            &&& a@.cells.len() == rows
            &&& pos <= p <= bytes@.len()
        },
        r is Err ==> parse_cells(bytes@, pos as int, data_type@, rows as nat) is None && r
            == Err::<(Array, usize), Fault>(Fault::Decode),
{
    proof {
        crate::types::lemma_type_model_constructor(*data_type);
    }
    match data_type {
        LogicalType::Null => {
            let a = Array {
                data_type: LogicalType::Null,
                data: ColumnData::NullOnly { len: rows },
            };
            Ok((a, pos))
        },
        LogicalType::Dictionary(k, vt) => {
            let (cells, p) = match decode_cells(bytes, pos, data_type, rows) {
                Ok(x) => x,
                Err(e) => {
                    return Err(e);
                },
            };
            let ghost tm = data_type@;
            let (keys, values) = build_dict_storage(&cells, Ghost(tm));
            let a = Array {
                data_type: data_type.duplicate(),
                data: ColumnData::Dict { keys, values },
            };
            Ok((a, p))
        },
        _ => {
            let (cells, p) = match decode_cells(bytes, pos, data_type, rows) {
                Ok(x) => x,
                Err(e) => {
                    return Err(e);
                },
            };
            let a = Array {
                data_type: data_type.duplicate(),
                data: ColumnData::Plain { cells },
            };
            Ok((a, p))
        },
    }
}

/// Decodes one batch payload against the expected schema: the row
/// count, then one column per field; trailing bytes are malformed.
/// A schema outside the supported matrix is an `UnsupportedType`
/// fault; malformed or truncated bytes are a `Decode` fault.
pub fn decode_batch_payload(bytes: &Vec<u8>, schema: &Schema) -> (r: Result<RecordBatch, Fault>)
    ensures
        r matches Ok(b) ==> {
            &&& schema_supported(schema@)
            &&& b.wf()
            &&& b@.schema == schema@
            &&& parse_batch_payload(bytes@, schema@) == Some::<(nat, Seq<Seq<Option<ScalarModel>>>)>(
                (b.num_rows as nat, b@.columns),
            )
        },
        r == Err::<RecordBatch, Fault>(Fault::UnsupportedType) <==> !schema_supported(schema@),
        r == Err::<RecordBatch, Fault>(Fault::Decode) ==> parse_batch_payload(bytes@, schema@)
            is None,
        r is Err ==> r == Err::<RecordBatch, Fault>(Fault::UnsupportedType) || r == Err::<
            RecordBatch,
            Fault,
        >(Fault::Decode),
{
    let nf = schema.num_fields();
    let mut fi: usize = 0;
    while fi < nf
        invariant
            nf == schema@.len(),
            0 <= fi <= nf,
            forall|j: int| 0 <= j < fi ==> type_supported(#[trigger] schema@[j].data_type),
        decreases nf - fi,
    {
        proof {
            assert(schema@[fi as int] == schema.fields@[fi as int]@);
        }
        if !schema.fields[fi].data_type.is_supported() {
            return Err(Fault::UnsupportedType);
        }
        fi += 1;
    }
    let (rows64, mut pos) = match read_word(bytes, 0) {
        Ok(x) => x,
        Err(e) => {
            return Err(e);
        },
    };
    if rows64 > usize::MAX as u64 {
        return Err(Fault::Decode);
    }
    let rows = rows64 as usize;
    let mut columns: Vec<Array> = Vec::new();
    let mut i: usize = 0;
    while i < nf
        invariant
            nf == schema@.len(),
            0 <= i <= nf,
            schema_supported(schema@),
            rows64 == rows,
            8 <= bytes@.len(),
            rows64 == spec_u64_from_le_bytes(bytes@.subrange(0, 8)),
            pos <= bytes@.len(),
            columns@.len() == i,
            forall|j: int| 0 <= j < i ==> (#[trigger] columns@[j]).wf(),
            forall|j: int|
                0 <= j < i ==> (#[trigger] columns@[j])@.data_type == schema@[j].data_type,
            forall|j: int| 0 <= j < i ==> (#[trigger] columns@[j])@.cells.len() == rows,
            parse_columns(bytes@, 8, schema@, 0, rows as nat) == (match parse_columns(
                bytes@,
                pos as int,
                schema@,
                i as nat,
                rows as nat,
            ) {
                Option::None => Option::None::<(Seq<Seq<Option<ScalarModel>>>, int)>,
                Option::Some((cols2, p2)) => Option::Some(
                    (columns@.map(|q: int, a: Array| a@.cells) + cols2, p2),
                ),
            }),
        decreases nf - i,
    {
        proof {
            assert(schema@[i as int] == schema.fields@[i as int]@);
        }
        let (a, p) = match decode_column(bytes, pos, &schema.fields[i].data_type, rows) {
            Ok(x) => x,
            Err(e) => {
                return Err(Fault::Decode);
            },
        };
        let ghost precols = columns@;
        columns.push(a);
        proof {
            assert forall|cols2: Seq<Seq<Option<ScalarModel>>>|
                true implies (precols.map(|q: int, a2: Array| a2@.cells) + (seq![columns@.last()@.cells]
                + cols2)) == (columns@.map(|q: int, a2: Array| a2@.cells) + cols2) by {
                assert(precols.map(|q: int, a2: Array| a2@.cells) + (seq![
                    columns@.last()@.cells,
                ] + cols2) =~= columns@.map(|q: int, a2: Array| a2@.cells) + cols2);
            }
        }
        pos = p;
        i += 1;
    }
    if pos != bytes.len() {
        return Err(Fault::Decode);
    }
    let batch = RecordBatch { schema: schema.duplicate(), columns, num_rows: rows };
    proof {
        assert(columns@.map(|q: int, a2: Array| a2@.cells) + Seq::<
            Seq<Option<ScalarModel>>,
        >::empty() =~= columns@.map(|q: int, a2: Array| a2@.cells));
        assert(batch@.columns =~= columns@.map(|q: int, a2: Array| a2@.cells));
        assert(batch.wf());
    }
    Ok(batch)
}

/// Cells at the model level that fit a type.
pub open spec fn models_fit(cells: Seq<Option<ScalarModel>>, t: TypeModel) -> bool {
    forall|i: int|
        0 <= i < cells.len() ==> ((#[trigger] cells[i]) matches Option::Some(m) ==> value_fits(
            m,
            t,
        ))
}

/// The logical cells of a well-formed column fit its type.
pub proof fn lemma_array_models_fit(a: Array)
    requires
        a.wf(),
    ensures
        models_fit(a@.cells, a@.data_type),
{
    match a.data {
        ColumnData::NullOnly { len } => {},
        ColumnData::Plain { cells } => {
            assert forall|i: int|
                0 <= i < a@.cells.len() && (#[trigger] a@.cells[i]) is Some implies value_fits(
                a@.cells[i]->0,
                a@.data_type,
            ) by {
                assert(a@.cells[i] == cell_model(cells@[i]));
            }
        },
        ColumnData::Dict { keys, values } => {
            assert forall|i: int|
                0 <= i < a@.cells.len() && (#[trigger] a@.cells[i]) is Some implies value_fits(
                a@.cells[i]->0,
                a@.data_type,
            ) by {
                assert(a@.cells[i] == resolve_key(keys@[i], values@));
                assert(keys@[i] is Some);
                assert(keys@[i]->0 < values@.len());
            }
        },
    }
}

/// Appends one cell to the wire.
fn encode_cell(out: &mut Vec<u8>, c: &Option<ScalarValue>, t: &LogicalType)
    requires
        c matches Some(v) ==> value_fits(v@, t@),
    ensures
        final(out)@ == old(out)@ + spec_encode_cell(cell_model(*c), t@),
{
    match c {
        Option::None => {
            out.push(0u8);
            proof {
                assert(out@ =~= old(out)@ + spec_encode_cell(cell_model(*c), t@));
            }
        },
        Option::Some(v) => {
            out.push(1u8);
            let ghost mid = out@;
            encode_value(out, v, t);
            proof {
                assert(out@ =~= old(out)@ + spec_encode_cell(cell_model(*c), t@));
            }
        },
    }
}

/// Appending one more cell extends the encoding of a run of cells.
proof fn lemma_encode_cells_snoc(cells: Seq<Option<ScalarModel>>, c: Option<ScalarModel>, t: TypeModel)
    requires
        !(t is Null),
    ensures
        spec_encode_cells(cells.push(c), t) == spec_encode_cells(cells, t) + spec_encode_cell(
            c,
            t,
        ),
    decreases cells.len(),
{
    if cells.len() == 0 {
        assert(cells.push(c).drop_first() =~= cells);
        assert(cells.push(c)[0] == c);
        assert(spec_encode_cells(cells.push(c), t) =~= spec_encode_cells(cells, t)
            + spec_encode_cell(c, t));
    } else {
        assert(cells.push(c).drop_first() =~= cells.drop_first().push(c));
        assert(cells.push(c)[0] == cells[0]);
        lemma_encode_cells_snoc(cells.drop_first(), c, t);
        assert(spec_encode_cell(cells[0], t) + (spec_encode_cells(cells.drop_first(), t)
            + spec_encode_cell(c, t)) =~= (spec_encode_cell(cells[0], t) + spec_encode_cells(
            cells.drop_first(),
            t,
        )) + spec_encode_cell(c, t));
    }
}

/// Appends one column's cells to the wire.
fn encode_cells(out: &mut Vec<u8>, cells: &Vec<Option<ScalarValue>>, t: &LogicalType)
    requires
        cells_fit(cells@, t@),
        !(t@ is Null),
    ensures
        final(out)@ == old(out)@ + spec_encode_cells(opt_cells(cells@), t@),
{
    let n = cells.len();
    let mut i: usize = 0;
    proof {
        assert(opt_cells(cells@.subrange(0, 0)) =~= Seq::<Option<ScalarModel>>::empty());
        assert(out@ =~= old(out)@ + spec_encode_cells(opt_cells(cells@.subrange(0, 0)), t@));
    }
    while i < n
        invariant
            n == cells@.len(),
            0 <= i <= n,
            cells_fit(cells@, t@),
            !(t@ is Null),
            out@ == old(out)@ + spec_encode_cells(opt_cells(cells@.subrange(0, i as int)), t@),
        decreases n - i,
    {
        let ghost pre = out@;
        encode_cell(out, &cells[i], t);
        proof {
            crate::column::lemma_opt_cells_take_one_more(cells@, i as int);
            lemma_encode_cells_snoc(
                opt_cells(cells@.subrange(0, i as int)),
                cell_model(cells@[i as int]),
                t@,
            );
            assert((old(out)@ + spec_encode_cells(opt_cells(cells@.subrange(0, i as int)), t@))
                + spec_encode_cell(cell_model(cells@[i as int]), t@) =~= old(out)@
                + (spec_encode_cells(opt_cells(cells@.subrange(0, i as int)), t@)
                + spec_encode_cell(cell_model(cells@[i as int]), t@)));
        }
        i += 1;
    }
    proof {
        assert(cells@.subrange(0, n as int) =~= cells@);
    }
}

/// The directly stored cells of a column, dictionary keys resolved.
fn column_to_cells(a: &Array) -> (r: Vec<Option<ScalarValue>>)
    requires
        a.wf(),
    ensures
        opt_cells(r@) == a@.cells,
        cells_fit(r@, a@.data_type),
        r@.len() == a@.cells.len(),
{
    match &a.data {
        ColumnData::NullOnly { len } => {
            let r = all_null_cells(*len);
            proof {
                assert(opt_cells(r@) =~= a@.cells);
            }
            r
        },
        ColumnData::Plain { cells } => {
            let n = cells.len();
            let mut r: Vec<Option<ScalarValue>> = Vec::new();
            let mut i: usize = 0;
            while i < n
                invariant
                    n == cells@.len(),
                    0 <= i <= n,
                    r@.len() == i,
                    cells_fit(cells@, a@.data_type),
                    cells_fit(r@, a@.data_type),
                    opt_cells(r@) == opt_cells(cells@.subrange(0, i as int)),
                decreases n - i,
            {
                let c = crate::column::duplicate_cell(&cells[i]);
                let ghost pre = r@;
                r.push(c);
                proof {
                    lemma_opt_cells_push(pre, c);
                    crate::column::lemma_opt_cells_take_one_more(cells@, i as int);
                }
                i += 1;
            }
            proof {
                assert(cells@.subrange(0, n as int) =~= cells@);
            }
            r
        },
        ColumnData::Dict { keys, values } => {
            let n = keys.len();
            let mut r: Vec<Option<ScalarValue>> = Vec::new();
            let mut i: usize = 0;
            while i < n
                invariant
                    n == keys@.len(),
                    0 <= i <= n,
                    r@.len() == i,
                    keys_in_range(keys@, values@.len() as int),
                    values_fit(values@, a@.data_type),
                    cells_fit(r@, a@.data_type),
                    forall|j: int|
                        0 <= j < i ==> opt_cells(r@)[j] == resolve_key(keys@[j], values@),
                decreases n - i,
            {
                let c = match &keys[i] {
                    Option::None => Option::None,
                    Option::Some(k) => Option::Some(values[*k].duplicate()),
                };
                let ghost pre = r@;
                r.push(c);
                proof {
                    lemma_opt_cells_push(pre, c);
                }
                i += 1;
            }
            proof {
                assert(opt_cells(r@) =~= dict_cells(keys@, values@));
            }
            r
        },
    }
}

/// The wire bytes of one batch payload.
pub fn encode_batch_payload(batch: &RecordBatch) -> (out: Vec<u8>)
    requires
        batch.wf(),
    ensures
        out@ == spec_encode_payload(batch.num_rows as nat, batch@.columns, batch@.schema),
{
    let mut out: Vec<u8> = Vec::new();
    let bs = u64_to_le_bytes(batch.num_rows as u64);
    push_bytes(&mut out, &bs);
    let ghost cols = batch@.columns;
    let ghost sm = batch@.schema;
    let n = batch.columns.len();
    let mut i: usize = 0;
    while i < n
        invariant
            n == cols.len() == sm.len(),
            0 <= i <= n,
            batch.wf(),
            cols == batch@.columns,
            sm == batch@.schema,
            out@ + spec_encode_columns(cols, sm, i as nat) == spec_encode_payload(
                batch.num_rows as nat,
                cols,
                sm,
            ),
        decreases n - i,
    {
        proof {
            assert(sm[i as int] == batch.schema.fields@[i as int]@);
            assert(batch.columns@[i as int].wf());
            assert(cols[i as int] == batch.columns@[i as int]@.cells);
        }
        let a = &batch.columns[i];
        match &a.data {
            ColumnData::NullOnly { len } => {
                proof {
                    assert(spec_encode_cells(cols[i as int], sm[i as int].data_type)
                        =~= Seq::<u8>::empty());
                    assert(out@ + Seq::<u8>::empty() =~= out@);
                }
            },
            _ => {
                let cells = column_to_cells(a);
                let ghost pre = out@;
                encode_cells(&mut out, &cells, &a.data_type);
                proof {
                    assert((pre + spec_encode_cells(cols[i as int], sm[i as int].data_type))
                        + spec_encode_columns(cols, sm, (i + 1) as nat) =~= pre
                        + (spec_encode_cells(cols[i as int], sm[i as int].data_type)
                        + spec_encode_columns(cols, sm, (i + 1) as nat)));
                }
            },
        }
        i += 1;
    }
    proof {
        assert(out@ + Seq::<u8>::empty() =~= out@);
    }
    out
}

/// A window into a known window of a byte sequence.
proof fn lemma_subrange_of_subrange(bytes: Seq<u8>, pos: int, enc: Seq<u8>, a: int, b: int)
    requires
        0 <= pos,
        pos + enc.len() <= bytes.len(),
        bytes.subrange(pos, pos + enc.len() as int) == enc,
        0 <= a <= b <= enc.len(),
    ensures
        bytes.subrange(pos + a, pos + b) == enc.subrange(a, b),
{
    assert forall|k: int| 0 <= k < b - a implies bytes.subrange(pos + a, pos + b)[k]
        == enc.subrange(a, b)[k] by {
        assert(bytes.subrange(pos + a, pos + b)[k] == bytes[pos + a + k]);
        assert(bytes.subrange(pos, pos + enc.len() as int)[a + k] == bytes[pos + a + k]);
        assert(enc[a + k] == enc.subrange(a, b)[k]);
    }
    assert(bytes.subrange(pos + a, pos + b) =~= enc.subrange(a, b));
}

/// Parsing an encoded cell back yields the cell itself.
proof fn lemma_parse_encoded_cell(bytes: Seq<u8>, pos: int, c: Option<ScalarModel>, t: TypeModel)
    requires
        c matches Some(m) ==> value_fits(m, t),
        !(t is Null),
        0 <= pos,
        pos + spec_encode_cell(c, t).len() <= bytes.len(),
        bytes.subrange(pos, pos + spec_encode_cell(c, t).len() as int) == spec_encode_cell(c, t),
        spec_encode_cell(c, t).len() <= usize::MAX,
    ensures
        parse_cell(bytes, pos, t) == Some::<(Option<ScalarModel>, int)>(
            (c, pos + spec_encode_cell(c, t).len()),
        ),
{
    let enc = spec_encode_cell(c, t);
    match c {
        Option::None => {
            assert(bytes[pos] == enc[0]);
        },
        Option::Some(m) => {
            assert(bytes[pos] == enc[0]);
            assert(bytes[pos] == 1u8);
            let venc = spec_encode_value(m, t);
            lemma_subrange_of_subrange(bytes, pos, enc, 1, 1 + venc.len() as int);
            assert(enc.subrange(1, 1 + venc.len() as int) =~= venc);
            lemma_parse_encoded_value(bytes, pos + 1, m, t);
        },
    }
}

/// Parsing an encoded run of cells back yields the cells themselves.
proof fn lemma_parse_encoded_cells(bytes: Seq<u8>, pos: int, cells: Seq<Option<ScalarModel>>, t: TypeModel)
    requires
        models_fit(cells, t),
        !(t is Null),
        0 <= pos,
        pos + spec_encode_cells(cells, t).len() <= bytes.len(),
        bytes.subrange(pos, pos + spec_encode_cells(cells, t).len() as int) == spec_encode_cells(
            cells,
            t,
        ),
        spec_encode_cells(cells, t).len() <= usize::MAX,
    ensures
        parse_cells(bytes, pos, t, cells.len()) == Some::<(Seq<Option<ScalarModel>>, int)>(
            (cells, pos + spec_encode_cells(cells, t).len()),
        ),
    decreases cells.len(),
{
    let enc = spec_encode_cells(cells, t);
    if cells.len() == 0 {
        assert(cells =~= Seq::<Option<ScalarModel>>::empty());
    } else {
        let c0 = cells[0];
        let e0 = spec_encode_cell(c0, t);
        let rest = spec_encode_cells(cells.drop_first(), t);
        assert(enc == e0 + rest);
        lemma_subrange_of_subrange(bytes, pos, enc, 0, e0.len() as int);
        assert(enc.subrange(0, e0.len() as int) =~= e0);
        lemma_parse_encoded_cell(bytes, pos, c0, t);
        lemma_subrange_of_subrange(bytes, pos, enc, e0.len() as int, enc.len() as int);
        assert(enc.subrange(e0.len() as int, enc.len() as int) =~= rest);
        lemma_parse_encoded_cells(bytes, pos + e0.len() as int, cells.drop_first(), t);
        assert(seq![c0] + cells.drop_first() =~= cells);
    }
}

/// Parsing encoded columns back yields the columns themselves.
proof fn lemma_parse_encoded_columns(
    bytes: Seq<u8>,
    pos: int,
    columns: Seq<Seq<Option<ScalarModel>>>,
    schema: Seq<FieldModel>,
    idx: nat,
    rows: nat,
)
    requires
        columns.len() == schema.len(),
        forall|j: int|
            idx <= j < columns.len() ==> models_fit(#[trigger] columns[j], schema[j].data_type),
        forall|j: int| idx <= j < columns.len() ==> (#[trigger] columns[j]).len() == rows,
        0 <= pos,
        idx <= schema.len(),
        pos + spec_encode_columns(columns, schema, idx).len() <= bytes.len(),
        bytes.subrange(pos, pos + spec_encode_columns(columns, schema, idx).len() as int)
            == spec_encode_columns(columns, schema, idx),
        spec_encode_columns(columns, schema, idx).len() <= usize::MAX,
    ensures
        parse_columns(bytes, pos, schema, idx, rows) == Some::<
            (Seq<Seq<Option<ScalarModel>>>, int),
        >(
            (
                columns.subrange(idx as int, columns.len() as int),
                pos + spec_encode_columns(columns, schema, idx).len(),
            ),
        ),
    decreases schema.len() - idx,
{
    let enc = spec_encode_columns(columns, schema, idx);
    if idx >= schema.len() {
        assert(columns.subrange(idx as int, columns.len() as int) =~= Seq::<
            Seq<Option<ScalarModel>>,
        >::empty());
    } else {
        let t = schema[idx as int].data_type;
        let col = columns[idx as int];
        let e0 = spec_encode_cells(col, t);
        let rest = spec_encode_columns(columns, schema, idx + 1);
        assert(enc == e0 + rest);
        if t is Null {
            assert(e0 =~= Seq::<u8>::empty());
            assert(col =~= null_cells(rows));
            assert(parse_cells(bytes, pos, t, rows) == Some::<(Seq<Option<ScalarModel>>, int)>(
                (col, pos),
            ));
        } else {
            lemma_subrange_of_subrange(bytes, pos, enc, 0, e0.len() as int);
            assert(enc.subrange(0, e0.len() as int) =~= e0);
            lemma_parse_encoded_cells(bytes, pos, col, t);
        }
        lemma_subrange_of_subrange(bytes, pos, enc, e0.len() as int, enc.len() as int);
        assert(enc.subrange(e0.len() as int, enc.len() as int) =~= rest);
        lemma_parse_encoded_columns(bytes, pos + e0.len() as int, columns, schema, idx + 1, rows);
        assert(seq![col] + columns.subrange(idx as int + 1, columns.len() as int) =~= columns.subrange(
            idx as int,
            columns.len() as int,
        ));
    }
}

/// Parsing an encoded batch payload back yields the row count and the
/// columns themselves.
pub proof fn lemma_parse_encoded_payload(
    rows: nat,
    columns: Seq<Seq<Option<ScalarModel>>>,
    schema: Seq<FieldModel>,
)
    requires
        columns.len() == schema.len(),
        forall|j: int|
            0 <= j < columns.len() ==> models_fit(#[trigger] columns[j], schema[j].data_type),
        forall|j: int| 0 <= j < columns.len() ==> (#[trigger] columns[j]).len() == rows,
        rows <= usize::MAX,
        spec_encode_payload(rows, columns, schema).len() <= usize::MAX,
    ensures
        parse_batch_payload(spec_encode_payload(rows, columns, schema), schema) == Some::<
            (nat, Seq<Seq<Option<ScalarModel>>>),
        >((rows, columns)),
{
    lemma_auto_spec_u64_to_from_le_bytes();
    let bytes = spec_encode_payload(rows, columns, schema);
    let head = spec_u64_to_le_bytes(rows as u64);
    let body = spec_encode_columns(columns, schema, 0);
    assert(bytes == head + body);
    assert(bytes.subrange(0, 8) =~= head);
    assert(spec_u64_from_le_bytes(bytes.subrange(0, 8)) == rows);
    assert(bytes.subrange(8, 8 + body.len() as int) =~= body);
    lemma_parse_encoded_columns(bytes, 8, columns, schema, 0, rows);
    assert(columns.subrange(0, columns.len() as int) =~= columns);
}

/// The wire flag byte for a compression capability.
pub open spec fn flag_byte(compress: bool) -> u8 {
    if compress {
        1u8
    } else {
        0u8
    }
}

/// The wire bytes of one frame: flag, payload length, payload.
pub open spec fn spec_encode_frame(payload: Seq<u8>, compress: bool) -> Seq<u8> {
    seq![flag_byte(compress)] + spec_u64_to_le_bytes(payload.len() as u64) + payload
}

/// Parses a whole segment: a run of frames, each one batch, ending
/// exactly at the end of the bytes. `None` on malformed or truncated
/// bytes or a compression-capability mismatch.
pub open spec fn parse_stream(bytes: Seq<u8>, schema: Seq<FieldModel>, compress: bool) -> Option<
    Seq<BatchModel>,
>
    decreases bytes.len(),
{
    if bytes.len() == 0 {
        Option::Some(Seq::empty())
    } else if bytes.len() >= 9 {
        let flag = bytes[0];
        let plen = spec_u64_from_le_bytes(bytes.subrange(1, 9)) as int;
        if flag == flag_byte(compress) && plen + 9 <= usize::MAX && 9 + plen <= bytes.len() {
            let payload = bytes.subrange(9, 9 + plen);
            match parse_batch_payload(payload, schema) {
                Option::None => Option::None,
                Option::Some((rows, cols)) => {
                    match parse_stream(bytes.skip(9 + plen), schema, compress) {
                        Option::None => Option::None,
                        Option::Some(bs) => Option::Some(
                            seq![BatchModel { schema: schema, columns: cols }] + bs,
                        ),
                    }
                },
            }
        } else {
            Option::None
        }
    } else {
        Option::None
    }
}

/// The batches of every whole, well-formed frame at the front of the
/// bytes: what a decoder can still emit before it reaches the end or a
/// malformed frame.
pub open spec fn parse_avail(bytes: Seq<u8>, schema: Seq<FieldModel>, compress: bool) -> Seq<
    BatchModel,
>
    decreases bytes.len(),
{
    if bytes.len() == 0 {
        Seq::empty()
    } else if bytes.len() >= 9 {
        let flag = bytes[0];
        let plen = spec_u64_from_le_bytes(bytes.subrange(1, 9)) as int;
        if flag == flag_byte(compress) && plen + 9 <= usize::MAX && 9 + plen <= bytes.len() {
            let payload = bytes.subrange(9, 9 + plen);
            match parse_batch_payload(payload, schema) {
                Option::None => Seq::empty(),
                Option::Some((rows, cols)) => seq![BatchModel { schema: schema, columns: cols }]
                    + parse_avail(bytes.skip(9 + plen), schema, compress),
            }
        } else {
            Seq::empty()
        }
    } else {
        Seq::empty()
    }
}

/// On a well-formed segment the available batches are all of them.
pub proof fn lemma_parse_avail_of_clean(bytes: Seq<u8>, schema: Seq<FieldModel>, compress: bool)
    requires
        parse_stream(bytes, schema, compress) is Some,
    ensures
        parse_avail(bytes, schema, compress) == parse_stream(bytes, schema, compress).unwrap(),
    decreases bytes.len(),
{
    if bytes.len() == 0 {
    } else {
        let plen = spec_u64_from_le_bytes(bytes.subrange(1, 9)) as int;
        lemma_parse_avail_of_clean(bytes.skip(9 + plen), schema, compress);
    }
}

/// The wire bytes of one batch as a frame.
pub fn encode_frame(batch: &RecordBatch, compress: bool) -> (out: Vec<u8>)
    requires
        batch.wf(),
    ensures
        out@ == spec_encode_frame(
            spec_encode_payload(batch.num_rows as nat, batch@.columns, batch@.schema),
            compress,
        ),
{
    let payload = encode_batch_payload(batch);
    let mut out: Vec<u8> = Vec::new();
    let flag: u8 = if compress {
        1
    } else {
        0
    };
    out.push(flag);
    let bs = u64_to_le_bytes(payload.len() as u64);
    push_bytes(&mut out, &bs);
    push_bytes(&mut out, &payload);
    proof {
        assert(out@ =~= spec_encode_frame(payload@, compress));
    }
    out
}

/// A frame followed by more well-formed stream bytes parses to the
/// frame's batch followed by the batches of the rest.
pub proof fn lemma_parse_stream_prepend(
    rows: nat,
    b: BatchModel,
    rest: Seq<u8>,
    compress: bool,
)
    requires
        b.columns.len() == b.schema.len(),
        forall|j: int|
            0 <= j < b.columns.len() ==> models_fit(#[trigger] b.columns[j], b.schema[j].data_type),
        forall|j: int| 0 <= j < b.columns.len() ==> (#[trigger] b.columns[j]).len() == rows,
        rows <= usize::MAX,
        spec_encode_payload(rows, b.columns, b.schema).len() + 9 <= usize::MAX,
        parse_stream(rest, b.schema, compress) is Some,
    ensures
        parse_stream(
            spec_encode_frame(spec_encode_payload(rows, b.columns, b.schema), compress) + rest,
            b.schema,
            compress,
        ) == Some::<Seq<BatchModel>>(
            seq![b] + parse_stream(rest, b.schema, compress).unwrap(),
        ),
{
    lemma_auto_spec_u64_to_from_le_bytes();
    let payload = spec_encode_payload(rows, b.columns, b.schema);
    let frame = spec_encode_frame(payload, compress);
    let bytes = frame + rest;
    assert(bytes.len() >= 9);
    assert(bytes[0] == flag_byte(compress));
    assert(bytes.subrange(1, 9) =~= spec_u64_to_le_bytes(payload.len() as u64));
    let plen = spec_u64_from_le_bytes(bytes.subrange(1, 9)) as int;
    assert(plen == payload.len());
    assert(bytes.subrange(9, 9 + plen) =~= payload);
    lemma_parse_encoded_payload(rows, b.columns, b.schema);
    assert(bytes.skip(9 + plen) =~= rest);
    assert(seq![BatchModel { schema: b.schema, columns: b.columns }] + parse_stream(
        rest,
        b.schema,
        compress,
    ).unwrap() =~= seq![b] + parse_stream(rest, b.schema, compress).unwrap());
}

/// The wire tag of a time unit.
pub open spec fn unit_of(b: u8) -> Option<TimeUnit> {
    if b == 0u8 {
        Option::Some(TimeUnit::Second)
    } else if b == 1u8 {
        Option::Some(TimeUnit::Millisecond)
    } else if b == 2u8 {
        Option::Some(TimeUnit::Microsecond)
    } else if b == 3u8 {
        Option::Some(TimeUnit::Nanosecond)
    } else {
        Option::None
    }
}

/// The wire tag of a dictionary key type.
pub open spec fn dict_key_of(b: u8) -> Option<DictKeyType> {
    if b == 0u8 {
        Option::Some(DictKeyType::Int8)
    } else if b == 1u8 {
        Option::Some(DictKeyType::Int16)
    } else if b == 2u8 {
        Option::Some(DictKeyType::Int32)
    } else if b == 3u8 {
        Option::Some(DictKeyType::Int64)
    } else if b == 4u8 {
        Option::Some(DictKeyType::UInt8)
    } else if b == 5u8 {
        Option::Some(DictKeyType::UInt16)
    } else if b == 6u8 {
        Option::Some(DictKeyType::UInt32)
    } else if b == 7u8 {
        Option::Some(DictKeyType::UInt64)
    } else {
        Option::None
    }
}

/// Parses one length-prefixed text run at `pos`.
pub open spec fn parse_text(bytes: Seq<u8>, pos: int) -> Option<(Seq<char>, int)> {
    match parse_byte_run(bytes, pos, true) {
        Option::None => Option::None,
        Option::Some((m, p)) => Option::Some((m->Text_0, p)),
    }
}

/// Parses one encoded logical type at `pos`: a tag byte and the tag's
/// parameters; a dictionary tag is followed by a key tag and the
/// encoded value type.
pub open spec fn parse_type(bytes: Seq<u8>, pos: int) -> Option<(TypeModel, int)>
    decreases bytes.len() - pos,
{
    if 0 <= pos && pos + 1 <= bytes.len() {
        let tag = bytes[pos];
        if tag == 0u8 {
            Option::Some((TypeModel::Null, pos + 1))
        } else if tag == 1u8 {
            Option::Some((TypeModel::Boolean, pos + 1))
        } else if tag == 2u8 {
            Option::Some((TypeModel::Int8, pos + 1))
        } else if tag == 3u8 {
            Option::Some((TypeModel::Int16, pos + 1))
        } else if tag == 4u8 {
            Option::Some((TypeModel::Int32, pos + 1))
        } else if tag == 5u8 {
            Option::Some((TypeModel::Int64, pos + 1))
        } else if tag == 6u8 {
            Option::Some((TypeModel::UInt8, pos + 1))
        } else if tag == 7u8 {
            Option::Some((TypeModel::UInt16, pos + 1))
        } else if tag == 8u8 {
            Option::Some((TypeModel::UInt32, pos + 1))
        } else if tag == 9u8 {
            Option::Some((TypeModel::UInt64, pos + 1))
        } else if tag == 10u8 {
            Option::Some((TypeModel::Float32, pos + 1))
        } else if tag == 11u8 {
            Option::Some((TypeModel::Float64, pos + 1))
        } else if tag == 12u8 {
            Option::Some((TypeModel::Date32, pos + 1))
        } else if tag == 13u8 {
            Option::Some((TypeModel::Date64, pos + 1))
        } else if tag == 14u8 || tag == 15u8 {
            if pos + 2 <= bytes.len() {
                match unit_of(bytes[pos + 1]) {
                    Option::None => Option::None,
                    Option::Some(u) => Option::Some(
                        (
                            if tag == 14u8 {
                                TypeModel::Time32(u)
                            } else {
                                TypeModel::Time64(u)
                            },
                            pos + 2,
                        ),
                    ),
                }
            } else {
                Option::None
            }
        } else if tag == 16u8 {
            if pos + 3 <= bytes.len() {
                match unit_of(bytes[pos + 1]) {
                    Option::None => Option::None,
                    Option::Some(u) => {
                        if bytes[pos + 2] == 0u8 {
                            Option::Some((TypeModel::Timestamp(u, Option::None), pos + 3))
                        } else if bytes[pos + 2] == 1u8 {
                            match parse_text(bytes, pos + 3) {
                                Option::None => Option::None,
                                Option::Some((tz, p)) => Option::Some(
                                    (TypeModel::Timestamp(u, Option::Some(tz)), p),
                                ),
                            }
                        } else {
                            Option::None
                        }
                    },
                }
            } else {
                Option::None
            }
        } else if tag == 17u8 {
            Option::Some((TypeModel::Binary, pos + 1))
        } else if tag == 18u8 {
            Option::Some((TypeModel::LargeBinary, pos + 1))
        } else if tag == 19u8 {
            Option::Some((TypeModel::Utf8, pos + 1))
        } else if tag == 20u8 {
            Option::Some((TypeModel::LargeUtf8, pos + 1))
        } else if tag == 21u8 || tag == 22u8 {
            if pos + 3 <= bytes.len() {
                let p = bytes[pos + 1];
                let sc = bytes[pos + 2] as i8;
                Option::Some(
                    (
                        if tag == 21u8 {
                            TypeModel::Decimal128(p, sc)
                        } else {
                            TypeModel::Decimal256(p, sc)
                        },
                        pos + 3,
                    ),
                )
            } else {
                Option::None
            }
        } else if tag == 23u8 {
            if pos + 2 <= bytes.len() {
                match dict_key_of(bytes[pos + 1]) {
                    Option::None => Option::None,
                    Option::Some(k) => match parse_type(bytes, pos + 2) {
                        Option::None => Option::None,
                        Option::Some((vt, p)) => Option::Some(
                            (TypeModel::Dictionary(k, Box::new(vt)), p),
                        ),
                    },
                }
            } else {
                Option::None
            }
        } else {
            Option::None
        }
    } else {
        Option::None
    }
}

/// Parses one encoded schema field: name, type, nullability byte.
pub open spec fn parse_schema_field(bytes: Seq<u8>, pos: int) -> Option<(FieldModel, int)> {
    match parse_text(bytes, pos) {
        Option::None => Option::None,
        Option::Some((name, p1)) => match parse_type(bytes, p1) {
            Option::None => Option::None,
            Option::Some((t, p2)) => {
                if p2 + 1 <= bytes.len() && (bytes[p2] == 0u8 || bytes[p2] == 1u8) {
                    Option::Some(
                        (
                            FieldModel { name: name, data_type: t, nullable: bytes[p2] == 1u8 },
                            p2 + 1,
                        ),
                    )
                } else {
                    Option::None
                }
            },
        },
    }
}

/// Parses `n` encoded schema fields at `pos`.
pub open spec fn parse_schema_fields(bytes: Seq<u8>, pos: int, n: nat) -> Option<
    (Seq<FieldModel>, int),
>
    decreases n,
{
    if n == 0 {
        Option::Some((Seq::empty(), pos))
    } else {
        match parse_schema_field(bytes, pos) {
            Option::None => Option::None,
            Option::Some((f, p)) => match parse_schema_fields(bytes, p, (n - 1) as nat) {
                Option::None => Option::None,
                Option::Some((fs, p2)) => Option::Some((seq![f] + fs, p2)),
            },
        }
    }
}

/// Parses one schema message payload: the field count, then every
/// field; trailing bytes are malformed.
pub open spec fn parse_schema_payload(bytes: Seq<u8>) -> Option<Seq<FieldModel>> {
    if 8 <= bytes.len() {
        let n = spec_u64_from_le_bytes(bytes.subrange(0, 8)) as nat;
        if n <= usize::MAX {
            match parse_schema_fields(bytes, 8, n) {
                Option::None => Option::None,
                Option::Some((fs, p)) => {
                    if p == bytes.len() {
                        Option::Some(fs)
                    } else {
                        Option::None
                    }
                },
            }
        } else {
            Option::None
        }
    } else {
        Option::None
    }
}

/// Decodes one text run at `pos`, exactly as [`parse_text`] reads it.
fn decode_text(bytes: &Vec<u8>, pos: usize) -> (r: Result<(String, usize), Fault>)
    ensures
        r matches Ok((t, p)) ==> parse_text(bytes@, pos as int) == Some::<(Seq<char>, int)>(
            (t@, p as int),
        ) && pos < p <= bytes@.len(),
        r is Err ==> parse_text(bytes@, pos as int) is None && r == Err::<(String, usize), Fault>(
            Fault::Decode,
        ),
{
    let (v, p) = match read_byte_run(bytes, pos) {
        Ok(x) => x,
        Err(e) => {
            return Err(e);
        },
    };
    match string_from_utf8(v) {
        Some(t) => Ok((t, p)),
        None => Err(Fault::Decode),
    }
}

/// Decodes one encoded logical type at `pos`, exactly as
/// [`parse_type`] reads it.
fn decode_type(bytes: &Vec<u8>, pos: usize) -> (r: Result<(LogicalType, usize), Fault>)
    requires
        pos <= bytes@.len(),
    ensures
        r matches Ok((t, p)) ==> parse_type(bytes@, pos as int) == Some::<(TypeModel, int)>(
            (t@, p as int),
        ) && pos < p <= bytes@.len(),
        r is Err ==> parse_type(bytes@, pos as int) is None && r == Err::<
            (LogicalType, usize),
            Fault,
        >(Fault::Decode),
    decreases bytes@.len() - pos,
{
    if pos >= bytes.len() {
        return Err(Fault::Decode);
    }
    let tag = bytes[pos];
    if tag == 0 {
        Ok((LogicalType::Null, pos + 1))
    } else if tag == 1 {
        Ok((LogicalType::Boolean, pos + 1))
    } else if tag == 2 {
        Ok((LogicalType::Int8, pos + 1))
    } else if tag == 3 {
        Ok((LogicalType::Int16, pos + 1))
    } else if tag == 4 {
        Ok((LogicalType::Int32, pos + 1))
    } else if tag == 5 {
        Ok((LogicalType::Int64, pos + 1))
    } else if tag == 6 {
        Ok((LogicalType::UInt8, pos + 1))
    } else if tag == 7 {
        Ok((LogicalType::UInt16, pos + 1))
    } else if tag == 8 {
        Ok((LogicalType::UInt32, pos + 1))
    } else if tag == 9 {
        Ok((LogicalType::UInt64, pos + 1))
    } else if tag == 10 {
        Ok((LogicalType::Float32, pos + 1))
    } else if tag == 11 {
        Ok((LogicalType::Float64, pos + 1))
    } else if tag == 12 {
        Ok((LogicalType::Date32, pos + 1))
    } else if tag == 13 {
        Ok((LogicalType::Date64, pos + 1))
    } else if tag == 14 || tag == 15 {
        if bytes.len() - pos < 2 {
            return Err(Fault::Decode);
        }
        let u = match decode_unit(bytes[pos + 1]) {
            Some(u) => u,
            None => {
                return Err(Fault::Decode);
            },
        };
        if tag == 14 {
            Ok((LogicalType::Time32(u), pos + 2))
        } else {
            Ok((LogicalType::Time64(u), pos + 2))
        }
    } else if tag == 16 {
        if bytes.len() - pos < 3 {
            return Err(Fault::Decode);
        }
        let u = match decode_unit(bytes[pos + 1]) {
            Some(u) => u,
            None => {
                return Err(Fault::Decode);
            },
        };
        let opt = bytes[pos + 2];
        if opt == 0 {
            Ok((LogicalType::Timestamp(u, Option::None), pos + 3))
        } else if opt == 1 {
            match decode_text(bytes, pos + 3) {
                Ok((tz, p)) => Ok((LogicalType::Timestamp(u, Option::Some(tz)), p)),
                Err(e) => Err(e),
            }
        } else {
            Err(Fault::Decode)
        }
    } else if tag == 17 {
        Ok((LogicalType::Binary, pos + 1))
    } else if tag == 18 {
        Ok((LogicalType::LargeBinary, pos + 1))
    } else if tag == 19 {
        Ok((LogicalType::Utf8, pos + 1))
    } else if tag == 20 {
        Ok((LogicalType::LargeUtf8, pos + 1))
    } else if tag == 21 || tag == 22 {
        if bytes.len() - pos < 3 {
            return Err(Fault::Decode);
        }
        let p = bytes[pos + 1];
        let sc = bytes[pos + 2] as i8;
        if tag == 21 {
            Ok((LogicalType::Decimal128(p, sc), pos + 3))
        } else {
            Ok((LogicalType::Decimal256(p, sc), pos + 3))
        }
    } else if tag == 23 {
        if bytes.len() - pos < 2 {
            return Err(Fault::Decode);
        }
        let k = match decode_dict_key(bytes[pos + 1]) {
            Some(k) => k,
            None => {
                return Err(Fault::Decode);
            },
        };
        match decode_type(bytes, pos + 2) {
            Ok((vt, p)) => Ok((LogicalType::Dictionary(k, Box::new(vt)), p)),
            Err(e) => Err(e),
        }
    } else {
        Err(Fault::Decode)
    }
}

/// The time unit a wire tag stands for.
fn decode_unit(b: u8) -> (r: Option<TimeUnit>)
    ensures
        r == unit_of(b),
{
    if b == 0 {
        Option::Some(TimeUnit::Second)
    } else if b == 1 {
        Option::Some(TimeUnit::Millisecond)
    } else if b == 2 {
        Option::Some(TimeUnit::Microsecond)
    } else if b == 3 {
        Option::Some(TimeUnit::Nanosecond)
    } else {
        Option::None
    }
}

/// The dictionary key type a wire tag stands for.
fn decode_dict_key(b: u8) -> (r: Option<DictKeyType>)
    ensures
        r == dict_key_of(b),
{
    if b == 0 {
        Option::Some(DictKeyType::Int8)
    } else if b == 1 {
        Option::Some(DictKeyType::Int16)
    } else if b == 2 {
        Option::Some(DictKeyType::Int32)
    } else if b == 3 {
        Option::Some(DictKeyType::Int64)
    } else if b == 4 {
        Option::Some(DictKeyType::UInt8)
    } else if b == 5 {
        Option::Some(DictKeyType::UInt16)
    } else if b == 6 {
        Option::Some(DictKeyType::UInt32)
    } else if b == 7 {
        Option::Some(DictKeyType::UInt64)
    } else {
        Option::None
    }
}

/// Decodes one schema field at `pos`, exactly as
/// [`parse_schema_field`] reads it.
fn decode_schema_field(bytes: &Vec<u8>, pos: usize) -> (r: Result<(Field, usize), Fault>)
    ensures
        r matches Ok((f, p)) ==> parse_schema_field(bytes@, pos as int) == Some::<
            (FieldModel, int),
        >((f@, p as int)) && pos < p <= bytes@.len(),
        r is Err ==> parse_schema_field(bytes@, pos as int) is None && r == Err::<
            (Field, usize),
            Fault,
        >(Fault::Decode),
{
    let (name, p1) = match decode_text(bytes, pos) {
        Ok(x) => x,
        Err(e) => {
            return Err(e);
        },
    };
    let (data_type, p2) = match decode_type(bytes, p1) {
        Ok(x) => x,
        Err(e) => {
            return Err(e);
        },
    };
    if p2 >= bytes.len() {
        return Err(Fault::Decode);
    }
    let nb = bytes[p2];
    if nb == 0 || nb == 1 {
        Ok((Field { name, data_type, nullable: nb == 1 }, p2 + 1))
    } else {
        Err(Fault::Decode)
    }
}

/// Decodes one schema message payload, exactly as
/// [`parse_schema_payload`] reads it: the field count, then every
/// field, to the very end of the bytes.
pub fn decode_schema_payload(bytes: &Vec<u8>) -> (r: Result<Schema, Fault>)
    ensures
        r matches Ok(s) ==> parse_schema_payload(bytes@) == Some::<Seq<FieldModel>>(s@),
        r is Err ==> parse_schema_payload(bytes@) is None && r == Err::<Schema, Fault>(
            Fault::Decode,
        ),
{
    let (n64, start) = match read_word(bytes, 0) {
        Ok(x) => x,
        Err(e) => {
            return Err(e);
        },
    };
    if n64 > usize::MAX as u64 {
        return Err(Fault::Decode);
    }
    let n = n64 as usize;
    let mut fields: Vec<Field> = Vec::new();
    let mut pos: usize = start;
    let mut k: usize = 0;
    while k < n
        invariant
            8 <= bytes@.len(),
            n64 == n,
            n64 == spec_u64_from_le_bytes(bytes@.subrange(0, 8)),
            0 <= k <= n,
            pos <= bytes@.len(),
            fields@.len() == k,
            parse_schema_fields(bytes@, 8, n as nat) == (match parse_schema_fields(
                bytes@,
                pos as int,
                (n - k) as nat,
            ) {
                Option::None => Option::None::<(Seq<FieldModel>, int)>,
                Option::Some((fs2, p2)) => Option::Some(
                    (fields@.map(|q: int, f: Field| f@) + fs2, p2),
                ),
            }),
        decreases n - k,
    {
        let (f, p) = match decode_schema_field(bytes, pos) {
            Ok(x) => x,
            Err(e) => {
                return Err(e);
            },
        };
        let ghost pre = fields@;
        fields.push(f);
        proof {
            assert forall|fs2: Seq<FieldModel>|
                true implies (pre.map(|q: int, f2: Field| f2@) + (seq![fields@.last()@] + fs2))
                == (fields@.map(|q: int, f2: Field| f2@) + fs2) by {
                assert(pre.map(|q: int, f2: Field| f2@) + (seq![fields@.last()@] + fs2)
                    =~= fields@.map(|q: int, f2: Field| f2@) + fs2);
            }
        }
        pos = p;
        k += 1;
    }
    if pos != bytes.len() {
        return Err(Fault::Decode);
    }
    let schema = Schema { fields };
    proof {
        assert(fields@.map(|q: int, f2: Field| f2@) + Seq::<FieldModel>::empty() =~= fields@.map(
            |q: int, f2: Field| f2@,
        ));
        assert(schema@ =~= fields@.map(|q: int, f2: Field| f2@));
    }
    Ok(schema)
}

/// The wire tag of a time unit.
pub open spec fn unit_tag(u: TimeUnit) -> u8 {
    match u {
        TimeUnit::Second => 0u8,
        TimeUnit::Millisecond => 1u8,
        TimeUnit::Microsecond => 2u8,
        TimeUnit::Nanosecond => 3u8,
    }
}

/// The wire tag of a dictionary key type.
pub open spec fn dict_key_tag(k: DictKeyType) -> u8 {
    match k {
        DictKeyType::Int8 => 0u8,
        DictKeyType::Int16 => 1u8,
        DictKeyType::Int32 => 2u8,
        DictKeyType::Int64 => 3u8,
        DictKeyType::UInt8 => 4u8,
        DictKeyType::UInt16 => 5u8,
        DictKeyType::UInt32 => 6u8,
        DictKeyType::UInt64 => 7u8,
    }
}

/// The wire bytes of one encoded logical type.
pub open spec fn spec_encode_type(t: TypeModel) -> Seq<u8>
    decreases t,
{
    match t {
        TypeModel::Null => seq![0u8],
        TypeModel::Boolean => seq![1u8],
        TypeModel::Int8 => seq![2u8],
        TypeModel::Int16 => seq![3u8],
        TypeModel::Int32 => seq![4u8],
        TypeModel::Int64 => seq![5u8],
        TypeModel::UInt8 => seq![6u8],
        TypeModel::UInt16 => seq![7u8],
        TypeModel::UInt32 => seq![8u8],
        TypeModel::UInt64 => seq![9u8],
        TypeModel::Float32 => seq![10u8],
        TypeModel::Float64 => seq![11u8],
        TypeModel::Date32 => seq![12u8],
        TypeModel::Date64 => seq![13u8],
        TypeModel::Time32(u) => seq![14u8, unit_tag(u)],
        TypeModel::Time64(u) => seq![15u8, unit_tag(u)],
        TypeModel::Timestamp(u, tz) => match tz {
            Option::None => seq![16u8, unit_tag(u), 0u8],
            Option::Some(z) => seq![16u8, unit_tag(u), 1u8] + spec_encode_byte_run(
                ScalarModel::Text(z),
            ),
        },
        TypeModel::Binary => seq![17u8],
        TypeModel::LargeBinary => seq![18u8],
        TypeModel::Utf8 => seq![19u8],
        TypeModel::LargeUtf8 => seq![20u8],
        TypeModel::Decimal128(p, sc) => seq![21u8, p, sc as u8],
        TypeModel::Decimal256(p, sc) => seq![22u8, p, sc as u8],
        TypeModel::Dictionary(k, vt) => seq![23u8, dict_key_tag(k)] + spec_encode_type(*vt),
    }
}

/// The wire bytes of one encoded schema field.
pub open spec fn spec_encode_schema_field(f: FieldModel) -> Seq<u8> {
    spec_encode_byte_run(ScalarModel::Text(f.name)) + spec_encode_type(f.data_type) + seq![
        if f.nullable {
            1u8
        } else {
            0u8
        },
    ]
}

/// The wire bytes of a run of encoded schema fields.
pub open spec fn spec_encode_schema_fields(fields: Seq<FieldModel>) -> Seq<u8>
    decreases fields.len(),
{
    if fields.len() == 0 {
        Seq::empty()
    } else {
        spec_encode_schema_field(fields[0]) + spec_encode_schema_fields(fields.drop_first())
    }
}

/// The wire bytes of one schema message payload.
pub open spec fn spec_encode_schema_payload(fields: Seq<FieldModel>) -> Seq<u8> {
    spec_u64_to_le_bytes(fields.len() as u64) + spec_encode_schema_fields(fields)
}

/// Appends the wire bytes of one encoded logical type.
fn encode_type(out: &mut Vec<u8>, t: &LogicalType)
    ensures
        final(out)@ == old(out)@ + spec_encode_type(t@),
    decreases *t,
{
    match t {
        LogicalType::Null => {
            out.push(0);
            proof {
                assert(out@ =~= old(out)@ + spec_encode_type(t@));
            }
        },
        LogicalType::Boolean => {
            out.push(1);
            proof {
                assert(out@ =~= old(out)@ + spec_encode_type(t@));
            }
        },
        LogicalType::Int8 => {
            out.push(2);
            proof {
                assert(out@ =~= old(out)@ + spec_encode_type(t@));
            }
        },
        LogicalType::Int16 => {
            out.push(3);
            proof {
                assert(out@ =~= old(out)@ + spec_encode_type(t@));
            }
        },
        LogicalType::Int32 => {
            out.push(4);
            proof {
                assert(out@ =~= old(out)@ + spec_encode_type(t@));
            }
        },
        LogicalType::Int64 => {
            out.push(5);
            proof {
                assert(out@ =~= old(out)@ + spec_encode_type(t@));
            }
        },
        LogicalType::UInt8 => {
            out.push(6);
            proof {
                assert(out@ =~= old(out)@ + spec_encode_type(t@));
            }
        },
        LogicalType::UInt16 => {
            out.push(7);
            proof {
                assert(out@ =~= old(out)@ + spec_encode_type(t@));
            }
        },
        LogicalType::UInt32 => {
            out.push(8);
            proof {
                assert(out@ =~= old(out)@ + spec_encode_type(t@));
            }
        },
        LogicalType::UInt64 => {
            out.push(9);
            proof {
                assert(out@ =~= old(out)@ + spec_encode_type(t@));
            }
        },
        LogicalType::Float32 => {
            out.push(10);
            proof {
                assert(out@ =~= old(out)@ + spec_encode_type(t@));
            }
        },
        LogicalType::Float64 => {
            out.push(11);
            proof {
                assert(out@ =~= old(out)@ + spec_encode_type(t@));
            }
        },
        LogicalType::Date32 => {
            out.push(12);
            proof {
                assert(out@ =~= old(out)@ + spec_encode_type(t@));
            }
        },
        LogicalType::Date64 => {
            out.push(13);
            proof {
                assert(out@ =~= old(out)@ + spec_encode_type(t@));
            }
        },
        LogicalType::Time32(u) => {
            out.push(14);
            out.push(encode_unit(*u));
            proof {
                assert(out@ =~= old(out)@ + spec_encode_type(t@));
            }
        },
        LogicalType::Time64(u) => {
            out.push(15);
            out.push(encode_unit(*u));
            proof {
                assert(out@ =~= old(out)@ + spec_encode_type(t@));
            }
        },
        LogicalType::Timestamp(u, tz) => {
            out.push(16);
            out.push(encode_unit(*u));
            match tz {
                Option::None => {
                    out.push(0);
                },
                Option::Some(z) => {
                    out.push(1);
                    let zb = z.as_str().as_bytes_vec();
                    encode_byte_run(out, &zb);
                },
            }
            proof {
                assert(out@ =~= old(out)@ + spec_encode_type(t@));
            }
        },
        LogicalType::Binary => {
            out.push(17);
            proof {
                assert(out@ =~= old(out)@ + spec_encode_type(t@));
            }
        },
        LogicalType::LargeBinary => {
            out.push(18);
            proof {
                assert(out@ =~= old(out)@ + spec_encode_type(t@));
            }
        },
        LogicalType::Utf8 => {
            out.push(19);
            proof {
                assert(out@ =~= old(out)@ + spec_encode_type(t@));
            }
        },
        LogicalType::LargeUtf8 => {
            out.push(20);
            proof {
                assert(out@ =~= old(out)@ + spec_encode_type(t@));
            }
        },
        LogicalType::Decimal128(p, sc) => {
            out.push(21);
            out.push(*p);
            out.push(*sc as u8);
            proof {
                assert(out@ =~= old(out)@ + spec_encode_type(t@));
            }
        },
        LogicalType::Decimal256(p, sc) => {
            out.push(22);
            out.push(*p);
            out.push(*sc as u8);
            proof {
                assert(out@ =~= old(out)@ + spec_encode_type(t@));
            }
        },
        LogicalType::Dictionary(k, vt) => {
            out.push(23);
            out.push(encode_dict_key(*k));
            encode_type(out, &**vt);
            proof {
                assert(out@ =~= old(out)@ + spec_encode_type(t@));
            }
        },
    }
}

/// The wire tag of a time unit.
fn encode_unit(u: TimeUnit) -> (r: u8)
    ensures
        r == unit_tag(u),
{
    match u {
        TimeUnit::Second => 0,
        TimeUnit::Millisecond => 1,
        TimeUnit::Microsecond => 2,
        TimeUnit::Nanosecond => 3,
    }
}

/// The wire tag of a dictionary key type.
fn encode_dict_key(k: DictKeyType) -> (r: u8)
    ensures
        r == dict_key_tag(k),
{
    match k {
        DictKeyType::Int8 => 0,
        DictKeyType::Int16 => 1,
        DictKeyType::Int32 => 2,
        DictKeyType::Int64 => 3,
        DictKeyType::UInt8 => 4,
        DictKeyType::UInt16 => 5,
        DictKeyType::UInt32 => 6,
        DictKeyType::UInt64 => 7,
    }
}

/// Appending one more field extends the encoding of a field run.
proof fn lemma_encode_schema_fields_snoc(fields: Seq<FieldModel>, f: FieldModel)
    ensures
        spec_encode_schema_fields(fields.push(f)) == spec_encode_schema_fields(fields)
            + spec_encode_schema_field(f),
    decreases fields.len(),
{
    if fields.len() == 0 {
        assert(fields.push(f).drop_first() =~= fields);
        assert(fields.push(f)[0] == f);
        assert(spec_encode_schema_fields(fields.push(f)) =~= spec_encode_schema_fields(fields)
            + spec_encode_schema_field(f));
    } else {
        assert(fields.push(f).drop_first() =~= fields.drop_first().push(f));
        assert(fields.push(f)[0] == fields[0]);
        lemma_encode_schema_fields_snoc(fields.drop_first(), f);
        assert(spec_encode_schema_field(fields[0]) + (spec_encode_schema_fields(
            fields.drop_first(),
        ) + spec_encode_schema_field(f)) =~= (spec_encode_schema_field(fields[0])
            + spec_encode_schema_fields(fields.drop_first())) + spec_encode_schema_field(f));
    }
}

/// The wire bytes of one schema message payload.
pub fn encode_schema_payload(schema: &Schema) -> (out: Vec<u8>)
    ensures
        out@ == spec_encode_schema_payload(schema@),
{
    let mut out: Vec<u8> = Vec::new();
    let bs = u64_to_le_bytes(schema.num_fields() as u64);
    push_bytes(&mut out, &bs);
    let n = schema.fields.len();
    let mut i: usize = 0;
    proof {
        assert(out@ =~= spec_u64_to_le_bytes(schema@.len() as u64) + spec_encode_schema_fields(
            schema@.subrange(0, 0),
        ));
    }
    while i < n
        invariant
            n == schema@.len(),
            0 <= i <= n,
            out@ == spec_u64_to_le_bytes(schema@.len() as u64) + spec_encode_schema_fields(
                schema@.subrange(0, i as int),
            ),
        decreases n - i,
    {
        proof {
            assert(schema@[i as int] == schema.fields@[i as int]@);
        }
        let ghost pre = out@;
        let f = &schema.fields[i];
        let nb = f.name.as_str().as_bytes_vec();
        encode_byte_run(&mut out, &nb);
        encode_type(&mut out, &f.data_type);
        let nullable: u8 = if f.nullable {
            1
        } else {
            0
        };
        out.push(nullable);
        proof {
            assert(out@ =~= pre + spec_encode_schema_field(schema@[i as int]));
            lemma_encode_schema_fields_snoc(schema@.subrange(0, i as int), schema@[i as int]);
            assert(schema@.subrange(0, i as int).push(schema@[i as int]) =~= schema@.subrange(
                0,
                (i + 1) as int,
            ));
            assert(out@ =~= spec_u64_to_le_bytes(schema@.len() as u64)
                + spec_encode_schema_fields(schema@.subrange(0, (i + 1) as int)));
        }
        i += 1;
    }
    proof {
        assert(schema@.subrange(0, n as int) =~= schema@);
    }
    out
}

/// The wire bytes of one schema message as a frame: the leading frame
/// of a segment whose reader must recover the schema from the stream.
pub fn encode_schema_frame(schema: &Schema, compress: bool) -> (out: Vec<u8>)
    ensures
        out@ == spec_encode_frame(spec_encode_schema_payload(schema@), compress),
{
    let payload = encode_schema_payload(schema);
    let mut out: Vec<u8> = Vec::new();
    let flag: u8 = if compress {
        1
    } else {
        0
    };
    out.push(flag);
    let bs = u64_to_le_bytes(payload.len() as u64);
    push_bytes(&mut out, &bs);
    push_bytes(&mut out, &payload);
    proof {
        assert(out@ =~= spec_encode_frame(payload@, compress));
    }
    out
}

/// Parses one leading schema frame: the frame envelope, then the
/// schema message, and the rest of the segment after it.
pub open spec fn parse_schema_frame(bytes: Seq<u8>, compress: bool) -> Option<
    (Seq<FieldModel>, Seq<u8>),
> {
    if bytes.len() >= 9 {
        let flag = bytes[0];
        let plen = spec_u64_from_le_bytes(bytes.subrange(1, 9)) as int;
        if flag == flag_byte(compress) && plen + 9 <= usize::MAX && 9 + plen <= bytes.len() {
            match parse_schema_payload(bytes.subrange(9, 9 + plen)) {
                Option::None => Option::None,
                Option::Some(fs) => Option::Some((fs, bytes.skip(9 + plen))),
            }
        } else {
            Option::None
        }
    } else {
        Option::None
    }
}

} // verus!
