//! Physical cell values carried by columns and builders.

use vstd::prelude::*;
use crate::types::{LogicalType, TypeModel};

verus! {

/// One non-null cell value, in the physical representation of its
/// column's logical type. Floating-point columns carry the raw bit
/// pattern of their values, so the crate never computes on floats.
#[derive(Debug)]
pub enum ScalarValue {
    Boolean(bool),
    Int8(i8),
    Int16(i16),
    Int32(i32),
    Int64(i64),
    UInt8(u8),
    UInt16(u16),
    UInt32(u32),
    UInt64(u64),
    Float32Bits(u32),
    Float64Bits(u64),
    Bytes(Vec<u8>),
    Text(String),
    Decimal128(i128),
    Decimal256(i128, u128),
}

/// Mathematical model of a [`ScalarValue`]: byte and text payloads are
/// sequences, everything else is carried unchanged. A 256-bit decimal
/// is modelled as its high (signed) and low (unsigned) halves.
pub enum ScalarModel {
    Boolean(bool),
    Int8(i8),
    Int16(i16),
    Int32(i32),
    Int64(i64),
    UInt8(u8),
    UInt16(u16),
    UInt32(u32),
    UInt64(u64),
    Float32Bits(u32),
    Float64Bits(u64),
    Bytes(Seq<u8>),
    Text(Seq<char>),
    Decimal128(i128),
    Decimal256(i128, u128),
}

pub open spec fn scalar_model(v: ScalarValue) -> ScalarModel {
    match v {
        ScalarValue::Boolean(x) => ScalarModel::Boolean(x),
        ScalarValue::Int8(x) => ScalarModel::Int8(x),
        ScalarValue::Int16(x) => ScalarModel::Int16(x),
        ScalarValue::Int32(x) => ScalarModel::Int32(x),
        ScalarValue::Int64(x) => ScalarModel::Int64(x),
        ScalarValue::UInt8(x) => ScalarModel::UInt8(x),
        ScalarValue::UInt16(x) => ScalarModel::UInt16(x),
        ScalarValue::UInt32(x) => ScalarModel::UInt32(x),
        ScalarValue::UInt64(x) => ScalarModel::UInt64(x),
        ScalarValue::Float32Bits(x) => ScalarModel::Float32Bits(x),
        ScalarValue::Float64Bits(x) => ScalarModel::Float64Bits(x),
        ScalarValue::Bytes(b) => ScalarModel::Bytes(b@),
        ScalarValue::Text(s) => ScalarModel::Text(s@),
        ScalarValue::Decimal128(x) => ScalarModel::Decimal128(x),
        ScalarValue::Decimal256(hi, lo) => ScalarModel::Decimal256(hi, lo),
    }
}

impl View for ScalarValue {
    type V = ScalarModel;

    open spec fn view(&self) -> ScalarModel {
        scalar_model(*self)
    }
}

/// The model keeps the constructor of the value it models.
pub proof fn lemma_scalar_model_constructor(v: ScalarValue)
    ensures
        scalar_model(v) is Boolean ==> v is Boolean,
        scalar_model(v) is Int8 ==> v is Int8,
        scalar_model(v) is Int16 ==> v is Int16,
        scalar_model(v) is Int32 ==> v is Int32,
        scalar_model(v) is Int64 ==> v is Int64,
        scalar_model(v) is UInt8 ==> v is UInt8,
        scalar_model(v) is UInt16 ==> v is UInt16,
        scalar_model(v) is UInt32 ==> v is UInt32,
        scalar_model(v) is UInt64 ==> v is UInt64,
        scalar_model(v) is Float32Bits ==> v is Float32Bits,
        scalar_model(v) is Float64Bits ==> v is Float64Bits,
        scalar_model(v) is Bytes ==> v is Bytes,
        scalar_model(v) is Text ==> v is Text,
        scalar_model(v) is Decimal128 ==> v is Decimal128,
        scalar_model(v) is Decimal256 ==> v is Decimal256,
{
    match v {
        ScalarValue::Boolean(_) => {},
        ScalarValue::Int8(_) => {},
        ScalarValue::Int16(_) => {},
        ScalarValue::Int32(_) => {},
        ScalarValue::Int64(_) => {},
        ScalarValue::UInt8(_) => {},
        ScalarValue::UInt16(_) => {},
        ScalarValue::UInt32(_) => {},
        ScalarValue::UInt64(_) => {},
        ScalarValue::Float32Bits(_) => {},
        ScalarValue::Float64Bits(_) => {},
        ScalarValue::Bytes(_) => {},
        ScalarValue::Text(_) => {},
        ScalarValue::Decimal128(_) => {},
        ScalarValue::Decimal256(_, _) => {},
    }
}

/// Whether a cell value has the physical representation that a column
/// of the given logical type stores. Dictionary columns store the
/// values of their value type; a null column stores no values at all.
pub open spec fn value_fits(v: ScalarModel, t: TypeModel) -> bool
    decreases t,
{
    match t {
        TypeModel::Null => false,
        TypeModel::Boolean => v is Boolean,
        TypeModel::Int8 => v is Int8,
        TypeModel::Int16 => v is Int16,
        TypeModel::Int32 => v is Int32,
        TypeModel::Int64 => v is Int64,
        TypeModel::UInt8 => v is UInt8,
        TypeModel::UInt16 => v is UInt16,
        TypeModel::UInt32 => v is UInt32,
        TypeModel::UInt64 => v is UInt64,
        TypeModel::Float32 => v is Float32Bits,
        TypeModel::Float64 => v is Float64Bits,
        TypeModel::Date32 => v is Int32,
        TypeModel::Date64 => v is Int64,
        TypeModel::Time32(_) => v is Int32,
        TypeModel::Time64(_) => v is Int64,
        TypeModel::Timestamp(_, _) => v is Int64,
        TypeModel::Binary => v is Bytes,
        TypeModel::LargeBinary => v is Bytes,
        TypeModel::Utf8 => v is Text,
        TypeModel::LargeUtf8 => v is Text,
        TypeModel::Decimal128(_, _) => v is Decimal128,
        TypeModel::Decimal256(_, _) => v is Decimal256,
        TypeModel::Dictionary(_, vt) => value_fits(v, *vt),
    }
}

/// Byte-wise equality of two byte vectors.
pub fn bytes_eq(a: &Vec<u8>, b: &Vec<u8>) -> (r: bool)
    ensures
        r == (a@ == b@),
{
    if a.len() != b.len() {
        return false;
    }
    let n = a.len();
    let mut i: usize = 0;
    while i < n
        invariant
            n == a@.len() == b@.len(),
            0 <= i <= n,
            forall|j: int| 0 <= j < i ==> a@[j] == b@[j],
        decreases n - i,
    {
        if a[i] != b[i] {
            return false;
        }
        i += 1;
    }
    proof {
        assert(a@ =~= b@);
    }
    true
}

impl ScalarValue {
    /// A structural copy whose model equals this value's model.
    pub fn duplicate(&self) -> (r: ScalarValue)
        ensures
            r@ == self@,
    {
        match self {
            ScalarValue::Boolean(x) => ScalarValue::Boolean(*x),
            ScalarValue::Int8(x) => ScalarValue::Int8(*x),
            ScalarValue::Int16(x) => ScalarValue::Int16(*x),
            ScalarValue::Int32(x) => ScalarValue::Int32(*x),
            ScalarValue::Int64(x) => ScalarValue::Int64(*x),
            ScalarValue::UInt8(x) => ScalarValue::UInt8(*x),
            ScalarValue::UInt16(x) => ScalarValue::UInt16(*x),
            ScalarValue::UInt32(x) => ScalarValue::UInt32(*x),
            ScalarValue::UInt64(x) => ScalarValue::UInt64(*x),
            ScalarValue::Float32Bits(x) => ScalarValue::Float32Bits(*x),
            ScalarValue::Float64Bits(x) => ScalarValue::Float64Bits(*x),
            ScalarValue::Bytes(b) => {
                let c = copy_bytes(b);
                ScalarValue::Bytes(c)
            },
            ScalarValue::Text(s) => ScalarValue::Text(s.clone()),
            ScalarValue::Decimal128(x) => ScalarValue::Decimal128(*x),
            ScalarValue::Decimal256(hi, lo) => ScalarValue::Decimal256(*hi, *lo),
        }
    }

    /// Equality of cell values, decided structurally.
    pub fn scalar_eq(&self, other: &ScalarValue) -> (r: bool)
        ensures
            r == (self@ == other@),
    {
        proof {
            lemma_scalar_model_constructor(*self);
            lemma_scalar_model_constructor(*other);
        }
        match (self, other) {
            (ScalarValue::Boolean(x), ScalarValue::Boolean(y)) => *x == *y,
            (ScalarValue::Int8(x), ScalarValue::Int8(y)) => *x == *y,
            (ScalarValue::Int16(x), ScalarValue::Int16(y)) => *x == *y,
            (ScalarValue::Int32(x), ScalarValue::Int32(y)) => *x == *y,
            (ScalarValue::Int64(x), ScalarValue::Int64(y)) => *x == *y,
            (ScalarValue::UInt8(x), ScalarValue::UInt8(y)) => *x == *y,
            (ScalarValue::UInt16(x), ScalarValue::UInt16(y)) => *x == *y,
            (ScalarValue::UInt32(x), ScalarValue::UInt32(y)) => *x == *y,
            (ScalarValue::UInt64(x), ScalarValue::UInt64(y)) => *x == *y,
            (ScalarValue::Float32Bits(x), ScalarValue::Float32Bits(y)) => *x == *y,
            (ScalarValue::Float64Bits(x), ScalarValue::Float64Bits(y)) => *x == *y,
            (ScalarValue::Bytes(a), ScalarValue::Bytes(b)) => bytes_eq(a, b),
            (ScalarValue::Text(a), ScalarValue::Text(b)) => *a == *b,
            (ScalarValue::Decimal128(x), ScalarValue::Decimal128(y)) => *x == *y,
            (ScalarValue::Decimal256(h1, l1), ScalarValue::Decimal256(h2, l2)) => {
                *h1 == *h2 && *l1 == *l2
            },
            _ => false,
        }
    }
}

/// A fresh byte vector with the same contents.
pub fn copy_bytes(b: &Vec<u8>) -> (r: Vec<u8>)
    ensures
        r@ == b@,
{
    let mut r: Vec<u8> = Vec::new();
    let n = b.len();
    let mut i: usize = 0;
    while i < n
        invariant
            n == b@.len(),
            0 <= i <= n,
            r@ == b@.subrange(0, i as int),
        decreases n - i,
    {
        r.push(b[i]);
        i += 1;
    }
    proof {
        assert(r@ =~= b@);
    }
    r
}

} // verus!
