//! The closed catalog of logical column types and schemas.

use vstd::prelude::*;

verus! {

/// Time resolution carried by the temporal types.
#[derive(Clone, Copy, PartialEq, Eq, Structural, Debug)]
pub enum TimeUnit {
    Second,
    Millisecond,
    Microsecond,
    Nanosecond,
}

/// Integer width of the key column of a dictionary-encoded column.
#[derive(Clone, Copy, PartialEq, Eq, Structural, Debug)]
pub enum DictKeyType {
    Int8,
    Int16,
    Int32,
    Int64,
    UInt8,
    UInt16,
    UInt32,
    UInt64,
}

/// The closed set of logical column types.
///
/// Value types nested in `Dictionary` are drawn from the same set; only
/// the combinations admitted by [`type_supported`] route to a builder.
#[derive(Debug)]
pub enum LogicalType {
    Null,
    Boolean,
    Int8,
    Int16,
    Int32,
    Int64,
    UInt8,
    UInt16,
    UInt32,
    UInt64,
    Float32,
    Float64,
    Date32,
    Date64,
    Time32(TimeUnit),
    Time64(TimeUnit),
    Timestamp(TimeUnit, Option<String>),
    Binary,
    LargeBinary,
    Utf8,
    LargeUtf8,
    Decimal128(u8, i8),
    Decimal256(u8, i8),
    Dictionary(DictKeyType, Box<LogicalType>),
}

/// Mathematical model of a [`LogicalType`]: the timezone of a timestamp
/// is a character sequence, everything else is carried unchanged.
pub enum TypeModel {
    Null,
    Boolean,
    Int8,
    Int16,
    Int32,
    Int64,
    UInt8,
    UInt16,
    UInt32,
    UInt64,
    Float32,
    Float64,
    Date32,
    Date64,
    Time32(TimeUnit),
    Time64(TimeUnit),
    Timestamp(TimeUnit, Option<Seq<char>>),
    Binary,
    LargeBinary,
    Utf8,
    LargeUtf8,
    Decimal128(u8, i8),
    Decimal256(u8, i8),
    Dictionary(DictKeyType, Box<TypeModel>),
}

pub open spec fn type_model(t: LogicalType) -> TypeModel
    decreases t,
{
    match t {
        LogicalType::Null => TypeModel::Null,
        LogicalType::Boolean => TypeModel::Boolean,
        LogicalType::Int8 => TypeModel::Int8,
        LogicalType::Int16 => TypeModel::Int16,
        LogicalType::Int32 => TypeModel::Int32,
        LogicalType::Int64 => TypeModel::Int64,
        LogicalType::UInt8 => TypeModel::UInt8,
        LogicalType::UInt16 => TypeModel::UInt16,
        LogicalType::UInt32 => TypeModel::UInt32,
        LogicalType::UInt64 => TypeModel::UInt64,
        LogicalType::Float32 => TypeModel::Float32,
        LogicalType::Float64 => TypeModel::Float64,
        LogicalType::Date32 => TypeModel::Date32,
        LogicalType::Date64 => TypeModel::Date64,
        LogicalType::Time32(u) => TypeModel::Time32(u),
        LogicalType::Time64(u) => TypeModel::Time64(u),
        LogicalType::Timestamp(u, tz) => TypeModel::Timestamp(
            u,
            match tz {
                Option::None => Option::None,
                Option::Some(s) => Option::Some(s@),
            },
        ),
        LogicalType::Binary => TypeModel::Binary,
        LogicalType::LargeBinary => TypeModel::LargeBinary,
        LogicalType::Utf8 => TypeModel::Utf8,
        LogicalType::LargeUtf8 => TypeModel::LargeUtf8,
        LogicalType::Decimal128(p, s) => TypeModel::Decimal128(p, s),
        LogicalType::Decimal256(p, s) => TypeModel::Decimal256(p, s),
        LogicalType::Dictionary(k, v) => TypeModel::Dictionary(k, Box::new(type_model(*v))),
    }
}

impl View for LogicalType {
    type V = TypeModel;

    open spec fn view(&self) -> TypeModel {
        type_model(*self)
    }
}

/// The value types a dictionary-encoded column may carry.
pub open spec fn dict_value_supported(t: TypeModel) -> bool {
    match t {
        TypeModel::Int8 => true,
        TypeModel::Int16 => true,
        TypeModel::Int32 => true,
        TypeModel::Int64 => true,
        TypeModel::UInt8 => true,
        TypeModel::UInt16 => true,
        TypeModel::UInt32 => true,
        TypeModel::UInt64 => true,
        TypeModel::Float32 => true,
        TypeModel::Float64 => true,
        TypeModel::Date32 => true,
        TypeModel::Date64 => true,
        TypeModel::Utf8 => true,
        TypeModel::LargeUtf8 => true,
        _ => false,
    }
}

/// The supported matrix of the builder factory and append engine: any
/// combination outside it is an `UnsupportedType` fault at dispatch.
pub open spec fn type_supported(t: TypeModel) -> bool {
    match t {
        TypeModel::Time32(u) => u == TimeUnit::Second || u == TimeUnit::Millisecond,
        TypeModel::Time64(u) => u == TimeUnit::Microsecond || u == TimeUnit::Nanosecond,
        TypeModel::Dictionary(_, v) => dict_value_supported(*v),
        _ => true,
    }
}

/// The model keeps the constructor of the type it models.
pub proof fn lemma_type_model_constructor(a: LogicalType)
    ensures
        type_model(a) is Null ==> a is Null,
        type_model(a) is Boolean ==> a is Boolean,
        type_model(a) is Int8 ==> a is Int8,
        type_model(a) is Int16 ==> a is Int16,
        type_model(a) is Int32 ==> a is Int32,
        type_model(a) is Int64 ==> a is Int64,
        type_model(a) is UInt8 ==> a is UInt8,
        type_model(a) is UInt16 ==> a is UInt16,
        type_model(a) is UInt32 ==> a is UInt32,
        type_model(a) is UInt64 ==> a is UInt64,
        type_model(a) is Float32 ==> a is Float32,
        type_model(a) is Float64 ==> a is Float64,
        type_model(a) is Date32 ==> a is Date32,
        type_model(a) is Date64 ==> a is Date64,
        type_model(a) is Time32 ==> a is Time32,
        type_model(a) is Time64 ==> a is Time64,
        type_model(a) is Timestamp ==> a is Timestamp,
        type_model(a) is Binary ==> a is Binary,
        type_model(a) is LargeBinary ==> a is LargeBinary,
        type_model(a) is Utf8 ==> a is Utf8,
        type_model(a) is LargeUtf8 ==> a is LargeUtf8,
        type_model(a) is Decimal128 ==> a is Decimal128,
        type_model(a) is Decimal256 ==> a is Decimal256,
        type_model(a) is Dictionary ==> a is Dictionary,
{
    match a {
        LogicalType::Null => {},
        LogicalType::Boolean => {},
        LogicalType::Int8 => {},
        LogicalType::Int16 => {},
        LogicalType::Int32 => {},
        LogicalType::Int64 => {},
        LogicalType::UInt8 => {},
        LogicalType::UInt16 => {},
        LogicalType::UInt32 => {},
        LogicalType::UInt64 => {},
        LogicalType::Float32 => {},
        LogicalType::Float64 => {},
        LogicalType::Date32 => {},
        LogicalType::Date64 => {},
        LogicalType::Time32(_) => {},
        LogicalType::Time64(_) => {},
        LogicalType::Timestamp(_, _) => {},
        LogicalType::Binary => {},
        LogicalType::LargeBinary => {},
        LogicalType::Utf8 => {},
        LogicalType::LargeUtf8 => {},
        LogicalType::Decimal128(_, _) => {},
        LogicalType::Decimal256(_, _) => {},
        LogicalType::Dictionary(_, _) => {},
    }
}

impl LogicalType {
    /// A structural copy whose model equals this type's model.
    pub fn duplicate(&self) -> (r: LogicalType)
        ensures
            r@ == self@,
        decreases *self,
    {
        match self {
            LogicalType::Null => LogicalType::Null,
            LogicalType::Boolean => LogicalType::Boolean,
            LogicalType::Int8 => LogicalType::Int8,
            LogicalType::Int16 => LogicalType::Int16,
            LogicalType::Int32 => LogicalType::Int32,
            LogicalType::Int64 => LogicalType::Int64,
            LogicalType::UInt8 => LogicalType::UInt8,
            LogicalType::UInt16 => LogicalType::UInt16,
            LogicalType::UInt32 => LogicalType::UInt32,
            LogicalType::UInt64 => LogicalType::UInt64,
            LogicalType::Float32 => LogicalType::Float32,
            LogicalType::Float64 => LogicalType::Float64,
            LogicalType::Date32 => LogicalType::Date32,
            LogicalType::Date64 => LogicalType::Date64,
            LogicalType::Time32(u) => LogicalType::Time32(*u),
            LogicalType::Time64(u) => LogicalType::Time64(*u),
            LogicalType::Timestamp(u, tz) => LogicalType::Timestamp(
                *u,
                match tz {
                    Option::None => Option::None,
                    Option::Some(s) => Option::Some(s.clone()),
                },
            ),
            LogicalType::Binary => LogicalType::Binary,
            LogicalType::LargeBinary => LogicalType::LargeBinary,
            LogicalType::Utf8 => LogicalType::Utf8,
            LogicalType::LargeUtf8 => LogicalType::LargeUtf8,
            LogicalType::Decimal128(p, s) => LogicalType::Decimal128(*p, *s),
            LogicalType::Decimal256(p, s) => LogicalType::Decimal256(*p, *s),
            LogicalType::Dictionary(k, v) => LogicalType::Dictionary(
                *k,
                Box::new((&**v).duplicate()),
            ),
        }
    }

    /// Equality of logical types, decided structurally.
    #[verifier::rlimit(60)]
    pub fn type_eq(&self, other: &LogicalType) -> (r: bool)
        ensures
            r == (self@ == other@),
        decreases *self,
    {
        proof {
            lemma_type_model_constructor(*self);
            lemma_type_model_constructor(*other);
        }
        match (self, other) {
            (LogicalType::Null, LogicalType::Null) => true,
            (LogicalType::Boolean, LogicalType::Boolean) => true,
            (LogicalType::Int8, LogicalType::Int8) => true,
            (LogicalType::Int16, LogicalType::Int16) => true,
            (LogicalType::Int32, LogicalType::Int32) => true,
            (LogicalType::Int64, LogicalType::Int64) => true,
            (LogicalType::UInt8, LogicalType::UInt8) => true,
            (LogicalType::UInt16, LogicalType::UInt16) => true,
            (LogicalType::UInt32, LogicalType::UInt32) => true,
            (LogicalType::UInt64, LogicalType::UInt64) => true,
            (LogicalType::Float32, LogicalType::Float32) => true,
            (LogicalType::Float64, LogicalType::Float64) => true,
            (LogicalType::Date32, LogicalType::Date32) => true,
            (LogicalType::Date64, LogicalType::Date64) => true,
            (LogicalType::Time32(u1), LogicalType::Time32(u2)) => *u1 == *u2,
            (LogicalType::Time64(u1), LogicalType::Time64(u2)) => *u1 == *u2,
            (LogicalType::Timestamp(u1, z1), LogicalType::Timestamp(u2, z2)) => {
                let zeq = match (z1, z2) {
                    (Option::None, Option::None) => true,
                    (Option::Some(s1), Option::Some(s2)) => *s1 == *s2,
                    _ => false,
                };
                *u1 == *u2 && zeq
            },
            (LogicalType::Binary, LogicalType::Binary) => true,
            (LogicalType::LargeBinary, LogicalType::LargeBinary) => true,
            (LogicalType::Utf8, LogicalType::Utf8) => true,
            (LogicalType::LargeUtf8, LogicalType::LargeUtf8) => true,
            (LogicalType::Decimal128(p1, s1), LogicalType::Decimal128(p2, s2)) => {
                *p1 == *p2 && *s1 == *s2
            },
            (LogicalType::Decimal256(p1, s1), LogicalType::Decimal256(p2, s2)) => {
                *p1 == *p2 && *s1 == *s2
            },
            (LogicalType::Dictionary(k1, v1), LogicalType::Dictionary(k2, v2)) => {
                let veq = (&**v1).type_eq(&**v2);
                *k1 == *k2 && veq
            },
            _ => false,
        }
    }

    /// Whether the factory and append engine support this type.
    pub fn is_supported(&self) -> (r: bool)
        ensures
            r == type_supported(self@),
    {
        proof {
            lemma_type_model_constructor(*self);
            if let LogicalType::Dictionary(_, v) = self {
                lemma_type_model_constructor(**v);
            }
        }
        match self {
            LogicalType::Time32(u) => *u == TimeUnit::Second || *u == TimeUnit::Millisecond,
            LogicalType::Time64(u) => *u == TimeUnit::Microsecond || *u == TimeUnit::Nanosecond,
            LogicalType::Dictionary(_, v) => match &**v {
                LogicalType::Int8 => true,
                LogicalType::Int16 => true,
                LogicalType::Int32 => true,
                LogicalType::Int64 => true,
                LogicalType::UInt8 => true,
                LogicalType::UInt16 => true,
                LogicalType::UInt32 => true,
                LogicalType::UInt64 => true,
                LogicalType::Float32 => true,
                LogicalType::Float64 => true,
                LogicalType::Date32 => true,
                LogicalType::Date64 => true,
                LogicalType::Utf8 => true,
                LogicalType::LargeUtf8 => true,
                _ => false,
            },
            _ => true,
        }
    }
}

/// One schema field: name, logical type and nullability.
#[derive(Debug)]
pub struct Field {
    pub name: String,
    pub data_type: LogicalType,
    pub nullable: bool,
}

/// Model of a [`Field`].
pub struct FieldModel {
    pub name: Seq<char>,
    pub data_type: TypeModel,
    pub nullable: bool,
}

impl View for Field {
    type V = FieldModel;

    open spec fn view(&self) -> FieldModel {
        FieldModel { name: self.name@, data_type: self.data_type@, nullable: self.nullable }
    }
}

/// An ordered sequence of fields; field order defines column position
/// in every batch.
#[derive(Debug)]
pub struct Schema {
    pub fields: Vec<Field>,
}

impl View for Schema {
    type V = Seq<FieldModel>;

    open spec fn view(&self) -> Seq<FieldModel> {
        self.fields@.map(|i: int, f: Field| f@)
    }
}

/// Every field type of the schema lies in the supported matrix.
pub open spec fn schema_supported(s: Seq<FieldModel>) -> bool {
    forall|i: int| 0 <= i < s.len() ==> type_supported(#[trigger] s[i].data_type)
}

impl Field {
    /// A structural copy whose model equals this field's model.
    pub fn duplicate(&self) -> (r: Field)
        ensures
            r@ == self@,
    {
        Field {
            name: self.name.clone(),
            data_type: self.data_type.duplicate(),
            nullable: self.nullable,
        }
    }
}

impl Schema {
    /// A structural copy whose model equals this schema's model.
    pub fn duplicate(&self) -> (r: Schema)
        ensures
            r@ == self@,
    {
        let mut fields: Vec<Field> = Vec::new();
        let n = self.fields.len();
        let mut i: usize = 0;
        while i < n
            invariant
                n == self.fields@.len(),
                0 <= i <= n,
                fields@.len() == i,
                forall|j: int| 0 <= j < i ==> (#[trigger] fields@[j])@ == self.fields@[j]@,
            decreases n - i,
        {
            let f = self.fields[i].duplicate();
            fields.push(f);
            i += 1;
        }
        let r = Schema { fields };
        proof {
            assert(r@ =~= self@);
        }
        r
    }

    pub fn num_fields(&self) -> (n: usize)
        ensures
            n == self@.len(),
    {
        self.fields.len()
    }
}

} // verus!
