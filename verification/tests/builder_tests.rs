use columnar_ipc::Fault;
use columnar_ipc::array_builder::{
    ConfiguredDecimalBuilder, DecimalWidth, NullBuilder, builder_append_null,
    builder_extend, make_batch, new_array_builder, new_array_builders,
};
use columnar_ipc::column::{Array, ColumnData};
use columnar_ipc::types::{DictKeyType, Field, LogicalType, Schema, TimeUnit};
use columnar_ipc::value::ScalarValue;

fn all_types() -> Vec<LogicalType> {
    vec![
        LogicalType::Null,
        LogicalType::Boolean,
        LogicalType::Int8,
        LogicalType::Int16,
        LogicalType::Int32,
        LogicalType::Int64,
        LogicalType::UInt8,
        LogicalType::UInt16,
        LogicalType::UInt32,
        LogicalType::UInt64,
        LogicalType::Float32,
        LogicalType::Float64,
        LogicalType::Date32,
        LogicalType::Date64,
        LogicalType::Time32(TimeUnit::Second),
        LogicalType::Time32(TimeUnit::Millisecond),
        LogicalType::Time64(TimeUnit::Microsecond),
        LogicalType::Time64(TimeUnit::Nanosecond),
        LogicalType::Timestamp(TimeUnit::Nanosecond, None),
        LogicalType::Timestamp(TimeUnit::Millisecond, Some("UTC".to_string())),
        LogicalType::Binary,
        LogicalType::LargeBinary,
        LogicalType::Utf8,
        LogicalType::LargeUtf8,
        LogicalType::Decimal128(10, 2),
        LogicalType::Decimal256(40, -3),
        LogicalType::Dictionary(DictKeyType::Int32, Box::new(LogicalType::Utf8)),
        LogicalType::Dictionary(DictKeyType::UInt8, Box::new(LogicalType::Int64)),
    ]
}

#[test]
fn fresh_builder_finishes_empty_with_same_type() {
    for t in all_types() {
        let b = new_array_builder(&t, 16).unwrap();
        let a = b.finish();
        assert_eq!(a.len(), 0);
        assert!(a.data_type.type_eq(&t));
    }
}

#[test]
fn decimal_builder_preserves_precision_and_scale() {
    let b = ConfiguredDecimalBuilder::with_capacity(DecimalWidth::Width128, 4, 10, 2);
    assert_eq!(b.precision(), 10);
    assert_eq!(b.scale(), 2);
    let a = b.finish_cloned();
    assert!(a.data_type.type_eq(&LogicalType::Decimal128(10, 2)));
    let a2 = new_array_builder(&LogicalType::Decimal256(40, -3), 0).unwrap().finish();
    assert!(a2.data_type.type_eq(&LogicalType::Decimal256(40, -3)));
}

#[test]
fn decimal_builder_appends() {
    let mut b = ConfiguredDecimalBuilder::with_capacity(DecimalWidth::Width128, 0, 10, 2);
    b.append_value(ScalarValue::Decimal128(12345));
    b.append_option(None);
    b.append_option(Some(ScalarValue::Decimal128(-7)));
    b.append_null();
    let a = b.finish();
    assert_eq!(a.len(), 4);
    assert!(a.is_valid(0));
    assert!(!a.is_valid(1));
    assert!(a.is_valid(2));
    assert!(!a.is_valid(3));
    assert!(a.value_at(0).unwrap().scalar_eq(&ScalarValue::Decimal128(12345)));
    assert!(a.value_at(2).unwrap().scalar_eq(&ScalarValue::Decimal128(-7)));
}

#[test]
fn unsupported_types_are_refused_at_dispatch() {
    assert_eq!(
        new_array_builder(&LogicalType::Time32(TimeUnit::Nanosecond), 0).unwrap_err(),
        Fault::UnsupportedType
    );
    assert_eq!(
        new_array_builder(&LogicalType::Time64(TimeUnit::Second), 0).unwrap_err(),
        Fault::UnsupportedType
    );
    let nested = LogicalType::Dictionary(DictKeyType::Int8, Box::new(LogicalType::Boolean));
    assert_eq!(new_array_builder(&nested, 0).unwrap_err(), Fault::UnsupportedType);
}

fn int32_source(vals: Vec<Option<i32>>) -> Array {
    let cells = vals.into_iter().map(|v| v.map(ScalarValue::Int32)).collect::<Vec<_>>();
    Array { data_type: LogicalType::Int32, data: ColumnData::Plain { cells } }
}

fn utf8_source(vals: Vec<Option<&str>>) -> Array {
    let cells = vals
        .into_iter()
        .map(|v| v.map(|s| ScalarValue::Text(s.to_string())))
        .collect::<Vec<_>>();
    Array { data_type: LogicalType::Utf8, data: ColumnData::Plain { cells } }
}

#[test]
fn extend_selects_indices_in_order() {
    // source of 5 cells, validity [T, F, T, F, T]
    let src = int32_source(vec![Some(10), None, Some(30), None, Some(50)]);
    assert_eq!(src.len(), 5);
    let t = LogicalType::Int32;
    let mut b = new_array_builder(&t, 0).unwrap();
    builder_extend(&mut b, &src, &[0, 2, 4], &t).unwrap();
    let a = b.finish();
    assert_eq!(a.len(), 3);
    assert!(a.is_valid(0) && a.is_valid(1) && a.is_valid(2));
    assert!(a.value_at(0).unwrap().scalar_eq(&ScalarValue::Int32(10)));
    assert!(a.value_at(1).unwrap().scalar_eq(&ScalarValue::Int32(30)));
    assert!(a.value_at(2).unwrap().scalar_eq(&ScalarValue::Int32(50)));
}

#[test]
fn extend_keeps_duplicates_and_nulls() {
    let src = int32_source(vec![Some(1), None, Some(3)]);
    let t = LogicalType::Int32;
    let mut b = new_array_builder(&t, 0).unwrap();
    builder_extend(&mut b, &src, &[2, 2, 1, 0], &t).unwrap();
    let a = b.finish();
    assert_eq!(a.len(), 4);
    assert!(a.value_at(0).unwrap().scalar_eq(&ScalarValue::Int32(3)));
    assert!(a.value_at(1).unwrap().scalar_eq(&ScalarValue::Int32(3)));
    assert!(a.value_at(2).is_none());
    assert!(a.value_at(3).unwrap().scalar_eq(&ScalarValue::Int32(1)));
}

#[test]
fn extend_type_mismatch_is_a_fault() {
    let src = int32_source(vec![Some(1)]);
    let mut b = new_array_builder(&LogicalType::Int64, 0).unwrap();
    assert_eq!(
        builder_extend(&mut b, &src, &[0], &LogicalType::Int64).unwrap_err(),
        Fault::TypeMismatch
    );
    assert_eq!(
        builder_extend(&mut b, &src, &[0], &LogicalType::Int32).unwrap_err(),
        Fault::TypeMismatch
    );
}

#[test]
fn append_null_builds_all_null_columns() {
    for t in all_types() {
        if !t.is_supported() {
            continue;
        }
        let mut b = new_array_builder(&t, 0).unwrap();
        let n = 7;
        for _ in 0..n {
            builder_append_null(&mut b, &t).unwrap();
        }
        let a = b.finish();
        assert_eq!(a.len(), n);
        for i in 0..n {
            assert!(!a.is_valid(i));
            assert!(a.value_at(i).is_none());
        }
    }
}

#[test]
fn append_null_type_mismatch_is_a_fault() {
    let mut b = new_array_builder(&LogicalType::Boolean, 0).unwrap();
    assert_eq!(builder_append_null(&mut b, &LogicalType::Utf8).unwrap_err(), Fault::TypeMismatch);
}

#[test]
fn null_builder_counts() {
    let mut nb = NullBuilder::new();
    nb.append();
    nb.extend(3);
    let a = nb.finish_cloned();
    assert_eq!(a.len(), 4);
    assert!(a.data_type.type_eq(&LogicalType::Null));
}

#[test]
fn dictionary_extend_reinterns_values() {
    let t = LogicalType::Dictionary(DictKeyType::Int32, Box::new(LogicalType::Utf8));
    // source dictionary: values table [a, b], keys [1, 0, 1, null]
    let src = Array {
        data_type: t.duplicate(),
        data: ColumnData::Dict {
            keys: vec![Some(1), Some(0), Some(1), None],
            values: vec![
                ScalarValue::Text("a".to_string()),
                ScalarValue::Text("b".to_string()),
            ],
        },
    };
    let mut b = new_array_builder(&t, 0).unwrap();
    builder_extend(&mut b, &src, &[0, 1, 2, 3], &t).unwrap();
    let a = b.finish();
    assert_eq!(a.len(), 4);
    assert!(a.value_at(0).unwrap().scalar_eq(&ScalarValue::Text("b".to_string())));
    assert!(a.value_at(1).unwrap().scalar_eq(&ScalarValue::Text("a".to_string())));
    assert!(a.value_at(2).unwrap().scalar_eq(&ScalarValue::Text("b".to_string())));
    assert!(a.value_at(3).is_none());
}

fn two_field_schema() -> Schema {
    Schema {
        fields: vec![
            Field { name: "a".to_string(), data_type: LogicalType::Int32, nullable: true },
            Field { name: "b".to_string(), data_type: LogicalType::Utf8, nullable: true },
        ],
    }
}

#[test]
fn extend_then_make_batch_scenario() {
    // schema {a: Int32, b: Utf8}; a = [null, 5], b = ["x", null];
    // extend with [0] then finish: one row, a = null, b = "x".
    let schema = two_field_schema();
    let a_src = int32_source(vec![None, Some(5)]);
    let b_src = utf8_source(vec![Some("x"), None]);
    let mut builders = new_array_builders(&schema, 0).unwrap();
    builder_extend(&mut builders[0], &a_src, &[0], &LogicalType::Int32).unwrap();
    builder_extend(&mut builders[1], &b_src, &[0], &LogicalType::Utf8).unwrap();
    let batch = make_batch(schema, builders).unwrap();
    assert_eq!(batch.num_rows(), 1);
    assert_eq!(batch.num_columns(), 2);
    assert!(!batch.column(0).is_valid(0));
    assert!(batch.column(1).value_at(0).unwrap().scalar_eq(&ScalarValue::Text("x".to_string())));
}

#[test]
fn make_batch_refuses_disagreements() {
    let schema = two_field_schema();
    // wrong builder count
    let builders = vec![new_array_builder(&LogicalType::Int32, 0).unwrap()];
    assert_eq!(make_batch(schema, builders).unwrap_err(), Fault::TypeMismatch);

    // unequal row counts
    let schema = two_field_schema();
    let mut builders = new_array_builders(&schema, 0).unwrap();
    builder_append_null(&mut builders[0], &LogicalType::Int32).unwrap();
    let b = make_batch(schema, builders);
    assert_eq!(b.unwrap_err(), Fault::TypeMismatch);

    // wrong column type
    let schema = two_field_schema();
    let builders = vec![
        new_array_builder(&LogicalType::Int32, 0).unwrap(),
        new_array_builder(&LogicalType::Int32, 0).unwrap(),
    ];
    assert_eq!(make_batch(schema, builders).unwrap_err(), Fault::TypeMismatch);
}

#[test]
fn type_equality_is_structural() {
    let tz1 = LogicalType::Timestamp(TimeUnit::Second, Some("UTC".to_string()));
    let tz2 = LogicalType::Timestamp(TimeUnit::Second, Some("UTC".to_string()));
    let tz3 = LogicalType::Timestamp(TimeUnit::Second, Some("GMT".to_string()));
    assert!(tz1.type_eq(&tz2));
    assert!(!tz1.type_eq(&tz3));
    assert!(!tz1.type_eq(&LogicalType::Timestamp(TimeUnit::Second, None)));
    let d1 = LogicalType::Dictionary(DictKeyType::Int16, Box::new(LogicalType::Utf8));
    assert!(d1.type_eq(&d1.duplicate()));
    assert!(!d1.type_eq(&LogicalType::Dictionary(DictKeyType::Int32, Box::new(LogicalType::Utf8))));
    assert!(!LogicalType::Decimal128(10, 2).type_eq(&LogicalType::Decimal128(10, 3)));
}

#[test]
fn scalar_equality_is_structural() {
    assert!(ScalarValue::Bytes(vec![1, 2]).scalar_eq(&ScalarValue::Bytes(vec![1, 2])));
    assert!(!ScalarValue::Bytes(vec![1, 2]).scalar_eq(&ScalarValue::Bytes(vec![1, 3])));
    assert!(!ScalarValue::Int32(1).scalar_eq(&ScalarValue::Int64(1)));
    assert!(ScalarValue::Decimal256(-1, 7).scalar_eq(&ScalarValue::Decimal256(-1, 7)));
    let b = ScalarValue::Boolean(true);
    assert!(b.scalar_eq(&b.duplicate()));
}

#[test]
fn engine_dispatch_refuses_unsupported_types() {
    // a type outside the supported matrix faults at dispatch, before
    // any mismatch consideration
    let bad = LogicalType::Time64(TimeUnit::Second);
    let src = int32_source(vec![Some(1)]);
    let mut b = new_array_builder(&LogicalType::Int32, 0).unwrap();
    assert_eq!(builder_extend(&mut b, &src, &[0], &bad).unwrap_err(), Fault::UnsupportedType);
    assert_eq!(builder_append_null(&mut b, &bad).unwrap_err(), Fault::UnsupportedType);
    // the builder is left untouched and still works
    builder_extend(&mut b, &src, &[0], &LogicalType::Int32).unwrap();
    assert_eq!(b.finish().len(), 1);
}
