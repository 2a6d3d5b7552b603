use columnar_ipc::Fault;
use columnar_ipc::array_builder::{
    builder_append_null, builder_extend, make_batch, new_array_builders,
};
use columnar_ipc::channel::{ByteChannel, ReadableByteChannelReader, MemoryChannel};
use columnar_ipc::codec::{encode_frame, encode_schema_frame};
use columnar_ipc::column::{Array, ColumnData, RecordBatch};
use columnar_ipc::ipc_stream::{
    IpcReadMode, IpcReaderStream, RecordBatchReader, Segment, VecSegmentSource,
    get_channel_reader, get_file_segment_reader,
};
use columnar_ipc::types::{DictKeyType, Field, LogicalType, Schema, TimeUnit};
use columnar_ipc::value::ScalarValue;

fn schema() -> Schema {
    Schema {
        fields: vec![
            Field { name: "a".to_string(), data_type: LogicalType::Int32, nullable: true },
            Field { name: "b".to_string(), data_type: LogicalType::Utf8, nullable: true },
        ],
    }
}

fn make_test_batch(a: Vec<Option<i32>>, b: Vec<Option<&str>>) -> RecordBatch {
    let s = schema();
    let a_src = Array {
        data_type: LogicalType::Int32,
        data: ColumnData::Plain {
            cells: a.into_iter().map(|v| v.map(ScalarValue::Int32)).collect(),
        },
    };
    let b_src = Array {
        data_type: LogicalType::Utf8,
        data: ColumnData::Plain {
            cells: b
                .into_iter()
                .map(|v| v.map(|x| ScalarValue::Text(x.to_string())))
                .collect(),
        },
    };
    let n = a_src.len();
    let idx: Vec<usize> = (0..n).collect();
    let mut builders = new_array_builders(&s, n).unwrap();
    builder_extend(&mut builders[0], &a_src, &idx, &LogicalType::Int32).unwrap();
    builder_extend(&mut builders[1], &b_src, &idx, &LogicalType::Utf8).unwrap();
    make_batch(s, builders).unwrap()
}

fn batches_equal(x: &RecordBatch, y: &RecordBatch) -> bool {
    if x.num_rows() != y.num_rows() || x.num_columns() != y.num_columns() {
        return false;
    }
    for c in 0..x.num_columns() {
        let xa = x.column(c);
        let ya = y.column(c);
        if !xa.data_type.type_eq(&ya.data_type) {
            return false;
        }
        for r in 0..x.num_rows() {
            match (xa.value_at(r), ya.value_at(r)) {
                (None, None) => {}
                (Some(u), Some(v)) => {
                    if !u.scalar_eq(&v) {
                        return false;
                    }
                }
                _ => return false,
            }
        }
    }
    true
}

#[test]
fn channel_reader_round_trips_one_batch() {
    let batch = make_test_batch(vec![Some(1), None, Some(3)], vec![Some("x"), Some("y"), None]);
    let bytes = encode_frame(&batch, true);
    let ch = MemoryChannel::new(bytes, 5);
    let mut rd = get_channel_reader(schema(), ch, true);
    let got = rd.next_batch().unwrap().unwrap();
    assert!(batches_equal(&got, &batch));
    assert!(rd.next_batch().unwrap().is_none());
    assert!(rd.next_batch().unwrap().is_none());
}

#[test]
fn dictionary_round_trip_keeps_logical_values() {
    let s = Schema {
        fields: vec![Field {
            name: "d".to_string(),
            data_type: LogicalType::Dictionary(
                columnar_ipc::types::DictKeyType::Int32,
                Box::new(LogicalType::Utf8),
            ),
            nullable: true,
        }],
    };
    let t = s.fields[0].data_type.duplicate();
    let src = Array {
        data_type: t.duplicate(),
        data: ColumnData::Dict {
            keys: vec![Some(0), Some(1), Some(0), None, Some(2)],
            values: vec![
                ScalarValue::Text("red".to_string()),
                ScalarValue::Text("green".to_string()),
                ScalarValue::Text("blue".to_string()),
            ],
        },
    };
    let idx: Vec<usize> = (0..5).collect();
    let mut builders = new_array_builders(&s, 0).unwrap();
    builder_extend(&mut builders[0], &src, &idx, &t).unwrap();
    let batch = make_batch(s.duplicate(), builders).unwrap();
    let bytes = encode_frame(&batch, true);
    let ch = MemoryChannel::new(bytes, 4);
    let mut rd = get_channel_reader(s, ch, true);
    let got = rd.next_batch().unwrap().unwrap();
    assert!(batches_equal(&got, &batch));
    let col = got.column(0);
    assert!(col.value_at(0).unwrap().scalar_eq(&ScalarValue::Text("red".to_string())));
    assert!(col.value_at(3).is_none());
    assert!(col.value_at(4).unwrap().scalar_eq(&ScalarValue::Text("blue".to_string())));
}

fn concat(mut a: Vec<u8>, b: Vec<u8>) -> Vec<u8> {
    a.extend(b);
    a
}

#[test]
fn segments_concatenate_and_end_is_terminal() {
    let b1 = make_test_batch(vec![Some(1)], vec![Some("one")]);
    let b2 = make_test_batch(vec![Some(2), None], vec![None, Some("two")]);
    let b3 = make_test_batch(vec![], vec![]);
    // segment 1 holds b1 and b2; segment 2 is empty; segment 3 holds b3
    let seg1 = concat(encode_frame(&b1, true), encode_frame(&b2, true));
    let seg2: Vec<u8> = Vec::new();
    let seg3 = encode_frame(&b3, true);
    let segs = vec![
        Segment::Channel(MemoryChannel::new(seg1, 7)),
        Segment::Channel(MemoryChannel::new(seg2, 7)),
        Segment::Channel(MemoryChannel::new(seg3, 7)),
    ];
    let source = VecSegmentSource::new(segs);
    let mut stream = IpcReaderStream::new(schema(), source, IpcReadMode::Channel);
    let got1 = stream.next().unwrap().unwrap();
    let got2 = stream.next().unwrap().unwrap();
    let got3 = stream.next().unwrap().unwrap();
    assert!(batches_equal(&got1, &b1));
    assert!(batches_equal(&got2, &b2));
    assert!(batches_equal(&got3, &b3));
    for _ in 0..5 {
        assert!(stream.next().unwrap().is_none());
    }
}

#[test]
fn file_region_decodes_like_a_channel() {
    let batch = make_test_batch(vec![Some(7), Some(8)], vec![Some("p"), Some("q")]);
    let body = encode_frame(&batch, true);
    let length = body.len() as u64;
    // the file has leading bytes before the region and trailing bytes after it
    let mut file = vec![0xAAu8; 13];
    file.extend(body.clone());
    file.extend(vec![0xBBu8; 9]);
    // a channel positioned at the region's offset, reads bounded to `length`
    let region_channel = MemoryChannel { data: file, pos: 13, opened: true, max_chunk: 3 };
    let mut rd_file = get_file_segment_reader(schema(), region_channel, length);
    // a plain channel over exactly the same bytes
    let mut rd_chan = get_channel_reader(schema(), MemoryChannel::new(body, 3), true);
    let got_file = rd_file.next_batch().unwrap().unwrap();
    let got_chan = rd_chan.next_batch().unwrap().unwrap();
    assert!(batches_equal(&got_file, &got_chan));
    assert!(rd_file.next_batch().unwrap().is_none());
    assert!(rd_chan.next_batch().unwrap().is_none());
}

#[test]
fn file_segment_mode_reads_file_regions() {
    let batch = make_test_batch(vec![Some(5)], vec![Some("r")]);
    let body = encode_frame(&batch, true);
    let length = body.len() as u64;
    let mut file = body.clone();
    file.extend(vec![0xCCu8; 4]);
    let segs = vec![Segment::FileRegion(MemoryChannel::new(file, 8), length)];
    let source = VecSegmentSource::new(segs);
    let mut stream = IpcReaderStream::new(schema(), source, IpcReadMode::ChannelAndFileSegment);
    let got = stream.next().unwrap().unwrap();
    assert!(batches_equal(&got, &batch));
    assert!(stream.next().unwrap().is_none());
}

#[test]
fn uncompressed_mode_reads_uncompressed_frames() {
    let batch = make_test_batch(vec![None], vec![Some("u")]);
    let bytes = encode_frame(&batch, false);
    let segs = vec![Segment::Channel(MemoryChannel::new(bytes, 2))];
    let mut stream = IpcReaderStream::new(
        schema(),
        VecSegmentSource::new(segs),
        IpcReadMode::ChannelUncompressed,
    );
    let got = stream.next().unwrap().unwrap();
    assert!(batches_equal(&got, &batch));
}

#[test]
fn compression_capability_mismatch_is_a_decode_fault() {
    let batch = make_test_batch(vec![Some(1)], vec![Some("x")]);
    let bytes = encode_frame(&batch, false);
    let ch = MemoryChannel::new(bytes, 16);
    let mut rd = get_channel_reader(schema(), ch, true);
    assert_eq!(rd.next_batch().unwrap_err(), Fault::Decode);
}

#[test]
fn truncated_frame_is_a_decode_fault() {
    let batch = make_test_batch(vec![Some(1)], vec![Some("x")]);
    let mut bytes = encode_frame(&batch, true);
    bytes.truncate(bytes.len() - 3);
    let ch = MemoryChannel::new(bytes, 16);
    let mut rd = get_channel_reader(schema(), ch, true);
    assert_eq!(rd.next_batch().unwrap_err(), Fault::Decode);
}

#[test]
fn corrupt_payload_is_a_decode_fault() {
    let batch = make_test_batch(vec![Some(1)], vec![Some("x")]);
    let mut bytes = encode_frame(&batch, true);
    let last = bytes.len() - 1;
    bytes[last] = 0xFF;
    // an extra trailing validity marker makes the payload over-long
    bytes.push(9);
    let ch = MemoryChannel::new(bytes, 16);
    let mut rd = get_channel_reader(schema(), ch, true);
    assert_eq!(rd.next_batch().unwrap_err(), Fault::Decode);
}

#[test]
fn unsupported_schema_is_an_unsupported_type_fault() {
    let bad = Schema {
        fields: vec![Field {
            name: "t".to_string(),
            data_type: LogicalType::Time32(columnar_ipc::types::TimeUnit::Nanosecond),
            nullable: true,
        }],
    };
    // any frame bytes at all: the schema is checked before the cells
    let batch = make_test_batch(vec![Some(1)], vec![Some("x")]);
    let bytes = encode_frame(&batch, true);
    let ch = MemoryChannel::new(bytes, 16);
    let mut rd = get_channel_reader(bad, ch, true);
    assert_eq!(rd.next_batch().unwrap_err(), Fault::UnsupportedType);
}

#[test]
fn closing_twice_closes_the_handle_once() {
    let batch = make_test_batch(vec![Some(1)], vec![Some("x")]);
    let bytes = encode_frame(&batch, true);
    let ch = MemoryChannel::new(bytes, 16);
    let mut rd = get_channel_reader(schema(), ch, true);
    assert!(rd.next_batch().is_ok());
    assert!(rd.close().is_ok());
    assert!(rd.input.closed);
    // a second teardown is a no-op
    assert!(rd.close().is_ok());
    assert!(rd.input.closed);
}

#[test]
fn stream_teardown_mid_sequence_is_idempotent() {
    let b1 = make_test_batch(vec![Some(1), Some(2)], vec![Some("a"), Some("b")]);
    let seg1 = concat(encode_frame(&b1, true), encode_frame(&b1, true));
    let segs = vec![
        Segment::Channel(MemoryChannel::new(seg1, 4)),
        Segment::Channel(MemoryChannel::new(encode_frame(&b1, true), 4)),
    ];
    let mut stream =
        IpcReaderStream::new(schema(), VecSegmentSource::new(segs), IpcReadMode::Channel);
    // consume one batch of the first segment, then tear down mid-sequence
    let got = stream.next().unwrap().unwrap();
    assert!(batches_equal(&got, &b1));
    assert!(stream.close().is_ok());
    assert!(stream.close().is_ok());
}

#[test]
fn reader_after_end_of_data_reports_closed_source() {
    let ch = MemoryChannel::new(Vec::new(), 1);
    let mut rd = RecordBatchReader::with_schema(
        ReadableByteChannelReader::new(ch, None),
        schema(),
        true,
    );
    assert!(rd.next_batch().unwrap().is_none());
    // end-of-data released the handle
    assert!(rd.input.closed);
    assert!(rd.next_batch().unwrap().is_none());
}

#[test]
fn memory_channel_delivers_in_bounded_chunks() {
    let mut ch = MemoryChannel::new(vec![1, 2, 3, 4, 5], 2);
    let c1 = ch.read_chunk(10).unwrap().unwrap();
    assert!(c1.len() <= 2);
    assert_eq!(c1[0], 1);
    let mut src = ReadableByteChannelReader::new(ch, None);
    let rest = src.read_fully(10).unwrap();
    assert_eq!(rest.len(), 5 - c1.len());
}

#[test]
fn every_physical_encoding_round_trips() {
    let s = Schema {
        fields: vec![
            Field { name: "n".to_string(), data_type: LogicalType::Null, nullable: true },
            Field { name: "bo".to_string(), data_type: LogicalType::Boolean, nullable: true },
            Field { name: "i8".to_string(), data_type: LogicalType::Int8, nullable: true },
            Field { name: "u64".to_string(), data_type: LogicalType::UInt64, nullable: true },
            Field { name: "f64".to_string(), data_type: LogicalType::Float64, nullable: true },
            Field {
                name: "ts".to_string(),
                data_type: LogicalType::Timestamp(TimeUnit::Microsecond, None),
                nullable: true,
            },
            Field { name: "bin".to_string(), data_type: LogicalType::Binary, nullable: true },
            Field { name: "s".to_string(), data_type: LogicalType::Utf8, nullable: true },
            Field { name: "d1".to_string(), data_type: LogicalType::Decimal128(10, 2), nullable: true },
            Field { name: "d2".to_string(), data_type: LogicalType::Decimal256(50, 0), nullable: true },
        ],
    };
    let cols: Vec<Vec<Option<ScalarValue>>> = vec![
        vec![None, None],
        vec![Some(ScalarValue::Boolean(true)), None],
        vec![Some(ScalarValue::Int8(-5)), None],
        vec![Some(ScalarValue::UInt64(u64::MAX)), None],
        vec![Some(ScalarValue::Float64Bits(0x4009_21FB_5444_2D18)), None],
        vec![Some(ScalarValue::Int64(-123456789)), None],
        vec![Some(ScalarValue::Bytes(vec![0, 255, 7])), None],
        vec![Some(ScalarValue::Text("héllo ✓".to_string())), None],
        vec![Some(ScalarValue::Decimal128(-99999999999)), None],
        vec![Some(ScalarValue::Decimal256(-1, u128::MAX)), None],
    ];
    let mut builders = new_array_builders(&s, 2).unwrap();
    for (i, cells) in cols.into_iter().enumerate() {
        let t = s.fields[i].data_type.duplicate();
        if matches!(t, LogicalType::Null) {
            builder_append_null(&mut builders[i], &t).unwrap();
            builder_append_null(&mut builders[i], &t).unwrap();
        } else {
            let src = Array { data_type: t.duplicate(), data: ColumnData::Plain { cells } };
            builder_extend(&mut builders[i], &src, &[0, 1], &t).unwrap();
        }
    }
    let batch = make_batch(s.duplicate(), builders).unwrap();
    let bytes = encode_frame(&batch, true);
    let mut rd = get_channel_reader(s, MemoryChannel::new(bytes, 3), true);
    let got = rd.next_batch().unwrap().unwrap();
    assert!(batches_equal(&got, &batch));
    assert!(rd.next_batch().unwrap().is_none());
}

#[test]
fn empty_schema_batch_round_trips() {
    let s = Schema { fields: vec![] };
    let builders = new_array_builders(&s, 0).unwrap();
    let batch = make_batch(s.duplicate(), builders).unwrap();
    assert_eq!(batch.num_rows(), 0);
    let bytes = encode_frame(&batch, true);
    let mut rd = get_channel_reader(s, MemoryChannel::new(bytes, 1), true);
    let got = rd.next_batch().unwrap().unwrap();
    assert_eq!(got.num_columns(), 0);
    assert!(rd.next_batch().unwrap().is_none());
}

#[test]
fn frame_layout_is_flag_length_payload() {
    // an empty batch over an empty schema: payload is just the row
    // count, eight zero bytes; the frame prefixes the flag byte and
    // the little-endian payload length.
    let s = Schema { fields: vec![] };
    let batch = make_batch(s, Vec::new()).unwrap();
    let bytes = encode_frame(&batch, true);
    assert_eq!(bytes, vec![1u8, 8, 0, 0, 0, 0, 0, 0, 0, 0, 0, 0, 0, 0, 0, 0, 0]);
    let uncompressed = encode_frame(&batch, false);
    assert_eq!(uncompressed[0], 0u8);
}

#[test]
fn reads_after_close_are_clean_end_of_data() {
    let ch = MemoryChannel::new(vec![1, 2, 3], 2);
    let mut src = ReadableByteChannelReader::new(ch, None);
    src.close().unwrap();
    // never a fault, always zero bytes
    let v = src.read_fully(4).unwrap();
    assert!(v.is_empty());
    let v = src.read_fully(1).unwrap();
    assert!(v.is_empty());
}

#[test]
fn short_read_releases_the_channel() {
    let ch = MemoryChannel::new(vec![1, 2, 3], 2);
    let mut src = ReadableByteChannelReader::new(ch, None);
    let v = src.read_fully(10).unwrap();
    assert_eq!(v, vec![1, 2, 3]);
    assert!(src.closed);
    assert!(src.channel.closed());
}

#[test]
fn absent_schema_is_recovered_from_the_leading_message() {
    let batch = make_test_batch(vec![Some(4), None], vec![None, Some("w")]);
    // the segment carries its own schema message first, then batches
    let bytes = concat(
        encode_schema_frame(&schema(), true),
        concat(encode_frame(&batch, true), encode_frame(&batch, true)),
    );
    let input = ReadableByteChannelReader::new(MemoryChannel::new(bytes, 6), None);
    let mut rd = RecordBatchReader::new(input, None, true).unwrap();
    // the recovered schema equals the one the writer used
    let s = schema();
    assert_eq!(rd.schema.fields.len(), 2);
    for i in 0..2 {
        assert!(rd.schema.fields[i].data_type.type_eq(&s.fields[i].data_type));
        assert_eq!(rd.schema.fields[i].name, s.fields[i].name);
        assert_eq!(rd.schema.fields[i].nullable, s.fields[i].nullable);
    }
    let got1 = rd.next_batch().unwrap().unwrap();
    let got2 = rd.next_batch().unwrap().unwrap();
    assert!(batches_equal(&got1, &batch));
    assert!(batches_equal(&got2, &batch));
    assert!(rd.next_batch().unwrap().is_none());
}

#[test]
fn schema_recovery_round_trips_every_type_shape() {
    let s = Schema {
        fields: vec![
            Field {
                name: "ts".to_string(),
                data_type: LogicalType::Timestamp(TimeUnit::Microsecond, Some("UTC".to_string())),
                nullable: false,
            },
            Field {
                name: "d".to_string(),
                data_type: LogicalType::Decimal256(40, -3),
                nullable: true,
            },
            Field {
                name: "k".to_string(),
                data_type: LogicalType::Dictionary(DictKeyType::UInt16, Box::new(LogicalType::Utf8)),
                nullable: true,
            },
        ],
    };
    let bytes = encode_schema_frame(&s, false);
    let input = ReadableByteChannelReader::new(MemoryChannel::new(bytes, 5), None);
    let rd = RecordBatchReader::new(input, None, false).unwrap();
    assert_eq!(rd.schema.fields.len(), 3);
    for i in 0..3 {
        assert!(rd.schema.fields[i].data_type.type_eq(&s.fields[i].data_type));
        assert_eq!(rd.schema.fields[i].name, s.fields[i].name);
        assert_eq!(rd.schema.fields[i].nullable, s.fields[i].nullable);
    }
}

#[test]
fn missing_leading_schema_message_is_a_decode_fault() {
    // a bare batch frame where a schema message is expected
    let batch = make_test_batch(vec![Some(1)], vec![Some("x")]);
    let bytes = encode_frame(&batch, true);
    let input = ReadableByteChannelReader::new(MemoryChannel::new(bytes, 6), None);
    assert_eq!(RecordBatchReader::new(input, None, true).unwrap_err(), Fault::Decode);
    // and an empty source offers no schema either
    let input = ReadableByteChannelReader::new(MemoryChannel::new(Vec::new(), 1), None);
    assert_eq!(RecordBatchReader::new(input, None, true).unwrap_err(), Fault::Decode);
}
