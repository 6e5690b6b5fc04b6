//! The bytes of stored batches, and what is refused in them.
use std::sync::Arc;

use arrow::array::{Array, ArrayRef, BooleanArray, Int64Array, ListArray, StringArray};
use arrow::datatypes::{DataType, Field, Int64Type, Schema};
use arrow::record_batch::RecordBatch;
use parquet::arrow::ArrowWriter;

use mirror_v3::chain::FsError;
use mirror_v3::column::ColumnType;
use mirror_v3::envelope::{
    can_encode, decode_batch, encode_batch, encode_if_writable, EnvelopeError, Format,
    ParquetCompression,
};
use mirror_v3::record::{Header, Record, TimestampType};
use mirror_v3::snapshot::{load_view, Snapshot};

fn record(offset: u64, key: Option<&[u8]>, value: Option<&[u8]>) -> Record {
    Record {
        topic: "t".into(),
        partition: 2,
        source_offset: offset,
        timestamp_ms: Some(-5),
        timestamp_type: TimestampType::CreateTime,
        key: key.map(|k| k.to_vec()),
        value: value.map(|v| v.to_vec()),
        headers: vec![],
    }
}

fn ndjson(records: &Vec<Record>) -> Vec<u8> {
    encode_batch(
        Format::Ndjson,
        ParquetCompression::Zstd1,
        ColumnType::Utf8,
        ColumnType::Utf8,
        records,
    )
    .unwrap()
}

fn decode_fault(format: Format, bytes: &[u8]) -> String {
    match decode_batch(format, bytes) {
        Err(EnvelopeError::Decode(m)) => m,
        other => panic!("must be refused: {other:?}"),
    }
}

#[test]
fn a_record_is_one_line() {
    let mut r = record(7, Some(b"k"), Some(b"v1"));
    r.headers = vec![
        Header {
            key: "a".into(),
            value: Some(vec![0xff]),
        },
        Header {
            key: "b".into(),
            value: None,
        },
    ];
    let line = "{\"topic\":\"t\",\"partition\":2,\"offset\":7,\"timestamp_ms\":-5,\
                \"timestamp_type\":\"create_time\",\"key\":\"aw==\",\"value\":\"djE=\",\
                \"headers\":[{\"key\":\"a\",\"value\":\"/w==\"},{\"key\":\"b\"}]}\n";
    assert_eq!(String::from_utf8(ndjson(&vec![r])).unwrap(), line);
}

#[test]
fn missing_parts_are_left_out_of_the_line() {
    let mut r = record(u64::MAX, None, None);
    r.timestamp_ms = None;
    r.timestamp_type = TimestampType::NotAvailable;
    let line = "{\"topic\":\"t\",\"partition\":2,\"offset\":18446744073709551615,\
                \"timestamp_type\":\"not_available\"}\n";
    assert_eq!(String::from_utf8(ndjson(&vec![r])).unwrap(), line);
}

#[test]
fn no_records_are_no_lines() {
    assert_eq!(ndjson(&vec![]), Vec::<u8>::new());
    assert_eq!(decode_batch(Format::Ndjson, b"").unwrap(), vec![]);
}

#[test]
fn lines_may_miss_what_has_a_default() {
    let line = b"{\"topic\":\"t\",\"partition\":-1,\"offset\":3,\"timestamp_type\":\"?\"}\n\n";
    let records = decode_batch(Format::Ndjson, line).unwrap();
    assert_eq!(records.len(), 1);
    assert_eq!(records[0].partition, -1);
    assert_eq!(records[0].timestamp_type, TimestampType::NotAvailable);
    assert_eq!(records[0].key, None);
    assert!(records[0].headers.is_empty());
}

#[test]
fn broken_lines_are_refused() {
    for line in [
        "{",
        "[]",
        "{\"partition\":0,\"offset\":3,\"timestamp_type\":\"create_time\"}",
        "{\"topic\":\"t\",\"partition\":0,\"offset\":-3,\"timestamp_type\":\"create_time\"}",
        "{\"topic\":\"t\",\"partition\":0,\"offset\":3,\"timestamp_type\":\"create_time\",\
         \"key\":\"not base64!\"}",
    ] {
        assert!(
            decode_batch(Format::Ndjson, line.as_bytes()).is_err(),
            "must be refused: {line}"
        );
    }
}

#[test]
fn names_of_timestamp_types_are_read_back() {
    for t in [
        TimestampType::NotAvailable,
        TimestampType::CreateTime,
        TimestampType::LogAppendTime,
    ] {
        assert_eq!(TimestampType::from_wire(t.as_str()), Some(t));
    }
    assert_eq!(TimestampType::from_wire("CreateTime"), None);
}

#[test]
fn an_empty_parquet_batch_is_read_back() {
    let none: Vec<Record> = vec![];
    assert!(can_encode(
        Format::Parquet,
        ColumnType::Utf8,
        ColumnType::Utf8,
        &none
    ));
    let bytes = encode_if_writable(
        Format::Parquet,
        ParquetCompression::Snappy,
        ColumnType::Utf8,
        ColumnType::Bytes,
        &none,
    )
    .expect("nothing is small")
    .unwrap();
    assert_eq!(decode_batch(Format::Parquet, &bytes).unwrap(), none);
}

#[test]
fn json_values_are_checked_before_they_are_stored() {
    let records = vec![record(4, Some(b"k"), Some(b"{\"a\":"))];
    let err = encode_batch(
        Format::Parquet,
        ParquetCompression::Zstd1,
        ColumnType::Utf8,
        ColumnType::JsonParseable,
        &records,
    )
    .unwrap_err();
    let msg = err.message();
    assert!(
        msg.starts_with("encode: value at source offset 4 is not parseable JSON: "),
        "got: {msg}"
    );
}

/// A Parquet file with the given columns.
fn file(columns: Vec<(&str, DataType, ArrayRef)>) -> Vec<u8> {
    let fields: Vec<Field> = columns
        .iter()
        .map(|(name, kind, _)| Field::new(*name, kind.clone(), true))
        .collect();
    let arrays = columns.into_iter().map(|c| c.2).collect();
    let batch = RecordBatch::try_new(Arc::new(Schema::new(fields)), arrays).unwrap();
    let mut out = Vec::new();
    let mut w = ArrowWriter::try_new(&mut out, batch.schema(), None).unwrap();
    w.write(&batch).unwrap();
    w.close().unwrap();
    out
}

#[test]
fn foreign_parquet_files_are_refused() {
    let text = || Arc::new(StringArray::from(vec!["x"])) as ArrayRef;
    let number = || Arc::new(Int64Array::from(vec![1])) as ArrayRef;
    assert_eq!(
        decode_fault(
            Format::Parquet,
            &file(vec![("topic", DataType::Utf8, text())])
        ),
        "missing column partition"
    );
    let columns = [
        "topic",
        "partition",
        "offset",
        "timestamp_ms",
        "timestamp_type",
        "key",
        "value",
        "headers",
    ];
    let all = |numbers: &[&str]| {
        file(
            columns
                .iter()
                .map(|c| {
                    if numbers.contains(c) {
                        (*c, DataType::Int64, number())
                    } else {
                        (*c, DataType::Utf8, text())
                    }
                })
                .collect(),
        )
    };
    assert_eq!(
        decode_fault(Format::Parquet, &all(&["key"])),
        "key column must be Utf8 or LargeBinary, got Int64"
    );
    assert_eq!(
        decode_fault(Format::Parquet, &all(&["value"])),
        "value column must be Utf8 or LargeBinary, got Int64"
    );
    assert_eq!(
        decode_fault(Format::Parquet, &all(&["topic"])),
        "topic not Utf8"
    );
    assert_eq!(
        decode_fault(Format::Parquet, &all(&[])),
        "partition not Int32"
    );
    assert!(decode_batch(Format::Parquet, b"not a parquet file").is_err());
}

#[test]
fn a_refused_key_column_is_told_with_its_type() {
    let text = || Arc::new(StringArray::from(vec!["x"])) as ArrayRef;
    let with_key = |key: ArrayRef| {
        let columns = [
            ("topic", text()),
            ("partition", text()),
            ("offset", text()),
            ("timestamp_ms", text()),
            ("timestamp_type", text()),
            ("key", key),
            ("value", text()),
            ("headers", text()),
        ];
        file(
            columns
                .into_iter()
                .map(|(name, c)| (name, c.data_type().clone(), c))
                .collect(),
        )
    };
    assert_eq!(
        decode_fault(
            Format::Parquet,
            &with_key(Arc::new(BooleanArray::from(vec![true])))
        ),
        "key column must be Utf8 or LargeBinary, got Boolean"
    );
    let lists = ListArray::from_iter_primitive::<Int64Type, _, _>(vec![Some(vec![Some(1)])]);
    assert_eq!(
        decode_fault(Format::Parquet, &with_key(Arc::new(lists))),
        "key column must be Utf8 or LargeBinary, got List(Field { data_type: Int64, nullable: true })"
    );
}

#[test]
fn formats_have_their_extensions() {
    assert_eq!(Format::Ndjson.extension(), "ndjson");
    assert_eq!(Format::Parquet.extension(), "parquet");
}

// ---- snapshots ----

#[test]
fn snapshots_keep_the_latest_record_of_each_key() {
    let mut s = Snapshot::new();
    s.merge(vec![
        record(0, Some(b"b"), Some(b"1")),
        record(1, Some(b"a"), Some(b"2")),
        record(2, Some(b"b"), Some(b"3")),
        record(3, Some(b"c"), Some(b"4")),
        record(4, Some(b"c"), None),
    ]);
    assert_eq!(s.len(), 2);
    let offsets: Vec<u64> = s.records().iter().map(|r| r.source_offset).collect();
    assert_eq!(offsets, vec![1, 2], "in the order of keys");
    let again = load_view("x.parquet", s.records()).unwrap();
    assert_eq!(again.records(), s.records());
}

#[test]
fn merging_in_two_steps_is_merging_at_once() {
    let all = || {
        vec![
            record(0, Some(b"a"), Some(b"1")),
            record(1, Some(b"b"), Some(b"2")),
            record(2, Some(b"a"), None),
        ]
    };
    let mut once = Snapshot::new();
    once.merge(all());
    let mut twice = Snapshot::new();
    let mut rest = all();
    let first = rest.remove(0);
    twice.merge(vec![first]);
    twice.merge(rest);
    assert_eq!(once.records(), twice.records());
}

#[test]
fn snapshots_with_unusable_keys_are_refused() {
    let refused = |r: Record| match load_view("x.parquet", vec![r]) {
        Err(FsError::CorruptChain { msg }) => msg,
        _ => panic!("must be refused"),
    };
    assert_eq!(
        refused(record(0, None, None)),
        "x.parquet: null key in compacted snapshot"
    );
    assert_eq!(
        refused(record(0, Some(&[0xff]), None)),
        "x.parquet: non-UTF-8 key in compacted snapshot"
    );
}
