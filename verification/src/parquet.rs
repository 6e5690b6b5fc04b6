//! Records as a Parquet file.
//!
//! One table with the columns `topic`, `partition`, `offset`,
//! `timestamp_ms`, `timestamp_type`, `key`, `value` and `headers`. The
//! columns `key` and `value` are text, or bytes where they are declared to
//! hold bytes; JSON columns carry the `arrow.json` extension name. Files
//! with a text column that carries the extension name
//! `mirror_v3.bytes_base64` hold base64 in it and can be read too.
use vstd::prelude::*;
use vstd::string::*;
use vstd::utf8::{decode_utf8, encode_utf8, valid_utf8};

use crate::arrow_table::{
    all_fields, bare_tag, binary_cell, close_cells, close_list, close_rows, column_of,
    describe_type, fields_in, i32_cell, i64_cell, is_simple, is_split, json_metadata, make_table,
    no_metadata, open_cells, open_list, open_rows, open_table, parquet_file, parquet_tables,
    plain_type_text, read_parquet, row_count, rows_between, simple_rows, simple_type_text,
    text_cell, text_size, texts_map, total, u64_cell, write_parquet, Cell, Cells, Codec, ColumnView,
    FieldTag, FieldView, Kind, ReadStage, Settings, Table, TableColumn, WriteStage,
};
use crate::assoc::{as_map, has_key, lemma_lookup_at, place_of, unique_keys};
use crate::base64::{base64_bytes, decode_base64};
use crate::column::{column_fault, ColumnType};
use crate::envelope::{EnvelopeError, ParquetCompression};
use crate::ndjson::{timestamp_type_named, type_named};
use crate::record::{
    copy_payload, headers_view, payload_view, records_view, Header, HeaderView, Record, RecordView,
};
use crate::text::{dec, decimal, same_text};
use crate::utf8::text_of_bytes;

verus! {

// ---- the format --------------------------------------------------------------

pub open spec fn payload_kind(t: ColumnType) -> Kind {
    if t == ColumnType::Bytes {
        Kind::LargeBinary
    } else {
        Kind::Utf8
    }
}

pub open spec fn payload_metadata(t: ColumnType) -> Map<Seq<char>, Seq<char>> {
    if t == ColumnType::Json || t == ColumnType::JsonParseable {
        json_metadata()
    } else {
        no_metadata()
    }
}

/// A payload as a cell.
pub open spec fn payload_cell(t: ColumnType, p: Option<Seq<u8>>) -> Cell {
    match p {
        None => Cell::Null,
        Some(b) => if t == ColumnType::Bytes {
            Cell::Binary(b)
        } else {
            Cell::Text(decode_utf8(b))
        },
    }
}

pub open spec fn bytes_cell(p: Option<Seq<u8>>) -> Cell {
    match p {
        None => Cell::Null,
        Some(b) => Cell::Binary(b),
    }
}

/// A header as a row.
pub open spec fn header_cell(h: HeaderView) -> Cell {
    Cell::Row(seq![("key"@, Cell::Text(h.key)), ("value"@, bytes_cell(h.value))])
}

pub open spec fn header_kind() -> Kind {
    Kind::Struct(
        seq![
            (bare_tag("key"@, false), Kind::Utf8),
            (bare_tag("value"@, true), Kind::LargeBinary),
        ],
    )
}

pub open spec fn timestamp_cell(t: Option<i64>) -> Cell {
    match t {
        Some(ms) => Cell::Int(ms as int),
        None => Cell::Null,
    }
}

/// A column without metadata.
pub open spec fn bare_field(name: Seq<char>, nullable: bool, kind: Kind, cells: Seq<Cell>) -> FieldView {
    FieldView {
        name,
        nullable,
        metadata: no_metadata(),
        column: ColumnView { kind, type_text: simple_type_text(kind), cells },
    }
}

pub open spec fn payload_field(name: Seq<char>, t: ColumnType, cells: Seq<Cell>) -> FieldView {
    FieldView {
        name,
        nullable: true,
        metadata: payload_metadata(t),
        column: ColumnView {
            kind: payload_kind(t),
            type_text: plain_type_text(payload_kind(t)),
            cells,
        },
    }
}

/// Records as a table.
pub open spec fn table_of(rs: Seq<RecordView>, keys: ColumnType, values: ColumnType) -> Seq<
    FieldView,
> {
    seq![
        bare_field(
            "topic"@,
            false,
            Kind::Utf8,
            rs.map_values(|r: RecordView| Cell::Text(r.topic)),
        ),
        bare_field(
            "partition"@,
            false,
            Kind::Int32,
            rs.map_values(|r: RecordView| Cell::Int(r.partition as int)),
        ),
        bare_field(
            "offset"@,
            false,
            Kind::UInt64,
            rs.map_values(|r: RecordView| Cell::Int(r.source_offset as int)),
        ),
        bare_field(
            "timestamp_ms"@,
            true,
            Kind::Int64,
            rs.map_values(|r: RecordView| timestamp_cell(r.timestamp_ms)),
        ),
        bare_field(
            "timestamp_type"@,
            false,
            Kind::Utf8,
            rs.map_values(|r: RecordView| Cell::Text(r.timestamp_type.wire_name())),
        ),
        payload_field("key"@, keys, rs.map_values(|r: RecordView| payload_cell(keys, r.key))),
        payload_field(
            "value"@,
            values,
            rs.map_values(|r: RecordView| payload_cell(values, r.value)),
        ),
        bare_field(
            "headers"@,
            false,
            Kind::List(bare_tag("item"@, true), Box::new(header_kind())),
            rs.map_values(
                |r: RecordView| Cell::List(r.headers.map_values(|h: HeaderView| header_cell(h))),
            ),
        ),
    ]
}

/// The first payload that is not what its column is declared to hold:
/// records in order, the key before the value.
pub open spec fn payload_fault(rs: Seq<RecordView>, keys: ColumnType, values: ColumnType) -> Option<
    Seq<char>,
>
    decreases rs.len(),
{
    if rs.len() == 0 {
        None
    } else {
        let before = payload_fault(rs.drop_last(), keys, values);
        let r = rs.last();
        if before is Some {
            before
        } else if column_fault(keys, "key"@, r.source_offset, r.key) is Some {
            column_fault(keys, "key"@, r.source_offset, r.key)
        } else {
            column_fault(values, "value"@, r.source_offset, r.value)
        }
    }
}

/// How a file is written: with dictionaries, and statistics by chunk.
pub open spec fn settings_of(c: ParquetCompression) -> Settings {
    Settings { codec: codec_of(c), dictionary: true, chunk_statistics: true }
}

pub open spec fn codec_of(c: ParquetCompression) -> Codec {
    match c {
        ParquetCompression::Zstd1 => Codec::Zstd(1),
        ParquetCompression::Zstd3 => Codec::Zstd(3),
        ParquetCompression::Snappy => Codec::Snappy,
        ParquetCompression::Lz4 => Codec::Lz4,
        ParquetCompression::Uncompressed => Codec::Uncompressed,
    }
}

pub open spec fn write_fault(stage: WriteStage, e: Seq<char>) -> Seq<char> {
    match stage {
        WriteStage::Init => "writer init: "@ + e,
        WriteStage::Table => "write batch: "@ + e,
        WriteStage::Close => "close: "@ + e,
    }
}

// ---- sizes -------------------------------------------------------------------

/// What takes up room in a column that is counted in 32 bits.
#[derive(Clone, Copy)]
pub enum Part {
    Topic,
    TimestampType,
    Key,
    Value,
    Headers,
    HeaderKeys,
}

pub open spec fn payload_size(p: Option<Seq<u8>>) -> nat {
    match p {
        Some(b) => b.len(),
        None => 0,
    }
}

pub open spec fn header_keys_size(h: Seq<HeaderView>) -> nat
    decreases h.len(),
{
    if h.len() == 0 {
        0
    } else {
        header_keys_size(h.drop_last()) + encode_utf8(h.last().key).len()
    }
}

pub open spec fn part_size(r: RecordView, p: Part) -> nat {
    match p {
        Part::Topic => encode_utf8(r.topic).len(),
        Part::TimestampType => encode_utf8(r.timestamp_type.wire_name()).len(),
        Part::Key => payload_size(r.key),
        Part::Value => payload_size(r.value),
        Part::Headers => r.headers.len(),
        Part::HeaderKeys => header_keys_size(r.headers),
    }
}

pub open spec fn batch_size(rs: Seq<RecordView>, p: Part) -> nat
    decreases rs.len(),
{
    if rs.len() == 0 {
        0
    } else {
        batch_size(rs.drop_last(), p) + part_size(rs.last(), p)
    }
}

/// Whether no column outgrows what 32 bits can count.
pub open spec fn fits(rs: Seq<RecordView>, keys: ColumnType, values: ColumnType) -> bool {
    &&& batch_size(rs, Part::Topic) <= i32::MAX
    &&& batch_size(rs, Part::TimestampType) <= i32::MAX
    &&& keys != ColumnType::Bytes ==> batch_size(rs, Part::Key) <= i32::MAX
    &&& values != ColumnType::Bytes ==> batch_size(rs, Part::Value) <= i32::MAX
    &&& batch_size(rs, Part::Headers) <= i32::MAX
    &&& batch_size(rs, Part::HeaderKeys) <= i32::MAX
}

// ---- writing -----------------------------------------------------------------

/// Check every payload.
pub(crate) fn check_payloads(records: &Vec<Record>, keys: ColumnType, values: ColumnType) -> (r: Result<
    (),
    String,
>)
    ensures
        r is Ok <==> payload_fault(records_view(records@), keys, values) is None,
        r matches Err(e) ==> payload_fault(records_view(records@), keys, values) == Some(e@),
{
    let ghost rs = records_view(records@);
    let mut i: usize = 0;
    assert(rs.take(0) =~= seq![]);
    while i < records.len()
        invariant
            i <= records.len(),
            rs == records_view(records@),
            payload_fault(rs.take(i as int), keys, values) is None,
        decreases records.len() - i,
    {
        let rec = &records[i];
        proof {
            assert(rs.take(i + 1).drop_last() =~= rs.take(i as int));
            assert(rs.take(i + 1).last() == rec@);
        }
        let key = match &rec.key {
            Some(b) => Some(b.as_slice()),
            None => None,
        };
        if let Err(e) = keys.validate("key", rec.source_offset, key) {
            proof {
                lemma_fault_stays(rs, keys, values, i + 1);
            }
            return Err(e);
        }
        let value = match &rec.value {
            Some(b) => Some(b.as_slice()),
            None => None,
        };
        if let Err(e) = values.validate("value", rec.source_offset, value) {
            proof {
                lemma_fault_stays(rs, keys, values, i + 1);
            }
            return Err(e);
        }
        i += 1;
    }
    assert(rs.take(i as int) =~= rs);
    Ok(())
}

proof fn lemma_fault_stays(rs: Seq<RecordView>, keys: ColumnType, values: ColumnType, i: int)
    requires
        0 <= i <= rs.len(),
        payload_fault(rs.take(i), keys, values) is Some,
    ensures
        payload_fault(rs, keys, values) == payload_fault(rs.take(i), keys, values),
    decreases rs.len() - i,
{
    if i < rs.len() {
        assert(rs.take(i + 1).drop_last() =~= rs.take(i));
        lemma_fault_stays(rs, keys, values, i + 1);
    } else {
        assert(rs.take(i) =~= rs);
    }
}

/// Without a fault every payload is what its column is declared to hold.
proof fn lemma_no_fault(rs: Seq<RecordView>, keys: ColumnType, values: ColumnType)
    requires
        payload_fault(rs, keys, values) is None,
    ensures
        forall|i: int|
            0 <= i < rs.len() ==> column_fault(
                keys,
                "key"@,
                (#[trigger] rs[i]).source_offset,
                rs[i].key,
            ) is None && column_fault(values, "value"@, rs[i].source_offset, rs[i].value) is None,
    decreases rs.len(),
{
    if rs.len() > 0 {
        let init = rs.drop_last();
        lemma_no_fault(init, keys, values);
        assert forall|i: int| 0 <= i < rs.len() implies column_fault(
            keys,
            "key"@,
            (#[trigger] rs[i]).source_offset,
            rs[i].key,
        ) is None && column_fault(values, "value"@, rs[i].source_offset, rs[i].value) is None by {
            if i < init.len() {
                assert(init[i] == rs[i]);
            }
        }
    }
}

fn topic_cells(records: &Vec<Record>) -> (v: Vec<Option<String>>)
    ensures
        v@.map_values(|c: Option<String>| text_cell(c)) == records_view(records@).map_values(
            |r: RecordView| Cell::Text(r.topic),
        ),
        text_size(v@) == batch_size(records_view(records@), Part::Topic),
{
    let ghost rs = records_view(records@);
    let mut v: Vec<Option<String>> = Vec::new();
    let mut i: usize = 0;
    assert(rs.take(0) =~= seq![]);
    while i < records.len()
        invariant
            i <= records.len(),
            rs == records_view(records@),
            v.len() == i,
            forall|j: int| 0 <= j < i ==> text_cell(#[trigger] v@[j]) == Cell::Text(rs[j].topic),
            text_size(v@) == batch_size(rs.take(i as int), Part::Topic),
        decreases records.len() - i,
    {
        let ghost before = v@;
        v.push(Some(records[i].topic.clone()));
        proof {
            assert(v@.drop_last() =~= before);
            assert(rs.take(i + 1).drop_last() =~= rs.take(i as int));
            assert(rs.take(i + 1).last() == rs[i as int]);
        }
        i += 1;
    }
    assert(rs.take(i as int) =~= rs);
    assert(v@.map_values(|c: Option<String>| text_cell(c)) =~= rs.map_values(
        |r: RecordView| Cell::Text(r.topic),
    ));
    v
}

fn timestamp_type_cells(records: &Vec<Record>) -> (v: Vec<Option<String>>)
    ensures
        v@.map_values(|c: Option<String>| text_cell(c)) == records_view(records@).map_values(
            |r: RecordView| Cell::Text(r.timestamp_type.wire_name()),
        ),
        text_size(v@) == batch_size(records_view(records@), Part::TimestampType),
{
    let ghost rs = records_view(records@);
    let mut v: Vec<Option<String>> = Vec::new();
    let mut i: usize = 0;
    assert(rs.take(0) =~= seq![]);
    while i < records.len()
        invariant
            i <= records.len(),
            rs == records_view(records@),
            v.len() == i,
            forall|j: int|
                0 <= j < i ==> text_cell(#[trigger] v@[j]) == Cell::Text(
                    rs[j].timestamp_type.wire_name(),
                ),
            text_size(v@) == batch_size(rs.take(i as int), Part::TimestampType),
        decreases records.len() - i,
    {
        let ghost before = v@;
        v.push(Some(records[i].timestamp_type.as_str().to_owned()));
        proof {
            assert(v@.drop_last() =~= before);
            assert(rs.take(i + 1).drop_last() =~= rs.take(i as int));
            assert(rs.take(i + 1).last() == rs[i as int]);
        }
        i += 1;
    }
    assert(rs.take(i as int) =~= rs);
    assert(v@.map_values(|c: Option<String>| text_cell(c)) =~= rs.map_values(
        |r: RecordView| Cell::Text(r.timestamp_type.wire_name()),
    ));
    v
}

fn partition_cells(records: &Vec<Record>) -> (v: Vec<Option<i32>>)
    ensures
        v@.map_values(|c: Option<i32>| i32_cell(c)) == records_view(records@).map_values(
            |r: RecordView| Cell::Int(r.partition as int),
        ),
{
    let mut v: Vec<Option<i32>> = Vec::new();
    let mut i: usize = 0;
    while i < records.len()
        invariant
            i <= records.len(),
            v.len() == i,
            forall|j: int| 0 <= j < i ==> #[trigger] v@[j] == Some(records@[j].partition),
        decreases records.len() - i,
    {
        v.push(Some(records[i].partition));
        i += 1;
    }
    assert(v@.map_values(|c: Option<i32>| i32_cell(c)) =~= records_view(records@).map_values(
        |r: RecordView| Cell::Int(r.partition as int),
    ));
    v
}

fn offset_cells(records: &Vec<Record>) -> (v: Vec<Option<u64>>)
    ensures
        v@.map_values(|c: Option<u64>| u64_cell(c)) == records_view(records@).map_values(
            |r: RecordView| Cell::Int(r.source_offset as int),
        ),
{
    let mut v: Vec<Option<u64>> = Vec::new();
    let mut i: usize = 0;
    while i < records.len()
        invariant
            i <= records.len(),
            v.len() == i,
            forall|j: int| 0 <= j < i ==> #[trigger] v@[j] == Some(records@[j].source_offset),
        decreases records.len() - i,
    {
        v.push(Some(records[i].source_offset));
        i += 1;
    }
    assert(v@.map_values(|c: Option<u64>| u64_cell(c)) =~= records_view(records@).map_values(
        |r: RecordView| Cell::Int(r.source_offset as int),
    ));
    v
}

fn timestamp_cells(records: &Vec<Record>) -> (v: Vec<Option<i64>>)
    ensures
        v@.map_values(|c: Option<i64>| i64_cell(c)) == records_view(records@).map_values(
            |r: RecordView| timestamp_cell(r.timestamp_ms),
        ),
{
    let mut v: Vec<Option<i64>> = Vec::new();
    let mut i: usize = 0;
    while i < records.len()
        invariant
            i <= records.len(),
            v.len() == i,
            forall|j: int| 0 <= j < i ==> #[trigger] v@[j] == records@[j].timestamp_ms,
        decreases records.len() - i,
    {
        v.push(records[i].timestamp_ms);
        i += 1;
    }
    assert(v@.map_values(|c: Option<i64>| i64_cell(c)) =~= records_view(records@).map_values(
        |r: RecordView| timestamp_cell(r.timestamp_ms),
    ));
    v
}

/// The keys, or the values, of the records.
fn payloads_of(records: &Vec<Record>, of_keys: bool) -> (v: Vec<Option<Vec<u8>>>)
    ensures
        v.len() == records.len(),
        forall|i: int|
            0 <= i < v.len() ==> payload_view(#[trigger] v@[i]) == if of_keys {
                records_view(records@)[i].key
            } else {
                records_view(records@)[i].value
            },
{
    let mut v: Vec<Option<Vec<u8>>> = Vec::new();
    let mut i: usize = 0;
    while i < records.len()
        invariant
            i <= records.len(),
            v.len() == i,
            forall|j: int|
                0 <= j < i ==> payload_view(#[trigger] v@[j]) == if of_keys {
                    records_view(records@)[j].key
                } else {
                    records_view(records@)[j].value
                },
        decreases records.len() - i,
    {
        v.push(
            if of_keys {
                copy_payload(&records[i].key)
            } else {
                copy_payload(&records[i].value)
            },
        );
        i += 1;
    }
    v
}

/// How many bytes the payloads take up.
spec fn payloads_size(v: Seq<Option<Vec<u8>>>) -> nat
    decreases v.len(),
{
    if v.len() == 0 {
        0
    } else {
        payloads_size(v.drop_last()) + payload_size(payload_view(v.last()))
    }
}

/// Payloads as the cells of a column.
fn payload_cells(v: Vec<Option<Vec<u8>>>, t: ColumnType) -> (c: Cells)
    requires
        t != ColumnType::Bytes ==> forall|i: int|
            0 <= i < v.len() ==> (payload_view(#[trigger] v@[i]) matches Some(b) ==> valid_utf8(b)),
    ensures
        !(c is Other),
        c.column().kind == payload_kind(t),
        c.column().type_text == plain_type_text(payload_kind(t)),
        c.column().cells == Seq::new(
            v@.len(),
            |i: int| payload_cell(t, payload_view(v@[i])),
        ),
        c matches Cells::Text(x) ==> text_size(x@) == payloads_size(v@) && t != ColumnType::Bytes,
{
    if matches!(t, ColumnType::Bytes) {
        let c = Cells::Binary(v);
        assert(c.column().cells =~= Seq::new(
            v@.len(),
            |i: int| payload_cell(t, payload_view(v@[i])),
        ));
        return c;
    }
    let mut x: Vec<Option<String>> = Vec::new();
    let mut i: usize = 0;
    assert(v@.take(0) =~= seq![]);
    while i < v.len()
        invariant
            i <= v.len(),
            x.len() == i,
            t != ColumnType::Bytes,
            forall|i: int|
                0 <= i < v.len() ==> (payload_view(#[trigger] v@[i]) matches Some(b) ==> valid_utf8(
                    b,
                )),
            forall|j: int|
                0 <= j < i ==> text_cell(#[trigger] x@[j]) == payload_cell(t, payload_view(v@[j])),
            text_size(x@) == payloads_size(v@.take(i as int)),
        decreases v.len() - i,
    {
        let ghost before = x@;
        let cell: Option<String> = match &v[i] {
            None => None,
            Some(b) => match text_of_bytes(b.as_slice()) {
                Ok(s) => Some(s.to_owned()),
                Err(_) => {
                    assert(payload_view(v@[i as int]) is Some);
                    assert(false);
                    None
                },
            },
        };
        proof {
            if let Some(b) = payload_view(v@[i as int]) {
                vstd::utf8::decode_utf8_encode_utf8(b);
            }
        }
        x.push(cell);
        proof {
            assert(x@.drop_last() =~= before);
            assert(v@.take(i + 1).drop_last() =~= v@.take(i as int));
            assert(v@.take(i + 1).last() == v@[i as int]);
        }
        i += 1;
    }
    assert(v@.take(i as int) =~= v@);
    let c = Cells::Text(x);
    assert(c.column().cells =~= Seq::new(v@.len(), |i: int| payload_cell(t, payload_view(v@[i]))));
    c
}

/// The headers of all records, one after the other.
spec fn all_headers(rs: Seq<RecordView>) -> Seq<HeaderView>
    decreases rs.len(),
{
    if rs.len() == 0 {
        seq![]
    } else {
        all_headers(rs.drop_last()) + rs.last().headers
    }
}

proof fn lemma_headers_total(rs: Seq<RecordView>, lengths: Seq<usize>, n: nat)
    requires
        lengths.len() == rs.len(),
        n <= rs.len(),
        forall|i: int| 0 <= i < rs.len() ==> #[trigger] lengths[i] == rs[i].headers.len(),
    ensures
        total(lengths, n) == all_headers(rs.take(n as int)).len(),
        total(lengths, n) == batch_size(rs.take(n as int), Part::Headers),
    decreases n,
{
    if n > 0 {
        lemma_headers_total(rs, lengths, (n - 1) as nat);
        assert(rs.take(n as int).drop_last() =~= rs.take(n - 1));
        assert(lengths[n - 1] == rs[n - 1].headers.len());
    }
}

/// The headers of the first records are the first headers.
proof fn lemma_headers_prefix(rs: Seq<RecordView>, n: int)
    requires
        0 <= n <= rs.len(),
    ensures
        all_headers(rs.take(n)).len() <= all_headers(rs).len(),
        all_headers(rs.take(n)) == all_headers(rs).take(all_headers(rs.take(n)).len() as int),
    decreases rs.len() - n,
{
    if n < rs.len() {
        lemma_headers_prefix(rs, n + 1);
        assert(rs.take(n + 1).drop_last() =~= rs.take(n));
        let a = all_headers(rs.take(n));
        let b = all_headers(rs.take(n + 1));
        let all = all_headers(rs);
        assert(b == a + rs[n].headers);
        assert(a =~= b.take(a.len() as int));
        assert(all.take(b.len() as int).take(a.len() as int) =~= all.take(a.len() as int));
    } else {
        assert(rs.take(n) =~= rs);
        assert(all_headers(rs).take(all_headers(rs).len() as int) =~= all_headers(rs));
    }
}

/// The headers of record `i` among all headers.
proof fn lemma_own_headers(rs: Seq<RecordView>, lengths: Seq<usize>, i: int)
    requires
        lengths.len() == rs.len(),
        0 <= i < rs.len(),
        forall|i: int| 0 <= i < rs.len() ==> #[trigger] lengths[i] == rs[i].headers.len(),
    ensures
        total(lengths, i as nat) <= total(lengths, (i + 1) as nat) <= all_headers(rs).len(),
        rs[i].headers == all_headers(rs).subrange(
            total(lengths, i as nat) as int,
            total(lengths, (i + 1) as nat) as int,
        ),
{
    lemma_headers_total(rs, lengths, i as nat);
    lemma_headers_total(rs, lengths, (i + 1) as nat);
    lemma_headers_prefix(rs, i + 1);
    assert(rs.take(i + 1).drop_last() =~= rs.take(i));
    let a = all_headers(rs.take(i));
    let b = all_headers(rs.take(i + 1));
    let all = all_headers(rs);
    assert(b == a + rs[i].headers);
    assert(rs[i].headers =~= b.subrange(a.len() as int, b.len() as int));
    assert(b.subrange(a.len() as int, b.len() as int) =~= all.subrange(
        a.len() as int,
        b.len() as int,
    ));
}

proof fn lemma_header_keys_size(h: Seq<HeaderView>, t: Seq<HeaderView>)
    ensures
        header_keys_size(h + t) == header_keys_size(h) + header_keys_size(t),
    decreases t.len(),
{
    if t.len() > 0 {
        lemma_header_keys_size(h, t.drop_last());
        assert((h + t).drop_last() =~= h + t.drop_last());
        assert((h + t).last() == t.last());
    } else {
        assert(h + t =~= h);
    }
}

/// The parts of the headers column: how many headers each record has, and
/// the keys and values of all of them.
fn header_parts(records: &Vec<Record>) -> (r: (
    Vec<usize>,
    Vec<Option<String>>,
    Vec<Option<Vec<u8>>>,
))
    ensures
        ({
            let rs = records_view(records@);
            let all = all_headers(rs);
            &&& r.0.len() == rs.len()
            &&& forall|i: int| 0 <= i < rs.len() ==> #[trigger] r.0@[i] == rs[i].headers.len()
            &&& r.1.len() == all.len()
            &&& r.2.len() == all.len()
            &&& forall|j: int| 0 <= j < all.len() ==> text_cell(#[trigger] r.1@[j]) == Cell::Text(all[j].key)
            &&& forall|j: int| 0 <= j < all.len() ==> binary_cell(#[trigger] r.2@[j]) == bytes_cell(all[j].value)
            &&& text_size(r.1@) == header_keys_size(all)
        }),
{
    let ghost rs = records_view(records@);
    let mut lengths: Vec<usize> = Vec::new();
    let mut keys: Vec<Option<String>> = Vec::new();
    let mut values: Vec<Option<Vec<u8>>> = Vec::new();
    let mut i: usize = 0;
    assert(rs.take(0) =~= seq![]);
    while i < records.len()
        invariant
            i <= records.len(),
            rs == records_view(records@),
            lengths.len() == i,
            forall|k: int| 0 <= k < i ==> #[trigger] lengths@[k] == rs[k].headers.len(),
            keys.len() == all_headers(rs.take(i as int)).len(),
            values.len() == keys.len(),
            forall|j: int|
                0 <= j < keys.len() ==> text_cell(#[trigger] keys@[j]) == Cell::Text(
                    all_headers(rs.take(i as int))[j].key,
                ),
            forall|j: int|
                0 <= j < values.len() ==> binary_cell(#[trigger] values@[j]) == bytes_cell(
                    all_headers(rs.take(i as int))[j].value,
                ),
            text_size(keys@) == header_keys_size(all_headers(rs.take(i as int))),
        decreases records.len() - i,
    {
        let ghost before = all_headers(rs.take(i as int));
        let ghost own = rs[i as int].headers;
        proof {
            assert(rs.take(i + 1).drop_last() =~= rs.take(i as int));
            assert(rs.take(i + 1).last() == rs[i as int]);
            assert(before + own.take(0) =~= before);
        }
        let h = &records[i].headers;
        lengths.push(h.len());
        let mut k: usize = 0;
        while k < h.len()
            invariant
                k <= h.len(),
                own == headers_view(h@),
                keys.len() == before.len() + k,
                values.len() == keys.len(),
                forall|j: int|
                    0 <= j < keys.len() ==> text_cell(#[trigger] keys@[j]) == Cell::Text(
                        (before + own.take(k as int))[j].key,
                    ),
                forall|j: int|
                    0 <= j < values.len() ==> binary_cell(#[trigger] values@[j]) == bytes_cell(
                        (before + own.take(k as int))[j].value,
                    ),
                text_size(keys@) == header_keys_size(before + own.take(k as int)),
            decreases h.len() - k,
        {
            let ghost keys0 = keys@;
            let ghost so_far = before + own.take(k as int);
            keys.push(Some(h[k].key.clone()));
            values.push(copy_payload(&h[k].value));
            proof {
                let next = before + own.take(k + 1);
                assert(next =~= so_far.push(own[k as int]));
                assert(next.drop_last() =~= so_far);
                assert(keys@.drop_last() =~= keys0);
                assert(own[k as int] == h@[k as int]@);
            }
            k += 1;
        }
        proof {
            assert(own.take(k as int) =~= own);
        }
        i += 1;
    }
    assert(rs.take(i as int) =~= rs);
    (lengths, keys, values)
}

proof fn lemma_batch_header_keys(rs: Seq<RecordView>)
    ensures
        header_keys_size(all_headers(rs)) == batch_size(rs, Part::HeaderKeys),
    decreases rs.len(),
{
    if rs.len() > 0 {
        lemma_batch_header_keys(rs.drop_last());
        lemma_header_keys_size(all_headers(rs.drop_last()), rs.last().headers);
    }
}

/// The headers column.
fn header_column(records: &Vec<Record>) -> (r: arrow::array::ArrayData)
    requires
        batch_size(records_view(records@), Part::Headers) <= i32::MAX,
        batch_size(records_view(records@), Part::HeaderKeys) <= i32::MAX,
    ensures
        column_of(r).kind == Kind::List(bare_tag("item"@, true), Box::new(header_kind())),
        column_of(r).type_text == simple_type_text(column_of(r).kind),
        column_of(r).cells == records_view(records@).map_values(
            |r: RecordView| Cell::List(r.headers.map_values(|h: HeaderView| header_cell(h))),
        ),
{
    let ghost rs = records_view(records@);
    let (lengths, keys, values) = header_parts(records);
    let ghost all = all_headers(rs);
    proof {
        lemma_headers_total(rs, lengths@, rs.len());
        assert(rs.take(rs.len() as int) =~= rs);
        lemma_batch_header_keys(rs);
    }
    let k = close_cells(Cells::Text(keys));
    let v = close_cells(Cells::Binary(values));
    let fields = vec![("key".to_owned(), false, k), ("value".to_owned(), true, v)];
    assert(!column_of(k).cells.contains(Cell::Null)) by {
        if column_of(k).cells.contains(Cell::Null) {
            let j = column_of(k).cells.index_of(Cell::Null);
            assert(column_of(k).cells[j] == text_cell(keys@[j]));
        }
    }
    let items = close_rows(fields);
    proof {
        assert(column_of(items).kind->Struct_0 =~= header_kind()->Struct_0);
        assert(fields@.map_values(
            |f: (String, bool, arrow::array::ArrayData)| (f.0@, f.1, column_of(f.2).type_text),
        ) =~= header_kind()->Struct_0.map_values(
            |x: (FieldTag, Kind)| (x.0.name, x.0.nullable, plain_type_text(x.1)),
        ));
        let cells = column_of(items).cells;
        assert forall|j: int| 0 <= j < all.len() implies #[trigger] cells[j] == header_cell(all[j]) by {
            assert(column_of(k).cells[j] == text_cell(keys@[j]));
            assert(column_of(v).cells[j] == binary_cell(values@[j]));
            assert(fields@.map_values(
                |f: (String, bool, arrow::array::ArrayData)| (f.0@, column_of(f.2).cells[j]),
            ) =~= seq![("key"@, Cell::Text(all[j].key)), ("value"@, bytes_cell(all[j].value))]);
        }
        assert(cells =~= all.map_values(|h: HeaderView| header_cell(h)));
    }
    let r = close_list("item", lengths, items);
    proof {
        let want = rs.map_values(
            |r: RecordView| Cell::List(r.headers.map_values(|h: HeaderView| header_cell(h))),
        );
        assert forall|i: int| 0 <= i < rs.len() implies #[trigger] column_of(r).cells[i] == want[i] by {
            let a = total(lengths@, i as nat) as int;
            let b = total(lengths@, (i + 1) as nat) as int;
            lemma_own_headers(rs, lengths@, i);
            assert(column_of(items).cells.subrange(a, b) =~= rs[i].headers.map_values(
                |h: HeaderView| header_cell(h),
            ));
        }
        assert(column_of(r).cells =~= want);
    }
    r
}

fn bare_column(name: &str, nullable: bool, data: arrow::array::ArrayData) -> (c: TableColumn)
    requires
        column_of(data).type_text == simple_type_text(column_of(data).kind),
    ensures
        c.field() == bare_field(name@, nullable, column_of(data).kind, column_of(data).cells),
        c.nullable == nullable,
        c.data == data,
        unique_keys(c.metadata@.map_values(|e: (String, String)| (e.0@, e.1@))),
{
    let metadata: Vec<(String, String)> = Vec::new();
    assert(texts_map(metadata@) =~= no_metadata());
    TableColumn { name: name.to_owned(), nullable, metadata, data }
}

fn payload_column(name: &str, t: ColumnType, data: arrow::array::ArrayData) -> (c: TableColumn)
    requires
        column_of(data).kind == payload_kind(t),
        column_of(data).type_text == plain_type_text(payload_kind(t)),
    ensures
        c.field() == payload_field(name@, t, column_of(data).cells),
        c.nullable,
        c.data == data,
        unique_keys(c.metadata@.map_values(|e: (String, String)| (e.0@, e.1@))),
{
    let mut metadata: Vec<(String, String)> = Vec::new();
    let ghost none = Seq::<(Seq<char>, Seq<char>)>::empty();
    assert(metadata@.map_values(|e: (String, String)| (e.0@, e.1@)) =~= none);
    assert(as_map(none) =~= Map::empty());
    if matches!(t, ColumnType::Json) || matches!(t, ColumnType::JsonParseable) {
        metadata.push(("ARROW:extension:name".to_owned(), "arrow.json".to_owned()));
        metadata.push(("ARROW:extension:metadata".to_owned(), "".to_owned()));
        proof {
            let n = "ARROW:extension:name"@;
            let m = "ARROW:extension:metadata"@;
            reveal_strlit("ARROW:extension:name");
            reveal_strlit("ARROW:extension:metadata");
            assert(n.len() == 20 && m.len() == 24);
            crate::assoc::lemma_push_inserts(none, n, "arrow.json"@);
            let one = none.push((n, "arrow.json"@));
            assert(!has_key(one, m)) by {
                if has_key(one, m) {
                    assert(one[place_of(one, m)].0 == m);
                }
            }
            crate::assoc::lemma_push_inserts(one, m, ""@);
            assert(metadata@.map_values(|e: (String, String)| (e.0@, e.1@)) =~= one.push((m, ""@)));
        }
    }
    TableColumn { name: name.to_owned(), nullable: true, metadata, data }
}

fn codec(c: ParquetCompression) -> (r: Codec)
    ensures
        r == codec_of(c),
{
    match c {
        ParquetCompression::Zstd1 => Codec::Zstd(1),
        ParquetCompression::Zstd3 => Codec::Zstd(3),
        ParquetCompression::Snappy => Codec::Snappy,
        ParquetCompression::Lz4 => Codec::Lz4,
        ParquetCompression::Uncompressed => Codec::Uncompressed,
    }
}

proof fn lemma_payloads_size(v: Seq<Option<Vec<u8>>>, rs: Seq<RecordView>, p: Part)
    requires
        v.len() == rs.len(),
        p is Key || p is Value,
        forall|i: int|
            0 <= i < v.len() ==> payload_view(#[trigger] v[i]) == if p is Key {
                rs[i].key
            } else {
                rs[i].value
            },
    ensures
        payloads_size(v) == batch_size(rs, p),
    decreases v.len(),
{
    if v.len() > 0 {
        let a = v.drop_last();
        let b = rs.drop_last();
        assert forall|i: int| 0 <= i < a.len() implies payload_view(#[trigger] a[i]) == if p is Key {
            b[i].key
        } else {
            b[i].value
        } by {
            assert(a[i] == v[i]);
        }
        lemma_payloads_size(a, b, p);
        assert(payload_view(v[v.len() - 1]) == if p is Key {
            rs[v.len() - 1].key
        } else {
            rs[v.len() - 1].value
        });
    }
}

/// One payload column.
fn payload_data(records: &Vec<Record>, of_keys: bool, t: ColumnType) -> (r: arrow::array::ArrayData)
    requires
        t != ColumnType::Bytes ==> forall|i: int|
            0 <= i < records.len() ==> ((if of_keys {
                (#[trigger] records_view(records@)[i]).key
            } else {
                records_view(records@)[i].value
            }) matches Some(b) ==> valid_utf8(b)),
        t != ColumnType::Bytes ==> batch_size(
            records_view(records@),
            if of_keys {
                Part::Key
            } else {
                Part::Value
            },
        ) <= i32::MAX,
    ensures
        column_of(r).kind == payload_kind(t),
        column_of(r).type_text == plain_type_text(payload_kind(t)),
        column_of(r).cells == Seq::new(
            records@.len(),
            |i: int|
                payload_cell(
                    t,
                    if of_keys {
                        records_view(records@)[i].key
                    } else {
                        records_view(records@)[i].value
                    },
                ),
        ),
{
    let v = payloads_of(records, of_keys);
    let ghost rs = records_view(records@);
    proof {
        lemma_payloads_size(
            v@,
            rs,
            if of_keys {
                Part::Key
            } else {
                Part::Value
            },
        );
        if t != ColumnType::Bytes {
            assert forall|i: int| 0 <= i < v.len() implies (payload_view(
                #[trigger] v@[i],
            ) matches Some(b) ==> valid_utf8(b)) by {
                let r = rs[i];
            }
        }
    }
    let c = payload_cells(v, t);
    let r = close_cells(c);
    assert(column_of(r).cells =~= Seq::new(
        records@.len(),
        |i: int|
            payload_cell(
                t,
                if of_keys {
                    records_view(records@)[i].key
                } else {
                    records_view(records@)[i].value
                },
            ),
    ));
    r
}

/// The table of the records, whose payloads have been checked.
fn build_table(records: &Vec<Record>, keys: ColumnType, values: ColumnType) -> (r: Result<
    Table,
    String,
>)
    requires
        payload_fault(records_view(records@), keys, values) is None,
        fits(records_view(records@), keys, values),
    ensures
        r is Ok,
        fields_in(r->Ok_0) == table_of(records_view(records@), keys, values),
{
    let ghost rs = records_view(records@);
    proof {
        lemma_no_fault(rs, keys, values);
    }
    let topics = close_cells(Cells::Text(topic_cells(records)));
    let partitions = close_cells(Cells::Int32(partition_cells(records)));
    let offsets = close_cells(Cells::UInt64(offset_cells(records)));
    let timestamps = close_cells(Cells::Int64(timestamp_cells(records)));
    let kinds = close_cells(Cells::Text(timestamp_type_cells(records)));
    let key_data = payload_data(records, true, keys);
    let value_data = payload_data(records, false, values);
    let headers = header_column(records);
    let columns = vec![
        bare_column("topic", false, topics),
        bare_column("partition", false, partitions),
        bare_column("offset", false, offsets),
        bare_column("timestamp_ms", true, timestamps),
        bare_column("timestamp_type", false, kinds),
        payload_column("key", keys, key_data),
        payload_column("value", values, value_data),
        bare_column("headers", false, headers),
    ];
    proof {
        assert(column_of(key_data).cells =~= rs.map_values(
            |r: RecordView| payload_cell(keys, r.key),
        ));
        assert(column_of(value_data).cells =~= rs.map_values(
            |r: RecordView| payload_cell(values, r.value),
        ));
        assert(columns@.map_values(|c: TableColumn| c.field()) =~= table_of(rs, keys, values));
        let t = table_of(rs, keys, values);
        lemma_no_nulls(rs, keys, values);
        assert forall|i: int| 0 <= i < columns@.len() implies (
        #[trigger] columns@[i]).nulls_allowed() && column_of(columns@[i].data).cells.len()
            == column_of(columns@[0].data).cells.len() by {
            assert(columns@[i].field() == t[i]);
            assert(columns@[0].field() == t[0]);
        }
    }
    make_table(columns)
}

/// The columns that may not be null have no null cell.
proof fn lemma_no_nulls(rs: Seq<RecordView>, keys: ColumnType, values: ColumnType)
    ensures
        forall|i: int|
            0 <= i < 8 ==> (#[trigger] table_of(rs, keys, values)[i]).nullable || !table_of(
                rs,
                keys,
                values,
            )[i].column.cells.contains(Cell::Null),
        forall|i: int|
            0 <= i < 8 ==> (#[trigger] table_of(rs, keys, values)[i]).column.cells.len() == rs.len(),
{
    let t = table_of(rs, keys, values);
    assert forall|i: int| 0 <= i < 8 implies (#[trigger] t[i]).nullable
        || !t[i].column.cells.contains(Cell::Null) by {
        if !t[i].nullable && t[i].column.cells.contains(Cell::Null) {
            let j = t[i].column.cells.index_of(Cell::Null);
            assert(t[i].column.cells[j] == Cell::Null);
        }
    }
}

// ---- reading -----------------------------------------------------------------

/// The first column of the given name.
pub open spec fn column_named(f: Seq<FieldView>, name: Seq<char>) -> Option<FieldView>
    decreases f.len(),
{
    if f.len() == 0 {
        None
    } else if f[0].name == name {
        Some(f[0])
    } else {
        column_named(f.skip(1), name)
    }
}

/// The type of the first field of the given name.
pub open spec fn kind_named(f: Seq<(FieldTag, Kind)>, name: Seq<char>) -> Option<Kind>
    decreases f.len(),
{
    if f.len() == 0 {
        None
    } else if f[0].0.name == name {
        Some(f[0].1)
    } else {
        kind_named(f.skip(1), name)
    }
}

/// The cell of the first field of the given name.
pub open spec fn cell_named(f: Seq<(Seq<char>, Cell)>, name: Seq<char>) -> Option<Cell>
    decreases f.len(),
{
    if f.len() == 0 {
        None
    } else if f[0].0 == name {
        Some(f[0].1)
    } else {
        cell_named(f.skip(1), name)
    }
}

/// What is wrong with the type of the headers column.
pub open spec fn header_kind_fault(k: Kind) -> Option<Seq<char>> {
    match k {
        Kind::List(_, items) => match *items {
            Kind::Struct(f) => if kind_named(f, "key"@) != Some(Kind::Utf8) {
                Some("header.key not Utf8"@)
            } else if kind_named(f, "value"@) != Some(Kind::LargeBinary) {
                Some("header.value not LargeBinary"@)
            } else {
                None
            },
            _ => Some("headers items not Struct"@),
        },
        _ => Some("headers not List"@),
    }
}

/// The first of the names under which there is no column.
pub open spec fn missing(f: Seq<FieldView>, names: Seq<Seq<char>>) -> Option<Seq<char>>
    decreases names.len(),
{
    if names.len() == 0 {
        None
    } else if column_named(f, names[0]) is None {
        Some(names[0])
    } else {
        missing(f, names.skip(1))
    }
}

pub open spec fn column_names() -> Seq<Seq<char>> {
    seq![
        "topic"@,
        "partition"@,
        "offset"@,
        "timestamp_ms"@,
        "timestamp_type"@,
        "key"@,
        "value"@,
        "headers"@,
    ]
}

pub open spec fn kind_of(f: Seq<FieldView>, name: Seq<char>) -> Kind {
    column_named(f, name)->0.column.kind
}

pub open spec fn is_payload_kind(k: Kind) -> bool {
    k == Kind::Utf8 || k == Kind::LargeBinary
}

/// What is wrong with the columns of a table.
pub open spec fn table_fault(f: Seq<FieldView>) -> Option<Seq<char>> {
    if missing(f, column_names()) is Some {
        Some("missing column "@ + missing(f, column_names())->0)
    } else if !is_payload_kind(kind_of(f, "key"@)) {
        Some(
            "key column must be Utf8 or LargeBinary, got "@ + column_named(
                f,
                "key"@,
            )->0.column.type_text,
        )
    } else if !is_payload_kind(kind_of(f, "value"@)) {
        Some(
            "value column must be Utf8 or LargeBinary, got "@ + column_named(
                f,
                "value"@,
            )->0.column.type_text,
        )
    } else if kind_of(f, "topic"@) != Kind::Utf8 {
        Some("topic not Utf8"@)
    } else if kind_of(f, "partition"@) != Kind::Int32 {
        Some("partition not Int32"@)
    } else if kind_of(f, "offset"@) != Kind::UInt64 {
        Some("offset not UInt64"@)
    } else if kind_of(f, "timestamp_ms"@) != Kind::Int64 {
        Some("timestamp_ms not Int64"@)
    } else if kind_of(f, "timestamp_type"@) != Kind::Utf8 {
        Some("timestamp_type not Utf8"@)
    } else {
        header_kind_fault(kind_of(f, "headers"@))
    }
}

pub open spec fn cell_at(f: Seq<FieldView>, name: Seq<char>, i: int) -> Cell {
    column_named(f, name)->0.column.cells[i]
}

/// The text in a cell; none where the cell is null.
pub open spec fn cell_text(c: Cell) -> Seq<char> {
    match c {
        Cell::Text(s) => s,
        _ => seq![],
    }
}

/// The number in a cell; zero where the cell is null.
pub open spec fn cell_int(c: Cell) -> int {
    match c {
        Cell::Int(n) => n,
        _ => 0,
    }
}

/// Whether a column of texts holds base64.
pub open spec fn holds_base64(m: Map<Seq<char>, Seq<char>>) -> bool {
    m.dom().contains("ARROW:extension:name"@) && m["ARROW:extension:name"@]
        == "mirror_v3.bytes_base64"@
}

/// The payload in a cell.
pub open spec fn cell_payload(name: Seq<char>, base64: bool, i: int, c: Cell) -> Result<
    Option<Seq<u8>>,
    Seq<char>,
> {
    match c {
        Cell::Text(s) => if base64 {
            match base64_bytes(s) {
                Ok(b) => Ok(Some(b)),
                Err(e) => Err(name + " row "@ + dec(i as nat) + ": base64-decode: "@ + e),
            }
        } else {
            Ok(Some(encode_utf8(s)))
        },
        Cell::Binary(b) => Ok(Some(b)),
        _ => Ok(None),
    }
}

/// The header in a cell.
pub open spec fn cell_header(c: Cell) -> HeaderView {
    match c {
        Cell::Row(f) => HeaderView {
            key: match cell_named(f, "key"@) {
                Some(k) => cell_text(k),
                None => seq![],
            },
            value: match cell_named(f, "value"@) {
                Some(Cell::Binary(b)) => Some(b),
                _ => None,
            },
        },
        _ => HeaderView { key: seq![], value: None },
    }
}

/// The headers in a cell.
pub open spec fn cell_headers(c: Cell) -> Seq<HeaderView> {
    match c {
        Cell::List(l) => l.map_values(|x: Cell| cell_header(x)),
        _ => seq![],
    }
}

/// The record in row `i` of a table without fault.
pub open spec fn row_record(f: Seq<FieldView>, i: int) -> Result<RecordView, Seq<char>> {
    let key = cell_payload(
        "key"@,
        holds_base64(column_named(f, "key"@)->0.metadata),
        i,
        cell_at(f, "key"@, i),
    );
    let value = cell_payload(
        "value"@,
        holds_base64(column_named(f, "value"@)->0.metadata),
        i,
        cell_at(f, "value"@, i),
    );
    if key is Err {
        Err(key->Err_0)
    } else if value is Err {
        Err(value->Err_0)
    } else {
        Ok(
            RecordView {
                topic: cell_text(cell_at(f, "topic"@, i)),
                partition: cell_int(cell_at(f, "partition"@, i)) as i32,
                source_offset: cell_int(cell_at(f, "offset"@, i)) as u64,
                timestamp_ms: match cell_at(f, "timestamp_ms"@, i) {
                    Cell::Int(n) => Some(n as i64),
                    _ => None,
                },
                timestamp_type: type_named(cell_text(cell_at(f, "timestamp_type"@, i))),
                key: key->Ok_0,
                value: value->Ok_0,
                headers: cell_headers(cell_at(f, "headers"@, i)),
            },
        )
    }
}

/// The records in the first `n` rows of a table without fault.
pub open spec fn row_records(f: Seq<FieldView>, n: nat) -> Result<Seq<RecordView>, Seq<char>>
    decreases n,
{
    if n == 0 {
        Ok(seq![])
    } else {
        match row_records(f, (n - 1) as nat) {
            Err(e) => Err(e),
            Ok(rs) => match row_record(f, n - 1) {
                Err(e) => Err(e),
                Ok(r) => Ok(rs.push(r)),
            },
        }
    }
}

/// The records in a table.
pub open spec fn table_records(f: Seq<FieldView>) -> Result<Seq<RecordView>, Seq<char>> {
    match table_fault(f) {
        Some(e) => Err(e),
        None => row_records(f, column_named(f, "topic"@)->0.column.cells.len()),
    }
}

/// The records in tables, one after the other.
pub open spec fn tables_records(t: Seq<Seq<FieldView>>) -> Result<Seq<RecordView>, Seq<char>>
    decreases t.len(),
{
    if t.len() == 0 {
        Ok(seq![])
    } else {
        match tables_records(t.drop_last()) {
            Err(e) => Err(e),
            Ok(before) => match table_records(t.last()) {
                Err(e) => Err(e),
                Ok(rs) => Ok(before + rs),
            },
        }
    }
}

/// Whether the bytes are not a damaged Parquet file on which the reader
/// panics.
pub open spec fn readable(bytes: Seq<u8>) -> bool {
    parquet_tables(bytes) is Some
}

/// The records in a Parquet file.
pub open spec fn file_records(bytes: Seq<u8>) -> Result<Seq<RecordView>, Seq<char>> {
    match parquet_tables(bytes)->0 {
        Err((ReadStage::Init, e)) => Err("reader init: "@ + e),
        Err((ReadStage::Build, e)) => Err("reader build: "@ + e),
        Ok((tables, fault)) => match tables_records(tables) {
            Err(e) => Err(e),
            Ok(rs) => match fault {
                Some(e) => Err("read batch: "@ + e),
                None => Ok(rs),
            },
        },
    }
}

// ---- what is written can be read -----------------------------------------------

proof fn lemma_column_names()
    ensures
        forall|i: int, j: int| 0 <= i < j < 8 ==> column_names()[i] != column_names()[j],
{
    reveal_strlit("topic");
    reveal_strlit("partition");
    reveal_strlit("offset");
    reveal_strlit("timestamp_ms");
    reveal_strlit("timestamp_type");
    reveal_strlit("key");
    reveal_strlit("value");
    reveal_strlit("headers");
    assert("topic"@.len() == 5 && "topic"@[0] == 't');
    assert("value"@.len() == 5 && "value"@[0] == 'v');
    assert("partition"@.len() == 9);
    assert("offset"@.len() == 6);
    assert("timestamp_ms"@.len() == 12);
    assert("timestamp_type"@.len() == 14);
    assert("key"@.len() == 3);
    assert("headers"@.len() == 7);
}

/// Among columns of different names each is the one of its name.
proof fn lemma_column_at(f: Seq<FieldView>, i: int)
    requires
        0 <= i < f.len(),
        forall|a: int, b: int| 0 <= a < b < f.len() ==> f[a].name != f[b].name,
    ensures
        column_named(f, f[i].name) == Some(f[i]),
    decreases f.len(),
{
    if i > 0 {
        assert(f[0].name != f[i].name);
        assert forall|a: int, b: int| 0 <= a < b < f.skip(1).len() implies f.skip(1)[a].name
            != f.skip(1)[b].name by {
            assert(f[a + 1].name != f[b + 1].name);
        }
        lemma_column_at(f.skip(1), i - 1);
        assert(f.skip(1)[i - 1] == f[i]);
    }
}

/// The columns of a table of records by their names.
proof fn lemma_table_columns(rs: Seq<RecordView>, keys: ColumnType, values: ColumnType)
    ensures
        ({
            let t = table_of(rs, keys, values);
            &&& forall|a: int, b: int| 0 <= a < b < t.len() ==> t[a].name != t[b].name
            &&& column_named(t, "topic"@) == Some(t[0])
            &&& column_named(t, "partition"@) == Some(t[1])
            &&& column_named(t, "offset"@) == Some(t[2])
            &&& column_named(t, "timestamp_ms"@) == Some(t[3])
            &&& column_named(t, "timestamp_type"@) == Some(t[4])
            &&& column_named(t, "key"@) == Some(t[5])
            &&& column_named(t, "value"@) == Some(t[6])
            &&& column_named(t, "headers"@) == Some(t[7])
        }),
{
    let t = table_of(rs, keys, values);
    lemma_column_names();
    let n = column_names();
    assert forall|i: int| 0 <= i < 8 implies #[trigger] t[i].name == n[i] by {}
    assert forall|a: int, b: int| 0 <= a < b < t.len() implies t[a].name != t[b].name by {
        assert(n[a] != n[b]);
    }
    lemma_column_at(t, 0);
    lemma_column_at(t, 1);
    lemma_column_at(t, 2);
    lemma_column_at(t, 3);
    lemma_column_at(t, 4);
    lemma_column_at(t, 5);
    lemma_column_at(t, 6);
    lemma_column_at(t, 7);
}

proof fn lemma_table_sound(rs: Seq<RecordView>, keys: ColumnType, values: ColumnType)
    ensures
        table_fault(table_of(rs, keys, values)) is None,
{
    let t = table_of(rs, keys, values);
    lemma_table_columns(rs, keys, values);
    let n = column_names();
    assert(n.skip(1).skip(1) =~= n.skip(2));
    assert(n.skip(2).skip(1) =~= n.skip(3));
    assert(n.skip(3).skip(1) =~= n.skip(4));
    assert(n.skip(4).skip(1) =~= n.skip(5));
    assert(n.skip(5).skip(1) =~= n.skip(6));
    assert(n.skip(6).skip(1) =~= n.skip(7));
    assert(n.skip(7).skip(1) =~= seq![]);
    assert(missing(t, seq![]) is None);
    assert(missing(t, n.skip(7)) is None);
    assert(missing(t, n.skip(6)) is None);
    assert(missing(t, n.skip(5)) is None);
    assert(missing(t, n.skip(4)) is None);
    assert(missing(t, n.skip(3)) is None);
    assert(missing(t, n.skip(2)) is None);
    assert(missing(t, n.skip(1)) is None);
    assert(missing(t, n) is None);
    lemma_header_fields();
}

proof fn lemma_header_fields()
    ensures
        header_kind_fault(Kind::List(bare_tag("item"@, true), Box::new(header_kind()))) is None,
        forall|h: HeaderView| cell_header(#[trigger] header_cell(h)) == h,
{
    lemma_column_names();
    let n = column_names();
    assert(n[5] != n[6]);
    let f = header_kind()->Struct_0;
    assert(kind_named(f, "key"@) == Some(Kind::Utf8));
    assert(f.skip(1)[0] == f[1]);
    assert(kind_named(f.skip(1), "value"@) == Some(Kind::LargeBinary));
    assert forall|h: HeaderView| cell_header(#[trigger] header_cell(h)) == h by {
        let c = header_cell(h)->Row_0;
        assert(cell_named(c, "key"@) == Some(Cell::Text(h.key)));
        assert(c.skip(1)[0] == c[1]);
        assert(cell_named(c.skip(1), "value"@) == Some(bytes_cell(h.value)));
        assert(cell_named(c, "value"@) == Some(bytes_cell(h.value)));
    }
}

/// The metadata that this format writes is not that of base64.
proof fn lemma_not_base64(t: ColumnType)
    ensures
        !holds_base64(payload_metadata(t)),
{
    let n = "ARROW:extension:name"@;
    let m = "ARROW:extension:metadata"@;
    reveal_strlit("ARROW:extension:name");
    reveal_strlit("ARROW:extension:metadata");
    assert(n.len() == 20 && m.len() == 24);
    reveal_strlit("arrow.json");
    reveal_strlit("mirror_v3.bytes_base64");
    assert("arrow.json"@.len() == 10);
    assert("mirror_v3.bytes_base64"@.len() == 22);
}

/// A payload that is what its column is declared to hold can be had back
/// from its cell.
proof fn lemma_payload_back(
    name: Seq<char>,
    t: ColumnType,
    offset: u64,
    p: Option<Seq<u8>>,
    i: int,
)
    requires
        column_fault(t, name, offset, p) is None,
    ensures
        cell_payload(name, false, i, payload_cell(t, p)) == Ok::<Option<Seq<u8>>, Seq<char>>(p),
{
    if let Some(b) = p {
        if t != ColumnType::Bytes {
            vstd::utf8::decode_utf8_encode_utf8(b);
        }
    }
}

proof fn lemma_row_back(rs: Seq<RecordView>, keys: ColumnType, values: ColumnType, i: int)
    requires
        payload_fault(rs, keys, values) is None,
        0 <= i < rs.len(),
    ensures
        row_record(table_of(rs, keys, values), i) == Ok::<RecordView, Seq<char>>(rs[i]),
{
    let t = table_of(rs, keys, values);
    let r = rs[i];
    lemma_table_columns(rs, keys, values);
    lemma_no_fault(rs, keys, values);
    lemma_not_base64(keys);
    lemma_not_base64(values);
    lemma_payload_back("key"@, keys, r.source_offset, r.key, i);
    lemma_payload_back("value"@, values, r.source_offset, r.value, i);
    lemma_header_fields();
    let l = r.headers.map_values(|h: HeaderView| header_cell(h));
    assert(cell_at(t, "headers"@, i) == Cell::List(l));
    assert(l.map_values(|x: Cell| cell_header(x)) =~= r.headers);
    crate::record::law_timestamp_type_names_are_distinct(
        r.timestamp_type,
        crate::record::TimestampType::CreateTime,
    );
    crate::record::law_timestamp_type_names_are_distinct(
        r.timestamp_type,
        crate::record::TimestampType::LogAppendTime,
    );
}

proof fn lemma_rows_back(rs: Seq<RecordView>, keys: ColumnType, values: ColumnType, n: nat)
    requires
        payload_fault(rs, keys, values) is None,
        n <= rs.len(),
    ensures
        row_records(table_of(rs, keys, values), n) == Ok::<Seq<RecordView>, Seq<char>>(
            rs.take(n as int),
        ),
    decreases n,
{
    if n > 0 {
        lemma_rows_back(rs, keys, values, (n - 1) as nat);
        lemma_row_back(rs, keys, values, n - 1);
        assert(rs.take(n - 1).push(rs[n - 1]) =~= rs.take(n as int));
    } else {
        assert(rs.take(0) =~= seq![]);
    }
}

/// Records whose payloads are what their columns are declared to hold are
/// the records in their table.
pub proof fn law_table_gives_records_back(
    rs: Seq<RecordView>,
    keys: ColumnType,
    values: ColumnType,
)
    requires
        payload_fault(rs, keys, values) is None,
    ensures
        table_records(table_of(rs, keys, values)) == Ok::<Seq<RecordView>, Seq<char>>(rs),
{
    lemma_table_columns(rs, keys, values);
    lemma_table_sound(rs, keys, values);
    lemma_rows_back(rs, keys, values, rs.len());
    assert(rs.take(rs.len() as int) =~= rs);
}

/// Some of the rows of a table of records are the table of those records.
proof fn lemma_rows_between(
    rs: Seq<RecordView>,
    keys: ColumnType,
    values: ColumnType,
    a: int,
    b: int,
)
    requires
        0 <= a <= b <= rs.len(),
    ensures
        rows_between(table_of(rs, keys, values), a, b) == table_of(
            rs.subrange(a, b),
            keys,
            values,
        ),
{
    let t = table_of(rs, keys, values);
    let u = table_of(rs.subrange(a, b), keys, values);
    let x = rows_between(t, a, b);
    assert forall|i: int| 0 <= i < 8 implies #[trigger] x[i] == u[i] by {
        assert(x[i].column.cells =~= u[i].column.cells);
    }
    assert(x =~= u);
}

proof fn lemma_fault_free_part(
    rs: Seq<RecordView>,
    keys: ColumnType,
    values: ColumnType,
    a: int,
    b: int,
)
    requires
        payload_fault(rs, keys, values) is None,
        0 <= a <= b <= rs.len(),
    ensures
        payload_fault(rs.subrange(a, b), keys, values) is None,
    decreases b - a,
{
    lemma_no_fault(rs, keys, values);
    let part = rs.subrange(a, b);
    if a < b {
        lemma_fault_free_part(rs, keys, values, a, b - 1);
        assert(part.drop_last() =~= rs.subrange(a, b - 1));
        assert(part.last() == rs[b - 1]);
    }
}

/// Tables after a first one.
proof fn lemma_tables_front(t: Seq<Seq<FieldView>>)
    requires
        t.len() > 0,
        table_records(t[0]) is Ok,
        tables_records(t.skip(1)) is Ok,
    ensures
        tables_records(t) == Ok::<Seq<RecordView>, Seq<char>>(
            table_records(t[0])->Ok_0 + tables_records(t.skip(1))->Ok_0,
        ),
    decreases t.len(),
{
    let first = table_records(t[0])->Ok_0;
    if t.len() == 1 {
        assert(t.drop_last() =~= seq![]);
        assert(t.skip(1) =~= seq![]);
        assert(tables_records(seq![]) == Ok::<Seq<RecordView>, Seq<char>>(seq![]));
        assert(Seq::<RecordView>::empty() + first =~= first + Seq::<RecordView>::empty());
    } else {
        let init = t.drop_last();
        assert(init.skip(1) =~= t.skip(1).drop_last());
        assert(t.skip(1).last() == t.last());
        assert(init[0] == t[0]);
        lemma_tables_front(init);
        let mid = tables_records(init.skip(1))->Ok_0;
        let last = table_records(t.last())->Ok_0;
        assert((first + mid) + last =~= first + (mid + last));
    }
}

/// However a reader splits the table of records, it gives them back.
proof fn lemma_split_back(
    tables: Seq<Seq<FieldView>>,
    rs: Seq<RecordView>,
    keys: ColumnType,
    values: ColumnType,
)
    requires
        payload_fault(rs, keys, values) is None,
        is_split(tables, table_of(rs, keys, values)),
    ensures
        tables_records(tables) == Ok::<Seq<RecordView>, Seq<char>>(rs),
    decreases tables.len(),
{
    let t = table_of(rs, keys, values);
    assert(row_count(t) == rs.len());
    if tables.len() == 0 {
        assert(rs =~= seq![]);
    } else {
        let n = rs.len() as int;
        let k = choose|k: int|
            #![trigger rows_between(t, 0, k)]
            0 < k <= row_count(t) && tables[0] == rows_between(t, 0, k) && is_split(
                tables.skip(1),
                rows_between(t, k, row_count(t)),
            );
        lemma_rows_between(rs, keys, values, 0, k);
        lemma_rows_between(rs, keys, values, k, n);
        lemma_fault_free_part(rs, keys, values, 0, k);
        lemma_fault_free_part(rs, keys, values, k, n);
        law_table_gives_records_back(rs.subrange(0, k), keys, values);
        lemma_split_back(tables.skip(1), rs.subrange(k, n), keys, values);
        lemma_tables_front(tables);
        assert(rs.subrange(0, k) + rs.subrange(k, n) =~= rs);
    }
}

/// Every record counts among the bytes of the timestamp types.
proof fn lemma_record_count(rs: Seq<RecordView>)
    ensures
        rs.len() <= batch_size(rs, Part::TimestampType),
    decreases rs.len(),
{
    if rs.len() > 0 {
        lemma_record_count(rs.drop_last());
        let name = rs.last().timestamp_type.wire_name();
        reveal_strlit("create_time");
        reveal_strlit("log_append_time");
        reveal_strlit("not_available");
        assert(name.len() > 0);
        vstd::utf8::encode_utf8_decode_utf8(name);
        vstd::utf8::encode_utf8_valid_utf8(name);
        assert(encode_utf8(name).len() > 0);
    }
}

proof fn lemma_table_is_simple(rs: Seq<RecordView>, keys: ColumnType, values: ColumnType)
    requires
        fits(rs, keys, values),
    ensures
        is_simple(table_of(rs, keys, values)),
{
    lemma_record_count(rs);
    let t = table_of(rs, keys, values);
    lemma_table_columns(rs, keys, values);
    reveal_strlit("topic");
    reveal_strlit("partition");
    reveal_strlit("offset");
    reveal_strlit("timestamp_ms");
    reveal_strlit("timestamp_type");
    reveal_strlit("key");
    reveal_strlit("value");
    reveal_strlit("headers");
    reveal_strlit("item");
    assert("topic"@.len() == 5);
    assert("partition"@.len() == 9);
    assert("offset"@.len() == 6);
    assert("timestamp_ms"@.len() == 12);
    assert("timestamp_type"@.len() == 14);
    assert("key"@.len() == 3);
    assert("value"@.len() == 5);
    assert("headers"@.len() == 7);
    assert("item"@.len() == 4);
    assert forall|k: int| 0 <= k < t[7].column.cells.len() implies (
    #[trigger] t[7].column.cells[k] matches Cell::List(items) && simple_rows(items)) by {
        let items = t[7].column.cells[k]->List_0;
        assert forall|j: int| 0 <= j < items.len() implies (#[trigger] items[j] matches Cell::Row(f)
            && forall|l: int|
            0 <= l < f.len() ==> (#[trigger] f[l]).1 is Text || f[l].1 is Binary || f[l].1 is Null) by {
            assert(items[j] == header_cell(rs[k].headers[j]));
        }
    }
}

/// Write records as a Parquet file, unless a payload is not what its
/// column is declared to hold. Reading the file gives the records back.
pub fn encode_batch(
    records: &Vec<Record>,
    compression: ParquetCompression,
    keys: ColumnType,
    values: ColumnType,
) -> (r: Result<Vec<u8>, EnvelopeError>)
    requires
        payload_fault(records_view(records@), keys, values) is None ==> fits(
            records_view(records@),
            keys,
            values,
        ),
    ensures
        match payload_fault(records_view(records@), keys, values) {
            Some(f) => r matches Err(EnvelopeError::Encode(m)) && m@ == f,
            None => match (
                r,
                parquet_file(
                    table_of(records_view(records@), keys, values),
                    settings_of(compression),
                ),
            ) {
                (Ok(v), Ok(b)) => v@ == b,
                (Err(EnvelopeError::Encode(m)), Err((stage, e))) => m@ == write_fault(stage, e),
                _ => false,
            },
        },
        r matches Ok(v) ==> readable(v@) && file_records(v@) == Ok::<Seq<RecordView>, Seq<char>>(
            records_view(records@),
        ),
{
    if let Err(e) = check_payloads(records, keys, values) {
        return Err(EnvelopeError::Encode(e));
    }
    let table = match build_table(records, keys, values) {
        Ok(t) => t,
        Err(e) => {
            return Err(EnvelopeError::Encode("record batch: ".to_owned().concat(e.as_str())));
        },
    };
    proof {
        lemma_table_is_simple(records_view(records@), keys, values);
    }
    let settings = Settings {
        codec: codec(compression),
        dictionary: true,
        chunk_statistics: true,
    };
    match write_parquet(&table, settings) {
        Ok(v) => {
            proof {
                lemma_split_back(
                    parquet_tables(v@)->0->Ok_0.0,
                    records_view(records@),
                    keys,
                    values,
                );
            }
            Ok(v)
        },
        Err((WriteStage::Init, e)) => Err(
            EnvelopeError::Encode("writer init: ".to_owned().concat(e.as_str())),
        ),
        Err((WriteStage::Table, e)) => Err(
            EnvelopeError::Encode("write batch: ".to_owned().concat(e.as_str())),
        ),
        Err((WriteStage::Close, e)) => Err(
            EnvelopeError::Encode("close: ".to_owned().concat(e.as_str())),
        ),
    }
}

// ---- reading, executed ---------------------------------------------------------

/// The contents of opened columns.
pub open spec fn opened(cols: Seq<TableColumn>) -> Seq<FieldView> {
    cols.map_values(|c: TableColumn| c.field())
}

/// The place of the first column of the given name.
fn find_column(cols: &Vec<TableColumn>, name: &str) -> (r: Option<usize>)
    ensures
        r is Some <==> column_named(opened(cols@), name@) is Some,
        r matches Some(i) ==> i < cols.len() && column_named(opened(cols@), name@) == Some(
            cols@[i as int].field(),
        ),
{
    let ghost f = opened(cols@);
    let mut i: usize = 0;
    assert(f.skip(0) =~= f);
    while i < cols.len()
        invariant
            i <= cols.len(),
            f == opened(cols@),
            column_named(f, name@) == column_named(f.skip(i as int), name@),
        decreases cols.len() - i,
    {
        assert(f.skip(i as int)[0] == cols@[i as int].field());
        assert(f.skip(i as int).skip(1) =~= f.skip(i + 1));
        if same_text(cols[i].name.as_str(), name) {
            return Some(i);
        }
        i += 1;
    }
    None
}

/// The first of the names under which there is no column.
fn find_missing<'a>(cols: &Vec<TableColumn>, names: &Vec<&'a str>) -> (r: Option<&'a str>)
    ensures
        ({
            let n = names@.map_values(|s: &'a str| s@);
            &&& r is Some <==> missing(opened(cols@), n) is Some
            &&& r matches Some(s) ==> missing(opened(cols@), n) == Some(s@)
        }),
{
    let ghost n = names@.map_values(|s: &'a str| s@);
    let ghost f = opened(cols@);
    let mut i: usize = 0;
    assert(n.skip(0) =~= n);
    while i < names.len()
        invariant
            i <= names.len(),
            f == opened(cols@),
            n == names@.map_values(|s: &'a str| s@),
            missing(f, n) == missing(f, n.skip(i as int)),
        decreases names.len() - i,
    {
        assert(n.skip(i as int)[0] == names@[i as int]@);
        assert(n.skip(i as int).skip(1) =~= n.skip(i + 1));
        if find_column(cols, names[i]).is_none() {
            return Some(names[i]);
        }
        i += 1;
    }
    None
}

/// Whether the metadata marks a column of base64.
fn marks_base64(metadata: &Vec<(String, String)>) -> (r: bool)
    requires
        unique_keys(metadata@.map_values(|e: (String, String)| (e.0@, e.1@))),
    ensures
        r == holds_base64(texts_map(metadata@)),
{
    let ghost m = metadata@.map_values(|e: (String, String)| (e.0@, e.1@));
    let mut i: usize = 0;
    while i < metadata.len()
        invariant
            i <= metadata.len(),
            m == metadata@.map_values(|e: (String, String)| (e.0@, e.1@)),
            unique_keys(m),
            forall|j: int| 0 <= j < i ==> (#[trigger] m[j]).0 != "ARROW:extension:name"@,
        decreases metadata.len() - i,
    {
        assert(m[i as int].0 == metadata@[i as int].0@);
        if same_text(metadata[i].0.as_str(), "ARROW:extension:name") {
            proof {
                lemma_lookup_at(m, i as int);
            }
            return same_text(metadata[i].1.as_str(), "mirror_v3.bytes_base64");
        }
        i += 1;
    }
    assert(!has_key(m, "ARROW:extension:name"@));
    false
}

/// The payload in row `i` of a payload column.
pub fn payload_at(name: &str, base64: bool, cells: &Cells, i: usize) -> (r: Result<
    Option<Vec<u8>>,
    String,
>)
    requires
        cells is Text || cells is Binary,
        i < cells.column().cells.len(),
    ensures
        match (r, cell_payload(name@, base64, i as int, cells.column().cells[i as int])) {
            (Ok(p), Ok(x)) => payload_view(p) == x,
            (Err(e), Err(f)) => e@ == f,
            _ => false,
        },
{
    match cells {
        Cells::Text(v) => match &v[i] {
            None => Ok(None),
            Some(s) => if base64 {
                match decode_base64(s.as_str()) {
                    Ok(b) => Ok(Some(b)),
                    Err(e) => Err(
                        name.to_owned().concat(" row ").concat(
                            decimal(i as u64).as_str(),
                        ).concat(": base64-decode: ").concat(e.as_str()),
                    ),
                }
            } else {
                Ok(Some(s.as_str().as_bytes_vec()))
            },
        },
        Cells::Binary(v) => Ok(copy_payload(&v[i])),
        _ => Ok(None),
    }
}

/// The place of the first field of the given name.
fn find_field(fields: &Vec<(String, arrow::array::ArrayData)>, name: &str) -> (r: Option<usize>)
    ensures
        r matches Some(k) ==> k < fields.len() && fields@[k as int].0@ == name@ && forall|j: int|
            0 <= j < k ==> (#[trigger] fields@[j]).0@ != name@,
        r is None ==> forall|j: int| 0 <= j < fields.len() ==> (#[trigger] fields@[j]).0@ != name@,
{
    let mut k: usize = 0;
    while k < fields.len()
        invariant
            k <= fields.len(),
            forall|j: int| 0 <= j < k ==> (#[trigger] fields@[j]).0@ != name@,
        decreases fields.len() - k,
    {
        if same_text(fields[k].0.as_str(), name) {
            return Some(k);
        }
        k += 1;
    }
    None
}

proof fn lemma_kind_named(f: Seq<(FieldTag, Kind)>, name: Seq<char>, k: int)
    requires
        0 <= k <= f.len(),
        forall|j: int| 0 <= j < k ==> (#[trigger] f[j]).0.name != name,
        k < f.len() ==> f[k].0.name == name,
    ensures
        kind_named(f, name) == if k < f.len() {
            Some(f[k].1)
        } else {
            None
        },
    decreases f.len(),
{
    if f.len() > 0 && k > 0 {
        assert(f[0].0.name != name);
        assert forall|j: int| 0 <= j < k - 1 implies (#[trigger] f.skip(1)[j]).0.name != name by {
            assert(f[j + 1].0.name != name);
        }
        lemma_kind_named(f.skip(1), name, k - 1);
    }
}

proof fn lemma_cell_named(f: Seq<(Seq<char>, Cell)>, name: Seq<char>, k: int)
    requires
        0 <= k < f.len(),
        forall|j: int| 0 <= j < k ==> (#[trigger] f[j]).0 != name,
        f[k].0 == name,
    ensures
        cell_named(f, name) == Some(f[k].1),
    decreases f.len(),
{
    if k > 0 {
        assert(f[0].0 != name);
        assert forall|j: int| 0 <= j < k - 1 implies (#[trigger] f.skip(1)[j]).0 != name by {
            assert(f[j + 1].0 != name);
        }
        lemma_cell_named(f.skip(1), name, k - 1);
    }
}

/// The headers of every row of a headers column.
fn read_headers(data: &arrow::array::ArrayData) -> (r: Result<Vec<Vec<Header>>, String>)
    ensures
        r is Ok <==> header_kind_fault(column_of(*data).kind) is None,
        r matches Err(e) ==> header_kind_fault(column_of(*data).kind) == Some(e@),
        r matches Ok(v) ==> v.len() == column_of(*data).cells.len() && forall|i: int|
            0 <= i < v.len() ==> headers_view((#[trigger] v@[i])@) == cell_headers(
                column_of(*data).cells[i],
            ),
{
    let (offsets, valid, items) = match open_list(data) {
        Some(l) => l,
        None => {
            return Err("headers not List".to_owned());
        },
    };
    let (fields, present) = match open_rows(&items) {
        Some(s) => s,
        None => {
            return Err("headers items not Struct".to_owned());
        },
    };
    let ghost kinds = column_of(items).kind->Struct_0;
    let k: usize = match find_field(&fields, "key") {
        Some(k) => k,
        None => {
            proof {
                lemma_kind_named(kinds, "key"@, kinds.len() as int);
            }
            return Err("header.key not Utf8".to_owned());
        },
    };
    proof {
        assert forall|j: int| 0 <= j < k implies (#[trigger] kinds[j]).0.name != "key"@ by {
            assert(fields@[j].0@ != "key"@);
        }
        lemma_kind_named(kinds, "key"@, k as int);
    }
    let keys = match open_cells(&fields[k].1) {
        Cells::Text(v) => v,
        _ => {
            return Err("header.key not Utf8".to_owned());
        },
    };
    let v: usize = match find_field(&fields, "value") {
        Some(v) => v,
        None => {
            proof {
                lemma_kind_named(kinds, "value"@, kinds.len() as int);
            }
            return Err("header.value not LargeBinary".to_owned());
        },
    };
    proof {
        assert forall|j: int| 0 <= j < v implies (#[trigger] kinds[j]).0.name != "value"@ by {
            assert(fields@[j].0@ != "value"@);
        }
        lemma_kind_named(kinds, "value"@, v as int);
    }
    let values = match open_cells(&fields[v].1) {
        Cells::Binary(b) => b,
        _ => {
            return Err("header.value not LargeBinary".to_owned());
        },
    };
    let ghost cells = column_of(*data).cells;
    let ghost rows = column_of(items).cells;
    let mut out: Vec<Vec<Header>> = Vec::new();
    let mut i: usize = 0;
    while i < valid.len()
        invariant
            i <= valid.len(),
            out.len() == i,
            offsets.len() == valid.len() + 1,
            forall|a: int, b: int| 0 <= a <= b <= valid.len() ==> offsets@[a] <= offsets@[b],
            offsets@[valid.len() as int] <= rows.len(),
            rows.len() == present.len(),
            keys.len() == present.len(),
            values.len() == present.len(),
            cells.len() == valid.len(),
            forall|j: int|
                0 <= j < cells.len() ==> #[trigger] cells[j] == crate::arrow_table::list_cell(
                    offsets@,
                    valid@,
                    column_of(items),
                    j,
                ),
            rows == column_of(items).cells,
            forall|j: int|
                0 <= j < rows.len() ==> #[trigger] rows[j] == crate::arrow_table::row_cell(
                    fields@,
                    present@,
                    j,
                ),
            k < fields.len(),
            v < fields.len(),
            fields@[k as int].0@ == "key"@,
            fields@[v as int].0@ == "value"@,
            forall|j: int| 0 <= j < k ==> (#[trigger] fields@[j]).0@ != "key"@,
            forall|j: int| 0 <= j < v ==> (#[trigger] fields@[j]).0@ != "value"@,
            column_of(fields@[k as int].1) == Cells::Text(keys).column(),
            column_of(fields@[v as int].1) == Cells::Binary(values).column(),
            forall|j: int|
                0 <= j < i ==> headers_view((#[trigger] out@[j])@) == cell_headers(cells[j]),
        decreases valid.len() - i,
    {
        let mut own: Vec<Header> = Vec::new();
        let start: usize = offsets[i];
        let end: usize = if valid[i] {
            offsets[i + 1]
        } else {
            start
        };
        let mut j: usize = start;
        assert(headers_view(own@) =~= seq![]);
        while j < end
            invariant
                start <= j <= end <= rows.len(),
                rows.len() == present.len(),
                keys.len() == present.len(),
                values.len() == present.len(),
                forall|j: int|
                    0 <= j < rows.len() ==> #[trigger] rows[j] == crate::arrow_table::row_cell(
                        fields@,
                        present@,
                        j,
                    ),
                k < fields.len(),
                v < fields.len(),
                fields@[k as int].0@ == "key"@,
                fields@[v as int].0@ == "value"@,
                forall|j: int| 0 <= j < k ==> (#[trigger] fields@[j]).0@ != "key"@,
                forall|j: int| 0 <= j < v ==> (#[trigger] fields@[j]).0@ != "value"@,
                column_of(fields@[k as int].1) == Cells::Text(keys).column(),
                column_of(fields@[v as int].1) == Cells::Binary(values).column(),
                headers_view(own@) == rows.subrange(start as int, j as int).map_values(
                    |x: Cell| cell_header(x),
                ),
            decreases end - j,
        {
            let ghost before = headers_view(own@);
            let h = if present[j] {
                Header {
                    key: match &keys[j] {
                        Some(s) => s.clone(),
                        None => String::new(),
                    },
                    value: copy_payload(&values[j]),
                }
            } else {
                Header { key: String::new(), value: None }
            };
            proof {
                assert(rows[j as int] == crate::arrow_table::row_cell(fields@, present@, j as int));
                assert(Seq::<char>::empty() =~= seq![]);
                if present@[j as int] {
                    let f = rows[j as int]->Row_0;
                    assert forall|l: int| 0 <= l < k implies (#[trigger] f[l]).0 != "key"@ by {
                        assert(fields@[l].0@ != "key"@);
                    }
                    assert forall|l: int| 0 <= l < v implies (#[trigger] f[l]).0 != "value"@ by {
                        assert(fields@[l].0@ != "value"@);
                    }
                    lemma_cell_named(f, "key"@, k as int);
                    lemma_cell_named(f, "value"@, v as int);
                    assert(Cells::Text(keys).column().cells[j as int] == text_cell(keys@[j as int]));
                    assert(Cells::Binary(values).column().cells[j as int] == binary_cell(
                        values@[j as int],
                    ));
                }
                assert(h@ == cell_header(rows[j as int]));
            }
            own.push(h);
            proof {
                assert(headers_view(own@) =~= before.push(h@));
                assert(rows.subrange(start as int, j + 1) =~= rows.subrange(
                    start as int,
                    j as int,
                ).push(rows[j as int]));
                assert(rows.subrange(start as int, j + 1).map_values(|x: Cell| cell_header(x))
                    =~= rows.subrange(start as int, j as int).map_values(
                    |x: Cell| cell_header(x),
                ).push(cell_header(rows[j as int])));
            }
            j += 1;
        }
        proof {
            assert(cells[i as int] == crate::arrow_table::list_cell(
                offsets@,
                valid@,
                column_of(items),
                i as int,
            ));
            if !valid@[i as int] {
                assert(headers_view(own@) =~= seq![]);
            }
        }
        out.push(own);
        i += 1;
    }
    Ok(out)
}

/// The columns of a table, opened.
struct Columns {
    topics: Vec<Option<String>>,
    partitions: Vec<Option<i32>>,
    offsets: Vec<Option<u64>>,
    timestamps: Vec<Option<i64>>,
    kinds: Vec<Option<String>>,
    keys: Cells,
    keys_base64: bool,
    values: Cells,
    values_base64: bool,
    headers: Vec<Vec<Header>>,
}

impl Columns {
    /// Whether these are the columns of the table, each of `n` rows.
    spec fn of(self, f: Seq<FieldView>, n: nat) -> bool {
        &&& column_named(f, "topic"@)->0.column.cells.len() == n
        &&& self.topics.len() == n && self.partitions.len() == n && self.offsets.len() == n
        &&& self.timestamps.len() == n && self.kinds.len() == n && self.headers.len() == n
        &&& self.keys.column().cells.len() == n && self.values.column().cells.len() == n
        &&& self.keys is Text || self.keys is Binary
        &&& self.values is Text || self.values is Binary
        &&& self.keys_base64 == holds_base64(column_named(f, "key"@)->0.metadata)
        &&& self.values_base64 == holds_base64(column_named(f, "value"@)->0.metadata)
        &&& forall|i: int| 0 <= i < n ==> text_cell(#[trigger] self.topics@[i]) == cell_at(f, "topic"@, i)
        &&& forall|i: int| 0 <= i < n ==> i32_cell(#[trigger] self.partitions@[i]) == cell_at(f, "partition"@, i)
        &&& forall|i: int| 0 <= i < n ==> u64_cell(#[trigger] self.offsets@[i]) == cell_at(f, "offset"@, i)
        &&& forall|i: int| 0 <= i < n ==> i64_cell(#[trigger] self.timestamps@[i]) == cell_at(f, "timestamp_ms"@, i)
        &&& forall|i: int| 0 <= i < n ==> text_cell(#[trigger] self.kinds@[i]) == cell_at(f, "timestamp_type"@, i)
        &&& forall|i: int| 0 <= i < n ==> #[trigger] self.keys.column().cells[i] == cell_at(f, "key"@, i)
        &&& forall|i: int| 0 <= i < n ==> #[trigger] self.values.column().cells[i] == cell_at(f, "value"@, i)
        &&& forall|i: int|
            0 <= i < n ==> headers_view((#[trigger] self.headers@[i])@) == cell_headers(
                cell_at(f, "headers"@, i),
            )
    }
}

/// The place of a column that is there.
fn place(cols: &Vec<TableColumn>, name: &str) -> (i: usize)
    requires
        column_named(opened(cols@), name@) is Some,
    ensures
        i < cols.len(),
        column_named(opened(cols@), name@) == Some(cols@[i as int].field()),
{
    match find_column(cols, name) {
        Some(i) => i,
        None => {
            assert(false);
            0
        },
    }
}

proof fn lemma_present_columns(f: Seq<FieldView>)
    requires
        missing(f, column_names()) is None,
    ensures
        column_named(f, "topic"@) is Some,
        column_named(f, "partition"@) is Some,
        column_named(f, "offset"@) is Some,
        column_named(f, "timestamp_ms"@) is Some,
        column_named(f, "timestamp_type"@) is Some,
        column_named(f, "key"@) is Some,
        column_named(f, "value"@) is Some,
        column_named(f, "headers"@) is Some,
{
    let n = column_names();
    assert(missing(f, n.skip(1)) is None);
    assert(n.skip(1).skip(1) =~= n.skip(2));
    assert(missing(f, n.skip(2)) is None);
    assert(n.skip(2).skip(1) =~= n.skip(3));
    assert(missing(f, n.skip(3)) is None);
    assert(n.skip(3).skip(1) =~= n.skip(4));
    assert(missing(f, n.skip(4)) is None);
    assert(n.skip(4).skip(1) =~= n.skip(5));
    assert(missing(f, n.skip(5)) is None);
    assert(n.skip(5).skip(1) =~= n.skip(6));
    assert(missing(f, n.skip(6)) is None);
    assert(n.skip(6).skip(1) =~= n.skip(7));
    assert(missing(f, n.skip(7)) is None);
}

/// Open the columns that make up records.
fn open_columns(cols: &Vec<TableColumn>) -> (r: Result<Columns, String>)
    requires
        forall|i: int, j: int|
            0 <= i < cols.len() && 0 <= j < cols.len() ==> column_of(
                (#[trigger] cols@[i]).data,
            ).cells.len() == column_of((#[trigger] cols@[j]).data).cells.len(),
        forall|i: int|
            0 <= i < cols.len() ==> unique_keys(
                (#[trigger] cols@[i]).metadata@.map_values(|e: (String, String)| (e.0@, e.1@)),
            ),
    ensures
        r is Ok <==> table_fault(opened(cols@)) is None,
        r matches Err(e) ==> table_fault(opened(cols@)) == Some(e@),
        r matches Ok(c) ==> c.of(
            opened(cols@),
            column_named(opened(cols@), "topic"@)->0.column.cells.len(),
        ),
{
    let names = vec![
        "topic",
        "partition",
        "offset",
        "timestamp_ms",
        "timestamp_type",
        "key",
        "value",
        "headers",
    ];
    assert(names@.map_values(|s: &str| s@) =~= column_names());
    if let Some(name) = find_missing(cols, &names) {
        return Err("missing column ".to_owned().concat(name));
    }
    let ghost f = opened(cols@);
    proof {
        lemma_present_columns(f);
    }
    let t = place(cols, "topic");
    let p = place(cols, "partition");
    let o = place(cols, "offset");
    let ms = place(cols, "timestamp_ms");
    let tt = place(cols, "timestamp_type");
    let k = place(cols, "key");
    let v = place(cols, "value");
    let h = place(cols, "headers");
    let keys = open_cells(&cols[k].data);
    if !matches!(keys, Cells::Text(_)) && !matches!(keys, Cells::Binary(_)) {
        let got = describe_type(&cols[k].data);
        return Err(
            "key column must be Utf8 or LargeBinary, got ".to_owned().concat(got.as_str()),
        );
    }
    let values = open_cells(&cols[v].data);
    if !matches!(values, Cells::Text(_)) && !matches!(values, Cells::Binary(_)) {
        let got = describe_type(&cols[v].data);
        return Err(
            "value column must be Utf8 or LargeBinary, got ".to_owned().concat(got.as_str()),
        );
    }
    let topics = match open_cells(&cols[t].data) {
        Cells::Text(x) => x,
        _ => {
            return Err("topic not Utf8".to_owned());
        },
    };
    let partitions = match open_cells(&cols[p].data) {
        Cells::Int32(x) => x,
        _ => {
            return Err("partition not Int32".to_owned());
        },
    };
    let offsets = match open_cells(&cols[o].data) {
        Cells::UInt64(x) => x,
        _ => {
            return Err("offset not UInt64".to_owned());
        },
    };
    let timestamps = match open_cells(&cols[ms].data) {
        Cells::Int64(x) => x,
        _ => {
            return Err("timestamp_ms not Int64".to_owned());
        },
    };
    let kinds = match open_cells(&cols[tt].data) {
        Cells::Text(x) => x,
        _ => {
            return Err("timestamp_type not Utf8".to_owned());
        },
    };
    let headers = match read_headers(&cols[h].data) {
        Ok(x) => x,
        Err(e) => {
            return Err(e);
        },
    };
    let c = Columns {
        topics,
        partitions,
        offsets,
        timestamps,
        kinds,
        keys,
        keys_base64: marks_base64(&cols[k].metadata),
        values,
        values_base64: marks_base64(&cols[v].metadata),
        headers,
    };
    proof {
        let n = column_of(cols@[t as int].data).cells.len();
        assert forall|i: int| 0 <= i < n implies text_cell(#[trigger] c.topics@[i]) == cell_at(
            f,
            "topic"@,
            i,
        ) by {
            assert(Cells::Text(topics).column().cells[i] == text_cell(topics@[i]));
        }
        assert forall|i: int| 0 <= i < n implies i32_cell(#[trigger] c.partitions@[i]) == cell_at(
            f,
            "partition"@,
            i,
        ) by {
            assert(Cells::Int32(partitions).column().cells[i] == i32_cell(partitions@[i]));
        }
        assert forall|i: int| 0 <= i < n implies u64_cell(#[trigger] c.offsets@[i]) == cell_at(
            f,
            "offset"@,
            i,
        ) by {
            assert(Cells::UInt64(offsets).column().cells[i] == u64_cell(offsets@[i]));
        }
        assert forall|i: int| 0 <= i < n implies i64_cell(#[trigger] c.timestamps@[i]) == cell_at(
            f,
            "timestamp_ms"@,
            i,
        ) by {
            assert(Cells::Int64(timestamps).column().cells[i] == i64_cell(timestamps@[i]));
        }
        assert forall|i: int| 0 <= i < n implies text_cell(#[trigger] c.kinds@[i]) == cell_at(
            f,
            "timestamp_type"@,
            i,
        ) by {
            assert(Cells::Text(kinds).column().cells[i] == text_cell(kinds@[i]));
        }
        assert(Cells::Text(topics).column().cells.len() == topics.len());
        assert(Cells::Int32(partitions).column().cells.len() == partitions.len());
        assert(Cells::UInt64(offsets).column().cells.len() == offsets.len());
        assert(Cells::Int64(timestamps).column().cells.len() == timestamps.len());
        assert(Cells::Text(kinds).column().cells.len() == kinds.len());
        assert(column_of(cols@[p as int].data).cells.len() == n);
        assert(column_of(cols@[o as int].data).cells.len() == n);
        assert(column_of(cols@[ms as int].data).cells.len() == n);
        assert(column_of(cols@[tt as int].data).cells.len() == n);
        assert(column_of(cols@[k as int].data).cells.len() == n);
        assert(column_of(cols@[v as int].data).cells.len() == n);
        assert(column_of(cols@[h as int].data).cells.len() == n);
    }
    Ok(c)
}

fn text_or_empty(c: &Option<String>) -> (s: String)
    ensures
        s@ == cell_text(text_cell(*c)),
{
    match c {
        Some(s) => s.clone(),
        None => {
            let s = String::new();
            assert(s@ =~= seq![]);
            s
        },
    }
}

/// Read one table.
fn read_table(b: &Table) -> (r: Result<Vec<Record>, String>)
    ensures
        match (r, table_records(fields_in(*b))) {
            (Ok(v), Ok(x)) => records_view(v@) == x,
            (Err(e), Err(f)) => e@ == f,
            _ => false,
        },
{
    let cols = open_table(b);
    let ghost f = fields_in(*b);
    assert(opened(cols@) == f);
    let c = match open_columns(&cols) {
        Ok(c) => c,
        Err(e) => {
            return Err(e);
        },
    };
    let Columns {
        topics,
        partitions,
        offsets,
        timestamps,
        kinds,
        keys,
        keys_base64,
        values,
        values_base64,
        headers,
    } = c;
    let ghost n = topics.len();
    let mut out: Vec<Record> = Vec::new();
    assert(records_view(out@) =~= seq![]);
    for own in it: headers
        invariant
            it.seq() == headers@,
            n == topics.len(),
            n == column_named(f, "topic"@)->0.column.cells.len(),
            table_fault(f) is None,
            f == fields_in(*b),
            c.of(f, n as nat),
            c == (Columns {
                topics,
                partitions,
                offsets,
                timestamps,
                kinds,
                keys,
                keys_base64,
                values,
                values_base64,
                headers,
            }),
            row_records(f, it.index() as nat) == Ok::<Seq<RecordView>, Seq<char>>(
                records_view(out@),
            ),
            out.len() == it.index(),
    {
        let i: usize = out.len();
        let ghost before = records_view(out@);
        proof {
            assert(own == headers@[i as int]);
            assert(text_cell(topics@[i as int]) == cell_at(f, "topic"@, i as int));
            assert(i32_cell(partitions@[i as int]) == cell_at(f, "partition"@, i as int));
            assert(u64_cell(offsets@[i as int]) == cell_at(f, "offset"@, i as int));
            assert(i64_cell(timestamps@[i as int]) == cell_at(f, "timestamp_ms"@, i as int));
            assert(text_cell(kinds@[i as int]) == cell_at(f, "timestamp_type"@, i as int));
            assert(keys.column().cells[i as int] == cell_at(f, "key"@, i as int));
            assert(values.column().cells[i as int] == cell_at(f, "value"@, i as int));
            assert(headers_view(c.headers@[i as int]@) == cell_headers(
                cell_at(f, "headers"@, i as int),
            ));
        }
        let key = match payload_at("key", keys_base64, &keys, i) {
            Ok(p) => p,
            Err(e) => {
                proof {
                    lemma_row_fault(f, i as nat + 1, n as nat);
                }
                return Err(e);
            },
        };
        let value = match payload_at("value", values_base64, &values, i) {
            Ok(p) => p,
            Err(e) => {
                proof {
                    lemma_row_fault(f, i as nat + 1, n as nat);
                }
                return Err(e);
            },
        };
        let rec = Record {
            topic: text_or_empty(&topics[i]),
            partition: match partitions[i] {
                Some(p) => p,
                None => 0,
            },
            source_offset: match offsets[i] {
                Some(o) => o,
                None => 0,
            },
            timestamp_ms: timestamps[i],
            timestamp_type: timestamp_type_named(text_or_empty(&kinds[i]).as_str()),
            key,
            value,
            headers: own,
        };
        assert(row_record(f, i as int) == Ok::<RecordView, Seq<char>>(rec@));
        out.push(rec);
        assert(records_view(out@) =~= before.push(rec@));
    }
    Ok(out)
}

/// A row that cannot be read makes the table one that cannot.
proof fn lemma_row_fault(f: Seq<FieldView>, i: nat, n: nat)
    requires
        i <= n,
        row_records(f, i) is Err,
    ensures
        row_records(f, n) == row_records(f, i),
    decreases n - i,
{
    if i < n {
        lemma_row_fault(f, i + 1, n);
    }
}

proof fn lemma_table_fault_stays(t: Seq<Seq<FieldView>>, i: int)
    requires
        0 <= i <= t.len(),
        tables_records(t.take(i)) is Err,
    ensures
        tables_records(t) == tables_records(t.take(i)),
    decreases t.len() - i,
{
    if i < t.len() {
        assert(t.take(i + 1).drop_last() =~= t.take(i));
        lemma_table_fault_stays(t, i + 1);
    } else {
        assert(t.take(i) =~= t);
    }
}

/// Read records from a Parquet file.
pub fn decode_batch(bytes: &[u8]) -> (r: Result<Vec<Record>, EnvelopeError>)
    requires
        readable(bytes@),
    ensures
        match (r, file_records(bytes@)) {
            (Ok(v), Ok(x)) => records_view(v@) == x,
            (Err(EnvelopeError::Decode(e)), Err(f)) => e@ == f,
            _ => false,
        },
{
    let (tables, fault) = match read_parquet(bytes) {
        Ok(t) => t,
        Err((ReadStage::Init, e)) => {
            return Err(EnvelopeError::Decode("reader init: ".to_owned().concat(e.as_str())));
        },
        Err((ReadStage::Build, e)) => {
            return Err(EnvelopeError::Decode("reader build: ".to_owned().concat(e.as_str())));
        },
    };
    let ghost all = all_fields(tables@);
    let mut out: Vec<Record> = Vec::new();
    let mut i: usize = 0;
    assert(all.take(0) =~= seq![]);
    assert(records_view(out@) =~= seq![]);
    while i < tables.len()
        invariant
            i <= tables.len(),
            all == all_fields(tables@),
            parquet_tables(bytes@)->0 is Ok,
            parquet_tables(bytes@)->0->Ok_0.0 == all,
            tables_records(all.take(i as int)) == Ok::<Seq<RecordView>, Seq<char>>(
                records_view(out@),
            ),
        decreases tables.len() - i,
    {
        let ghost before = records_view(out@);
        proof {
            assert(all.take(i + 1).drop_last() =~= all.take(i as int));
            assert(all.take(i + 1).last() == fields_in(tables@[i as int]));
        }
        match read_table(&tables[i]) {
            Ok(rs) => {
                let mut rs = rs;
                let ghost added = records_view(rs@);
                out.append(&mut rs);
                assert(records_view(out@) =~= before + added);
            },
            Err(e) => {
                proof {
                    lemma_table_fault_stays(all, i + 1);
                }
                return Err(EnvelopeError::Decode(e));
            },
        }
        i += 1;
    }
    assert(all.take(i as int) =~= all);
    match fault {
        Some(e) => Err(EnvelopeError::Decode("read batch: ".to_owned().concat(e.as_str()))),
        None => Ok(out),
    }
}

// ---- sizes, executed -----------------------------------------------------------

fn part_len(r: &Record, p: Part) -> (n: Option<u64>)
    ensures
        n matches Some(x) ==> x == part_size(r@, p),
        n is None ==> part_size(r@, p) > i32::MAX,
{
    match p {
        Part::Topic => Some(r.topic.as_str().as_bytes().len() as u64),
        Part::TimestampType => Some(r.timestamp_type.as_str().as_bytes().len() as u64),
        Part::Key => match &r.key {
            Some(b) => Some(b.len() as u64),
            None => Some(0),
        },
        Part::Value => match &r.value {
            Some(b) => Some(b.len() as u64),
            None => Some(0),
        },
        Part::Headers => Some(r.headers.len() as u64),
        Part::HeaderKeys => {
            let ghost h = headers_view(r.headers@);
            let mut sum: u64 = 0;
            let mut i: usize = 0;
            assert(h.take(0) =~= seq![]);
            while i < r.headers.len()
                invariant
                    i <= r.headers.len(),
                    h == headers_view(r.headers@),
                    p is HeaderKeys,
                    sum == header_keys_size(h.take(i as int)),
                    sum <= i32::MAX,
                decreases r.headers.len() - i,
            {
                proof {
                    assert(h.take(i + 1).drop_last() =~= h.take(i as int));
                    assert(h.take(i + 1).last() == r.headers@[i as int]@);
                    lemma_header_keys_grow(h, i + 1);
                }
                let n: u64 = r.headers[i].key.as_str().as_bytes().len() as u64;
                if n > i32::MAX as u64 || sum + n > i32::MAX as u64 {
                    return None;
                }
                sum = sum + n;
                i += 1;
            }
            assert(h.take(i as int) =~= h);
            Some(sum)
        },
    }
}

proof fn lemma_header_keys_grow(h: Seq<HeaderView>, i: int)
    requires
        0 <= i <= h.len(),
    ensures
        header_keys_size(h.take(i)) <= header_keys_size(h),
    decreases h.len() - i,
{
    if i < h.len() {
        assert(h.take(i + 1).drop_last() =~= h.take(i));
        lemma_header_keys_grow(h, i + 1);
    } else {
        assert(h.take(i) =~= h);
    }
}

proof fn lemma_batch_grows(rs: Seq<RecordView>, p: Part, i: int)
    requires
        0 <= i <= rs.len(),
    ensures
        batch_size(rs.take(i), p) <= batch_size(rs, p),
    decreases rs.len() - i,
{
    if i < rs.len() {
        assert(rs.take(i + 1).drop_last() =~= rs.take(i));
        lemma_batch_grows(rs, p, i + 1);
    } else {
        assert(rs.take(i) =~= rs);
    }
}

fn part_fits(records: &Vec<Record>, p: Part) -> (r: bool)
    ensures
        r == (batch_size(records_view(records@), p) <= i32::MAX),
{
    let ghost rs = records_view(records@);
    let mut sum: u64 = 0;
    let mut i: usize = 0;
    assert(rs.take(0) =~= seq![]);
    while i < records.len()
        invariant
            i <= records.len(),
            rs == records_view(records@),
            sum == batch_size(rs.take(i as int), p),
            sum <= i32::MAX,
        decreases records.len() - i,
    {
        proof {
            assert(rs.take(i + 1).drop_last() =~= rs.take(i as int));
            assert(rs.take(i + 1).last() == records@[i as int]@);
            lemma_batch_grows(rs, p, i + 1);
        }
        match part_len(&records[i], p) {
            None => {
                return false;
            },
            Some(n) => {
                if n > i32::MAX as u64 || sum + n > i32::MAX as u64 {
                    return false;
                }
                sum = sum + n;
            },
        }
        i += 1;
    }
    assert(rs.take(i as int) =~= rs);
    true
}

/// Whether no column of the batch outgrows what 32 bits can count.
pub fn batch_fits(records: &Vec<Record>, keys: ColumnType, values: ColumnType) -> (r: bool)
    ensures
        r == fits(records_view(records@), keys, values),
{
    part_fits(records, Part::Topic) && part_fits(records, Part::TimestampType) && (matches!(
        keys,
        ColumnType::Bytes
    ) || part_fits(records, Part::Key)) && (matches!(values, ColumnType::Bytes) || part_fits(
        records,
        Part::Value,
    )) && part_fits(records, Part::Headers) && part_fits(records, Part::HeaderKeys)
}

} // verus!
