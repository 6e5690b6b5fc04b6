//! What stored batches look like and how they are read, member by member
//! and column by column.
use vstd::prelude::*;
use vstd::utf8::{decode_utf8, encode_utf8};

use crate::arrow_table::{
    bare_tag, json_metadata, no_metadata, parquet_file, parquet_tables, Cell, Codec, FieldTag,
    FieldView, Kind,
};
use crate::assoc::as_map;
use crate::base64::{base64_bytes, base64_text};
use crate::column::{column_fault, ColumnType};
use crate::envelope::{
    readable, stored_bytes, stored_records, writable, Format, ParquetCompression,
};
use crate::json::{json_bytes, json_parse, Json};
use crate::ndjson::{
    header_json, header_of, headers_of, lemma_header_members, lemma_line_end, lemma_names,
    lemma_record_members, line_end, lines_of, record_json, record_members, record_of, records_of,
    type_named,
};
use crate::parquet::{
    batch_size, cell_headers, cell_named, codec_of, column_named, file_records, fits, kind_named,
    payload_fault, row_record, settings_of, table_fault, table_of, table_records, tables_records,
    Part,
};
use crate::record::{HeaderView, RecordView, TimestampType};

verus! {

// ---- objects ---------------------------------------------------------------------

/// A record's object has its topic, partition, offset and timestamp type;
/// its timestamp, key and value where it has them, the last two in base64;
/// and its headers where it has any, in order. It has no other member.
pub proof fn law_members_of_a_record(r: RecordView)
    ensures
        ({
            let m = as_map(record_members(r));
            &&& record_json(r) == Json::Object(record_members(r))
            &&& m.dom().contains("topic"@) && m["topic"@] == Json::Text(r.topic)
            &&& m.dom().contains("partition"@) && m["partition"@] == Json::Int(r.partition as int)
            &&& m.dom().contains("offset"@) && m["offset"@] == Json::Int(r.source_offset as int)
            &&& m.dom().contains("timestamp_type"@)
            &&& r.timestamp_type is CreateTime ==> m["timestamp_type"@] == Json::Text(
                "create_time"@,
            )
            &&& r.timestamp_type is LogAppendTime ==> m["timestamp_type"@] == Json::Text(
                "log_append_time"@,
            )
            &&& r.timestamp_type is NotAvailable ==> m["timestamp_type"@] == Json::Text(
                "not_available"@,
            )
            &&& m.dom().contains("timestamp_ms"@) <==> r.timestamp_ms is Some
            &&& r.timestamp_ms matches Some(ms) ==> m["timestamp_ms"@] == Json::Int(ms as int)
            &&& m.dom().contains("key"@) <==> r.key is Some
            &&& r.key matches Some(b) ==> m["key"@] == Json::Text(base64_text(b))
            &&& m.dom().contains("value"@) <==> r.value is Some
            &&& r.value matches Some(b) ==> m["value"@] == Json::Text(base64_text(b))
            &&& m.dom().contains("headers"@) <==> r.headers.len() > 0
            &&& r.headers.len() > 0 ==> (m["headers"@] matches Json::List(l) && l.len()
                == r.headers.len() && forall|i: int|
                0 <= i < l.len() ==> #[trigger] l[i] == header_json(r.headers[i]))
            &&& forall|n: Seq<char>| #[trigger]
                m.dom().contains(n) ==> n == "topic"@ || n == "partition"@ || n == "offset"@ || n
                    == "timestamp_ms"@ || n == "timestamp_type"@ || n == "key"@ || n == "value"@
                    || n == "headers"@
        }),
{
    lemma_names();
    lemma_record_members(r);
}

/// The members of a record come in one order.
pub proof fn law_order_of_members(r: RecordView)
    ensures
        ({
            let m = record_members(r);
            &&& m.len() >= 4
            &&& m[0].0 == "topic"@ && m[1].0 == "partition"@ && m[2].0 == "offset"@
            &&& r.timestamp_ms is Some ==> m[3].0 == "timestamp_ms"@ && m[4].0 == "timestamp_type"@
            &&& r.timestamp_ms is None ==> m[3].0 == "timestamp_type"@
            &&& r.headers.len() > 0 ==> m.last().0 == "headers"@
            &&& r.headers.len() == 0 && r.value is Some ==> m.last().0 == "value"@
            &&& r.headers.len() == 0 && r.value is None && r.key is Some ==> m.last().0 == "key"@
        }),
{
}

/// A header's object has its name and, where it has one, its value in
/// base64.
pub proof fn law_members_of_a_header(h: HeaderView)
    ensures
        header_json(h) is Object,
        ({
            let m = as_map(header_json(h)->Object_0);
            &&& m.dom().contains("key"@) && m["key"@] == Json::Text(h.key)
            &&& m.dom().contains("value"@) <==> h.value is Some
            &&& h.value matches Some(b) ==> m["value"@] == Json::Text(base64_text(b))
            &&& forall|n: Seq<char>| #[trigger]
                m.dom().contains(n) ==> n == "key"@ || n == "value"@
        }),
{
    lemma_names();
    lemma_header_members(h);
}

/// A batch is one line per record, in order, each ended by a line break.
pub proof fn law_lines_of_a_batch(a: Seq<RecordView>, b: Seq<RecordView>, r: RecordView)
    ensures
        lines_of(seq![]) == Seq::<u8>::empty(),
        lines_of(seq![r]) == json_bytes(record_json(r)).push(10u8),
        lines_of(a + b) == lines_of(a) + lines_of(b),
    decreases b.len(),
{
    assert(seq![r].drop_last() =~= Seq::<RecordView>::empty());
    assert(lines_of(seq![r].drop_last()) =~= Seq::<u8>::empty());
    assert(lines_of(seq![r]) =~= json_bytes(record_json(r)).push(10u8));
    if b.len() == 0 {
        assert(a + b =~= a);
        assert(lines_of(a) + lines_of(b) =~= lines_of(a));
    } else {
        law_lines_of_a_batch(a, b.drop_last(), r);
        assert((a + b).drop_last() =~= a + b.drop_last());
        assert((a + b).last() == b.last());
        assert(lines_of(a + b) =~= lines_of(a) + lines_of(b));
    }
}

/// Whether a field is missing or null.
pub open spec fn is_unset(m: Map<Seq<char>, Json>, name: Seq<char>) -> bool {
    !m.dom().contains(name) || m[name] is Null
}

/// Whether a field is a text.
pub open spec fn is_text(m: Map<Seq<char>, Json>, name: Seq<char>) -> bool {
    m.dom().contains(name) && m[name] is Text
}

/// Whether a field is unset or the base64 of some bytes.
pub open spec fn is_payload(m: Map<Seq<char>, Json>, name: Seq<char>) -> bool {
    is_unset(m, name) || (is_text(m, name) && base64_bytes(m[name]->Text_0) is Ok)
}

/// The bytes that a field holds in base64.
pub open spec fn payload_in(m: Map<Seq<char>, Json>, name: Seq<char>) -> Option<Seq<u8>> {
    if is_unset(m, name) {
        None
    } else {
        Some(base64_bytes(m[name]->Text_0)->Ok_0)
    }
}

/// An object is a record exactly where its topic and timestamp type are
/// texts, its partition and offset are numbers in range, its timestamp, key
/// and value are unset or what they must be, and its headers are missing or
/// a list of headers. The record is then made of these fields; members
/// under other names do not matter.
pub proof fn law_reading_an_object(members: Seq<(Seq<char>, Json)>)
    ensures
        ({
            let m = as_map(members);
            let r = record_of(Json::Object(members));
            &&& r is Ok <==> {
                &&& is_text(m, "topic"@)
                &&& m.dom().contains("partition"@) && (m["partition"@] matches Json::Int(n)
                    && i32::MIN <= n <= i32::MAX)
                &&& m.dom().contains("offset"@) && (m["offset"@] matches Json::Int(n) && 0 <= n
                    <= u64::MAX)
                &&& is_unset(m, "timestamp_ms"@) || (m["timestamp_ms"@] matches Json::Int(n)
                    && i64::MIN <= n <= i64::MAX)
                &&& is_text(m, "timestamp_type"@)
                &&& is_payload(m, "key"@)
                &&& is_payload(m, "value"@)
                &&& !m.dom().contains("headers"@) || (m["headers"@] matches Json::List(l)
                    && headers_of(l) is Ok)
            }
            &&& r matches Ok(x) ==> {
                &&& x.topic == m["topic"@]->Text_0
                &&& x.partition == m["partition"@]->Int_0
                &&& x.source_offset == m["offset"@]->Int_0
                &&& is_unset(m, "timestamp_ms"@) ==> x.timestamp_ms is None
                &&& !is_unset(m, "timestamp_ms"@) ==> (x.timestamp_ms matches Some(ms) && ms
                    == m["timestamp_ms"@]->Int_0)
                &&& x.timestamp_type == type_named(m["timestamp_type"@]->Text_0)
                &&& x.key == payload_in(m, "key"@)
                &&& x.value == payload_in(m, "value"@)
                &&& m.dom().contains("headers"@) ==> headers_of(m["headers"@]->List_0) == Ok::<
                    Seq<HeaderView>,
                    Seq<char>,
                >(x.headers)
                &&& !m.dom().contains("headers"@) ==> x.headers.len() == 0
            }
        }),
{
}

/// An object is a header exactly where its name is a text and its value is
/// unset or base64. Headers are read one by one, and one that is none is an
/// error.
pub proof fn law_reading_headers(members: Seq<(Seq<char>, Json)>, a: Seq<Json>, j: Json)
    ensures
        ({
            let m = as_map(members);
            let h = header_of(Json::Object(members));
            &&& h is Ok <==> is_text(m, "key"@) && is_payload(m, "value"@)
            &&& h matches Ok(x) ==> x.key == m["key"@]->Text_0 && x.value == payload_in(
                m,
                "value"@,
            )
        }),
        headers_of(seq![]) == Ok::<Seq<HeaderView>, Seq<char>>(seq![]),
        headers_of(a) is Err ==> headers_of(a.push(j)) == headers_of(a),
        headers_of(a) is Ok && header_of(j) is Err ==> headers_of(a.push(j)) is Err,
        headers_of(a) is Ok && header_of(j) is Ok ==> headers_of(a.push(j)) == Ok::<
            Seq<HeaderView>,
            Seq<char>,
        >(headers_of(a)->Ok_0.push(header_of(j)->Ok_0)),
{
    assert(a.push(j).drop_last() =~= a);
}

/// The names of the timestamp types. Any other name stands for none.
pub proof fn law_names_of_timestamp_types(s: Seq<char>)
    ensures
        type_named("create_time"@) == TimestampType::CreateTime,
        type_named("log_append_time"@) == TimestampType::LogAppendTime,
        s != "create_time"@ && s != "log_append_time"@ ==> type_named(s)
            == TimestampType::NotAvailable,
        TimestampType::CreateTime.wire_name() == "create_time"@,
        TimestampType::LogAppendTime.wire_name() == "log_append_time"@,
        TimestampType::NotAvailable.wire_name() == "not_available"@,
{
    reveal_strlit("create_time");
    reveal_strlit("log_append_time");
    assert("create_time"@.len() == 11);
    assert("log_append_time"@.len() == 15);
}

/// Lines are read one by one. An empty line is passed over, one that is no
/// document or no record is an error, and the last one may lack its line
/// break.
pub proof fn law_reading_lines(line: Seq<u8>, rest: Seq<u8>)
    requires
        !line.contains(10u8),
    ensures
        records_of(seq![]) == Ok::<Seq<RecordView>, Seq<char>>(seq![]),
        line.len() == 0 ==> records_of(line + seq![10u8] + rest) == records_of(rest),
        line.len() > 0 ==> {
            let one = match json_parse(line) {
                Ok(j) => record_of(j),
                Err(e) => Err(e),
            };
            &&& one matches Err(e) ==> records_of(line + seq![10u8] + rest) == Err::<
                Seq<RecordView>,
                Seq<char>,
            >(e) && records_of(line) == Err::<Seq<RecordView>, Seq<char>>(e)
            &&& one matches Ok(r) ==> records_of(line) == Ok::<Seq<RecordView>, Seq<char>>(seq![r])
            &&& one is Ok && records_of(rest) is Err ==> records_of(line + seq![10u8] + rest)
                == records_of(rest)
            &&& one is Ok && records_of(rest) is Ok ==> records_of(line + seq![10u8] + rest) == Ok::<
                Seq<RecordView>,
                Seq<char>,
            >(seq![one->Ok_0] + records_of(rest)->Ok_0)
        },
{
    let b = line + seq![10u8] + rest;
    lemma_line_end(line, rest);
    assert(b.take(line.len() as int) =~= line);
    assert(b.skip(line.len() as int + 1) =~= rest);
    lemma_no_break(line);
    assert(line.take(line.len() as int) =~= line);
    let none = Seq::<u8>::empty();
    assert(records_of(none) == Ok::<Seq<RecordView>, Seq<char>>(seq![]));
    if line.len() > 0 {
        if let Ok(j) = json_parse(line) {
            if let Ok(r) = record_of(j) {
                assert(seq![r] + Seq::<RecordView>::empty() =~= seq![r]);
            }
        }
    } else {
        assert(b.skip(1) =~= rest);
    }
}

proof fn lemma_no_break(line: Seq<u8>)
    requires
        !line.contains(10u8),
    ensures
        line_end(line) == line.len(),
    decreases line.len(),
{
    if line.len() > 0 {
        assert(line.contains(line[0]));
        assert forall|x: u8| line.skip(1).contains(x) implies line.contains(x) by {
            let i = line.skip(1).index_of(x);
            assert(line[i + 1] == x);
        }
        lemma_no_break(line.skip(1));
    }
}

// ---- tables ----------------------------------------------------------------------

/// A payload in a cell: bytes as they are in a column of bytes, and as text
/// in any other. A missing payload is null.
pub open spec fn is_payload_cell(c: Cell, t: ColumnType, p: Option<Seq<u8>>) -> bool {
    match p {
        None => c is Null,
        Some(b) => if t is Bytes {
            c == Cell::Binary(b)
        } else {
            c == Cell::Text(decode_utf8(b))
        },
    }
}

/// The columns of a table of records, in order, with their types, and what
/// is in them. A column of JSON says so in its metadata.
pub proof fn law_columns_of_a_table(
    rs: Seq<RecordView>,
    keys: ColumnType,
    values: ColumnType,
    i: int,
)
    requires
        0 <= i < rs.len(),
    ensures
        ({
            let t = table_of(rs, keys, values);
            let r = rs[i];
            &&& t.len() == 8
            &&& forall|k: int|
                0 <= k < 8 ==> (#[trigger] t[k]).column.cells.len() == rs.len()
            &&& t[0].name == "topic"@ && !t[0].nullable && t[0].column.kind is Utf8
                && t[0].column.cells[i] == Cell::Text(r.topic)
            &&& t[1].name == "partition"@ && !t[1].nullable && t[1].column.kind is Int32
                && t[1].column.cells[i] == Cell::Int(r.partition as int)
            &&& t[2].name == "offset"@ && !t[2].nullable && t[2].column.kind is UInt64
                && t[2].column.cells[i] == Cell::Int(r.source_offset as int)
            &&& t[3].name == "timestamp_ms"@ && t[3].nullable && t[3].column.kind is Int64
            &&& r.timestamp_ms matches Some(ms) ==> t[3].column.cells[i] == Cell::Int(ms as int)
            &&& r.timestamp_ms is None ==> t[3].column.cells[i] is Null
            &&& t[4].name == "timestamp_type"@ && !t[4].nullable && t[4].column.kind is Utf8
                && t[4].column.cells[i] == Cell::Text(r.timestamp_type.wire_name())
            &&& t[5].name == "key"@ && t[5].nullable && is_payload_cell(
                t[5].column.cells[i],
                keys,
                r.key,
            )
            &&& t[6].name == "value"@ && t[6].nullable && is_payload_cell(
                t[6].column.cells[i],
                values,
                r.value,
            )
            &&& keys is Bytes <==> t[5].column.kind is LargeBinary
            &&& !(keys is Bytes) <==> t[5].column.kind is Utf8
            &&& values is Bytes <==> t[6].column.kind is LargeBinary
            &&& !(values is Bytes) <==> t[6].column.kind is Utf8
            &&& keys is Json || keys is JsonParseable ==> t[5].metadata == json_metadata()
            &&& keys is Bytes || keys is Utf8 ==> t[5].metadata == no_metadata()
            &&& values is Json || values is JsonParseable ==> t[6].metadata == json_metadata()
            &&& values is Bytes || values is Utf8 ==> t[6].metadata == no_metadata()
            &&& t[7].name == "headers"@ && !t[7].nullable
            &&& t[7].column.cells[i] matches Cell::List(l) && l.len() == r.headers.len()
                && forall|k: int|
                0 <= k < l.len() ==> (#[trigger] l[k] matches Cell::Row(f) && f.len() == 2 && f[0]
                    == ("key"@, Cell::Text(r.headers[k].key)) && f[1].0 == "value"@
                    && is_payload_cell(f[1].1, ColumnType::Bytes, r.headers[k].value))
        }),
{
    let t = table_of(rs, keys, values);
    let l = t[7].column.cells[i]->List_0;
    assert forall|k: int| 0 <= k < l.len() implies (#[trigger] l[k] matches Cell::Row(f) && f.len()
        == 2 && f[0] == ("key"@, Cell::Text(rs[i].headers[k].key)) && f[1].0 == "value"@
        && is_payload_cell(f[1].1, ColumnType::Bytes, rs[i].headers[k].value)) by {
        assert(l[k] == crate::parquet::header_cell(rs[i].headers[k]));
    }
}

/// The type of the headers: lists of items, each a row of a name and a
/// value of bytes, which may be missing.
pub proof fn law_type_of_the_headers(rs: Seq<RecordView>, keys: ColumnType, values: ColumnType)
    ensures
        table_of(rs, keys, values)[7].column.kind == Kind::List(
            bare_tag("item"@, true),
            Box::new(
                Kind::Struct(
                    seq![
                        (bare_tag("key"@, false), Kind::Utf8),
                        (bare_tag("value"@, true), Kind::LargeBinary),
                    ],
                ),
            ),
        ),
        bare_tag("item"@, true) == (FieldTag {
            name: "item"@,
            nullable: true,
            metadata: Map::empty(),
        }),
{
}

/// Files are written as their setting says, with dictionaries and with
/// statistics for each column.
pub proof fn law_how_files_are_compressed(c: ParquetCompression)
    ensures
        settings_of(c).dictionary,
        settings_of(c).chunk_statistics,
        settings_of(c).codec == codec_of(c),
        codec_of(ParquetCompression::Zstd1) == Codec::Zstd(1),
        codec_of(ParquetCompression::Zstd3) == Codec::Zstd(3),
        codec_of(ParquetCompression::Snappy) == Codec::Snappy,
        codec_of(ParquetCompression::Lz4) == Codec::Lz4,
        codec_of(ParquetCompression::Uncompressed) == Codec::Uncompressed,
{
}

/// A batch is at fault exactly where a key or a value is not what its
/// column takes. The first record at fault counts, and its key before its
/// value.
pub proof fn law_faults_of_a_batch(
    a: Seq<RecordView>,
    b: Seq<RecordView>,
    r: RecordView,
    keys: ColumnType,
    values: ColumnType,
)
    ensures
        payload_fault(seq![], keys, values) is None,
        ({
            let key = column_fault(keys, "key"@, r.source_offset, r.key);
            let value = column_fault(values, "value"@, r.source_offset, r.value);
            &&& key is Some ==> payload_fault(seq![r], keys, values) == key
            &&& key is None ==> payload_fault(seq![r], keys, values) == value
        }),
        payload_fault(a, keys, values) is Some ==> payload_fault(a + b, keys, values)
            == payload_fault(a, keys, values),
        payload_fault(a, keys, values) is None ==> payload_fault(a + b, keys, values)
            == payload_fault(b, keys, values),
    decreases b.len(),
{
    assert(seq![r].drop_last() =~= Seq::<RecordView>::empty());
    assert(payload_fault(seq![r].drop_last(), keys, values) is None);
    if b.len() == 0 {
        assert(a + b =~= a);
    } else {
        law_faults_of_a_batch(a, b.drop_last(), r, keys, values);
        assert((a + b).drop_last() =~= a + b.drop_last());
        assert((a + b).last() == b.last());
    }
}

/// The parts of a batch that are counted in 32 bits: the bytes of topics,
/// timestamp types, texts and header names, and the number of headers.
pub proof fn law_what_is_counted(
    a: Seq<RecordView>,
    b: Seq<RecordView>,
    r: RecordView,
    p: Part,
    keys: ColumnType,
    values: ColumnType,
)
    ensures
        batch_size(a + b, p) == batch_size(a, p) + batch_size(b, p),
        batch_size(seq![], p) == 0,
        batch_size(seq![r], Part::Topic) == encode_utf8(r.topic).len(),
        batch_size(seq![r], Part::TimestampType) == encode_utf8(
            r.timestamp_type.wire_name(),
        ).len(),
        batch_size(seq![r], Part::Headers) == r.headers.len(),
        r.key matches Some(k) ==> batch_size(seq![r], Part::Key) == k.len(),
        r.value matches Some(v) ==> batch_size(seq![r], Part::Value) == v.len(),
        fits(a, keys, values) <==> {
            &&& batch_size(a, Part::Topic) <= i32::MAX
            &&& batch_size(a, Part::TimestampType) <= i32::MAX
            &&& keys is Bytes || batch_size(a, Part::Key) <= i32::MAX
            &&& values is Bytes || batch_size(a, Part::Value) <= i32::MAX
            &&& batch_size(a, Part::Headers) <= i32::MAX
            &&& batch_size(a, Part::HeaderKeys) <= i32::MAX
        },
    decreases b.len(),
{
    let none = Seq::<RecordView>::empty();
    assert(seq![r].drop_last() =~= none);
    assert(batch_size(none, Part::Topic) == 0);
    assert(batch_size(none, Part::TimestampType) == 0);
    assert(batch_size(none, Part::Headers) == 0);
    assert(batch_size(none, Part::Key) == 0);
    assert(batch_size(none, Part::Value) == 0);
    if b.len() == 0 {
        assert(a + b =~= a);
        assert(b =~= none);
    } else {
        law_what_is_counted(a, b.drop_last(), r, p, keys, values);
        assert((a + b).drop_last() =~= a + b.drop_last());
        assert((a + b).last() == b.last());
    }
}

/// Whether the first column of this name is the `k`-th.
pub open spec fn is_column(f: Seq<FieldView>, name: Seq<char>, k: int) -> bool {
    &&& 0 <= k < f.len()
    &&& f[k].name == name
    &&& forall|j: int| 0 <= j < k ==> (#[trigger] f[j]).name != name
}

/// A column is found by its name, the first of that name.
pub proof fn law_columns_are_found_by_name(f: Seq<FieldView>, name: Seq<char>, k: int)
    ensures
        is_column(f, name, k) ==> column_named(f, name) == Some(f[k]),
        (forall|j: int| 0 <= j < f.len() ==> (#[trigger] f[j]).name != name) ==> column_named(
            f,
            name,
        ) is None,
        column_named(f, name) is Some ==> exists|j: int| #[trigger] is_column(f, name, j),
    decreases f.len(),
{
    if f.len() > 0 {
        let rest = f.skip(1);
        law_columns_are_found_by_name(rest, name, k - 1);
        assert forall|j: int| 0 <= j < rest.len() implies rest[j] == #[trigger] f[j + 1] by {}
        if is_column(f, name, k) && k > 0 {
            assert(f[0].name != name);
            assert forall|j: int| 0 <= j < k - 1 implies (#[trigger] rest[j]).name != name by {
                assert(f[j + 1].name != name);
            }
            assert(is_column(rest, name, k - 1));
        }
        if forall|j: int| 0 <= j < f.len() ==> (#[trigger] f[j]).name != name {
            assert(f[0].name != name);
            assert forall|j: int| 0 <= j < rest.len() implies (#[trigger] rest[j]).name != name by {
                assert(f[j + 1].name != name);
            }
        }
        if column_named(f, name) is Some {
            if f[0].name == name {
                assert(is_column(f, name, 0));
            } else {
                let j = choose|j: int| #[trigger] is_column(rest, name, j);
                assert forall|l: int| 0 <= l < j + 1 implies (#[trigger] f[l]).name != name by {
                    if l > 0 {
                        assert(rest[l - 1].name != name);
                    }
                }
                assert(is_column(f, name, j + 1));
            }
        }
    }
}

/// Whether a table has a column of this name.
pub open spec fn has_column(f: Seq<FieldView>, name: Seq<char>) -> bool {
    column_named(f, name) is Some
}

/// A table can be read exactly where it has all eight columns, each of the
/// type that it is written with; keys and values may be texts or bytes.
pub proof fn law_which_tables_can_be_read(f: Seq<FieldView>)
    ensures
        table_fault(f) is None <==> {
            &&& has_column(f, "topic"@) && has_column(f, "partition"@) && has_column(f, "offset"@)
            &&& has_column(f, "timestamp_ms"@) && has_column(f, "timestamp_type"@)
            &&& has_column(f, "key"@) && has_column(f, "value"@) && has_column(f, "headers"@)
            &&& column_named(f, "topic"@)->0.column.kind is Utf8
            &&& column_named(f, "partition"@)->0.column.kind is Int32
            &&& column_named(f, "offset"@)->0.column.kind is UInt64
            &&& column_named(f, "timestamp_ms"@)->0.column.kind is Int64
            &&& column_named(f, "timestamp_type"@)->0.column.kind is Utf8
            &&& column_named(f, "key"@)->0.column.kind is Utf8 || column_named(
                f,
                "key"@,
            )->0.column.kind is LargeBinary
            &&& column_named(f, "value"@)->0.column.kind is Utf8 || column_named(
                f,
                "value"@,
            )->0.column.kind is LargeBinary
            &&& column_named(f, "headers"@)->0.column.kind matches Kind::List(_, items)
                && *items matches Kind::Struct(fields) && kind_named(fields, "key"@) == Some(
                Kind::Utf8,
            ) && kind_named(fields, "value"@) == Some(Kind::LargeBinary)
        },
        table_fault(f) is Some ==> table_records(f) == Err::<Seq<RecordView>, Seq<char>>(
            table_fault(f)->0,
        ),
{
    lemma_missing(f);
}

proof fn lemma_missing(f: Seq<FieldView>)
    ensures
        crate::parquet::missing(f, crate::parquet::column_names()) is None <==> {
            &&& has_column(f, "topic"@) && has_column(f, "partition"@) && has_column(f, "offset"@)
            &&& has_column(f, "timestamp_ms"@) && has_column(f, "timestamp_type"@)
            &&& has_column(f, "key"@) && has_column(f, "value"@) && has_column(f, "headers"@)
        },
{
    let n = crate::parquet::column_names();
    assert(n.skip(1)[0] == n[1]);
    assert(n.skip(1).skip(1)[0] == n[2]);
    assert(n.skip(1).skip(1).skip(1)[0] == n[3]);
    assert(n.skip(1).skip(1).skip(1).skip(1)[0] == n[4]);
    assert(n.skip(1).skip(1).skip(1).skip(1).skip(1)[0] == n[5]);
    assert(n.skip(1).skip(1).skip(1).skip(1).skip(1).skip(1)[0] == n[6]);
    assert(n.skip(1).skip(1).skip(1).skip(1).skip(1).skip(1).skip(1)[0] == n[7]);
    reveal_with_fuel(crate::parquet::missing, 10);
}

/// What is read from a cell of a payload column: nothing where it is null,
/// bytes as they are, text as its bytes, and text of a column that is
/// marked as base64 as what it encodes.
pub open spec fn is_read_as(c: Cell, base64: bool, p: Option<Seq<u8>>) -> bool {
    match c {
        Cell::Text(s) => if base64 {
            p matches Some(b) && base64_bytes(s) == Ok::<Seq<u8>, Seq<char>>(b)
        } else {
            p == Some(encode_utf8(s))
        },
        Cell::Binary(b) => p == Some(b),
        _ => p is None,
    }
}

/// Whether a column is marked as base64.
pub open spec fn is_marked(f: FieldView) -> bool {
    f.metadata.dom().contains("ARROW:extension:name"@) && f.metadata["ARROW:extension:name"@]
        == "mirror_v3.bytes_base64"@
}

/// The record of a row is made of the cells of that row, each from the
/// column of its name.
pub proof fn law_reading_a_row(f: Seq<FieldView>, i: int, r: RecordView)
    requires
        row_record(f, i) == Ok::<RecordView, Seq<char>>(r),
    ensures
        column_named(f, "topic"@)->0.column.cells[i] matches Cell::Text(s) ==> r.topic == s,
        column_named(f, "partition"@)->0.column.cells[i] matches Cell::Int(n) ==> i32::MIN <= n
            <= i32::MAX ==> r.partition == n,
        column_named(f, "offset"@)->0.column.cells[i] matches Cell::Int(n) ==> 0 <= n <= u64::MAX
            ==> r.source_offset == n,
        column_named(f, "timestamp_ms"@)->0.column.cells[i] matches Cell::Int(n) ==> i64::MIN <= n
            <= i64::MAX ==> (r.timestamp_ms matches Some(ms) && ms == n),
        column_named(f, "timestamp_ms"@)->0.column.cells[i] is Null ==> r.timestamp_ms is None,
        column_named(f, "timestamp_type"@)->0.column.cells[i] matches Cell::Text(s)
            ==> r.timestamp_type == type_named(s),
        is_read_as(
            column_named(f, "key"@)->0.column.cells[i],
            is_marked(column_named(f, "key"@)->0),
            r.key,
        ),
        is_read_as(
            column_named(f, "value"@)->0.column.cells[i],
            is_marked(column_named(f, "value"@)->0),
            r.value,
        ),
        r.headers == cell_headers(column_named(f, "headers"@)->0.column.cells[i]),
{
}

/// The headers of a row are those of its list, in order, each with its name
/// and its value, if it has one. A list that is null holds none.
pub proof fn law_reading_headers_of_a_row(c: Cell, i: int)
    ensures
        !(c is List) ==> cell_headers(c).len() == 0,
        c matches Cell::List(l) ==> {
            &&& cell_headers(c).len() == l.len()
            &&& 0 <= i < l.len() ==> (l[i] matches Cell::Row(f) ==> {
                let h = cell_headers(c)[i];
                &&& cell_named(f, "key"@) matches Some(Cell::Text(s)) ==> h.key == s
                &&& cell_named(f, "value"@) matches Some(Cell::Binary(b)) ==> h.value == Some(b)
                &&& cell_named(f, "value"@) matches Some(Cell::Null) ==> h.value is None
            })
        },
{
}

/// The fields of a row and of its type are found by name, the first of
/// that name.
pub proof fn law_fields_are_found_by_name(
    f: Seq<(Seq<char>, Cell)>,
    t: Seq<(FieldTag, Kind)>,
    name: Seq<char>,
    k: int,
)
    requires
        0 <= k,
    ensures
        k < f.len() && f[k].0 == name && (forall|j: int|
            0 <= j < k ==> (#[trigger] f[j]).0 != name) ==> cell_named(f, name) == Some(f[k].1),
        (forall|j: int| 0 <= j < f.len() ==> (#[trigger] f[j]).0 != name) ==> cell_named(f, name) is None,
        k < t.len() && t[k].0.name == name && (forall|j: int|
            0 <= j < k ==> (#[trigger] t[j]).0.name != name) ==> kind_named(t, name) == Some(t[k].1),
        (forall|j: int| 0 <= j < t.len() ==> (#[trigger] t[j]).0.name != name) ==> kind_named(
            t,
            name,
        ) is None,
    decreases f.len() + t.len(),
{
    if f.len() > 0 {
        let g = f.skip(1);
        let e = Seq::<(FieldTag, Kind)>::empty();
        law_fields_are_found_by_name(g, e, name, if k > 0 {
            k - 1
        } else {
            0
        });
        assert forall|j: int| 0 <= j < g.len() implies g[j] == #[trigger] f[j + 1] by {}
        if k < f.len() && k > 0 && f[k].0 == name && (forall|j: int|
            0 <= j < k ==> (#[trigger] f[j]).0 != name) {
            assert(f[0].0 != name);
            assert forall|j: int| 0 <= j < k - 1 implies (#[trigger] g[j]).0 != name by {
                assert(f[j + 1].0 != name);
            }
        }
        if forall|j: int| 0 <= j < f.len() ==> (#[trigger] f[j]).0 != name {
            assert(f[0].0 != name);
            assert forall|j: int| 0 <= j < g.len() implies (#[trigger] g[j]).0 != name by {
                assert(f[j + 1].0 != name);
            }
        }
    }
    if t.len() > 0 {
        let u = t.skip(1);
        let e = Seq::<(Seq<char>, Cell)>::empty();
        law_fields_are_found_by_name(e, u, name, if k > 0 {
            k - 1
        } else {
            0
        });
        assert forall|j: int| 0 <= j < u.len() implies u[j] == #[trigger] t[j + 1] by {}
        if k < t.len() && k > 0 && t[k].0.name == name && (forall|j: int|
            0 <= j < k ==> (#[trigger] t[j]).0.name != name) {
            assert(t[0].0.name != name);
            assert forall|j: int| 0 <= j < k - 1 implies (#[trigger] u[j]).0.name != name by {
                assert(t[j + 1].0.name != name);
            }
        }
        if forall|j: int| 0 <= j < t.len() ==> (#[trigger] t[j]).0.name != name {
            assert(t[0].0.name != name);
            assert forall|j: int| 0 <= j < u.len() implies (#[trigger] u[j]).0.name != name by {
                assert(t[j + 1].0.name != name);
            }
        }
    }
}

/// The records of a table are those of its rows, in order, and those of
/// several tables come one after the other. The first row that cannot be
/// read is an error.
pub proof fn law_reading_tables(
    f: Seq<FieldView>,
    a: Seq<Seq<FieldView>>,
    n: nat,
)
    ensures
        crate::parquet::row_records(f, 0) == Ok::<Seq<RecordView>, Seq<char>>(seq![]),
        ({
            let before = crate::parquet::row_records(f, n);
            let next = row_record(f, n as int);
            let after = crate::parquet::row_records(f, n + 1);
            &&& before is Err ==> after == before
            &&& before is Ok && next is Ok ==> after == Ok::<Seq<RecordView>, Seq<char>>(
                before->Ok_0.push(next->Ok_0),
            )
            &&& before is Ok && next is Err ==> after is Err
        }),
        table_fault(f) is None ==> table_records(f) == crate::parquet::row_records(
            f,
            column_named(f, "topic"@)->0.column.cells.len(),
        ),
        tables_records(seq![]) == Ok::<Seq<RecordView>, Seq<char>>(seq![]),
        tables_records(a) is Err ==> tables_records(a.push(f)) == tables_records(a),
        tables_records(a) is Ok && table_records(f) is Err ==> tables_records(a.push(f))
            == table_records(f),
        tables_records(a) is Ok && table_records(f) is Ok ==> tables_records(a.push(f)) == Ok::<
            Seq<RecordView>,
            Seq<char>,
        >(tables_records(a)->Ok_0 + table_records(f)->Ok_0),
{
    assert(a.push(f).drop_last() =~= a);
}

/// A Parquet file is read as its tables, and is an error where the reader
/// says so, at the start or after some of them.
pub proof fn law_reading_files(bytes: Seq<u8>)
    requires
        parquet_tables(bytes) is Some,
    ensures
        parquet_tables(bytes)->0 is Err ==> file_records(bytes) is Err,
        parquet_tables(bytes)->0 matches Ok((tables, fault)) ==> {
            &&& fault is None ==> file_records(bytes) == tables_records(tables)
            &&& fault is Some ==> file_records(bytes) is Err
        },
{
}

/// The format says how a batch is stored and read: as lines, whatever the
/// columns hold, or as a Parquet file of its table, unless a payload is at
/// fault. It also says under which extension.
pub proof fn law_formats(
    c: ParquetCompression,
    keys: ColumnType,
    values: ColumnType,
    rs: Seq<RecordView>,
    bytes: Seq<u8>,
)
    ensures
        stored_bytes(Format::Ndjson, c, keys, values, rs) == Ok::<Seq<u8>, Seq<char>>(lines_of(rs)),
        stored_records(Format::Ndjson, bytes) == records_of(bytes),
        payload_fault(rs, keys, values) matches Some(f) ==> stored_bytes(
            Format::Parquet,
            c,
            keys,
            values,
            rs,
        ) == Err::<Seq<u8>, Seq<char>>(f),
        payload_fault(rs, keys, values) is None ==> (parquet_file(
            table_of(rs, keys, values),
            settings_of(c),
        ) matches Ok(b) ==> stored_bytes(Format::Parquet, c, keys, values, rs) == Ok::<
            Seq<u8>,
            Seq<char>,
        >(b)),
        stored_records(Format::Parquet, bytes) == file_records(bytes),
        Format::Parquet.file_extension() == "parquet"@,
        Format::Ndjson.file_extension() == "ndjson"@,
{
}

/// Lines can always be read, and a Parquet file where the reader comes back.
/// Lines can always be written, and a Parquet file where its columns can be
/// counted, or where a payload is at fault, which is then told.
pub proof fn law_what_can_be_read_and_written(
    bytes: Seq<u8>,
    keys: ColumnType,
    values: ColumnType,
    rs: Seq<RecordView>,
)
    ensures
        readable(Format::Ndjson, bytes),
        readable(Format::Parquet, bytes) <==> parquet_tables(bytes) is Some,
        writable(Format::Ndjson, keys, values, rs),
        writable(Format::Parquet, keys, values, rs) <==> fits(rs, keys, values) || payload_fault(
            rs,
            keys,
            values,
        ) is Some,
{
}

} // verus!
