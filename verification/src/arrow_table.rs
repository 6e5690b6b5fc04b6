//! Columns and tables of the `arrow` crate, and Parquet files of the
//! `parquet` crate.
use vstd::prelude::*;
use vstd::string::*;
use vstd::utf8::encode_utf8;

use crate::assoc::{as_map, unique_keys};

use arrow::array::{
    make_array, Array, ArrayData, AsArray, Int32Array, Int64Array, LargeBinaryArray, ListArray,
    RecordBatch, StringArray, StructArray, UInt64Array,
};
use arrow::buffer::OffsetBuffer;
use arrow::datatypes::{DataType, Field, Fields, Int32Type, Int64Type, Metadata, Schema, UInt64Type};
use parquet::arrow::arrow_reader::ParquetRecordBatchReaderBuilder;
use parquet::arrow::ArrowWriter;
use parquet::basic::Compression::{LZ4, SNAPPY, UNCOMPRESSED, ZSTD};
use parquet::basic::ZstdLevel;
use parquet::file::properties::{EnabledStatistics, WriterProperties};

verus! {

/// The data of one column.
#[verifier::external_type_specification]
#[verifier::external_body]
pub struct ExArrayData(arrow::array::ArrayData);

/// A table: columns of one length under names, held as a `RecordBatch` of
/// the `arrow` crate.
#[verifier::external_body]
pub struct Table {
    batch: RecordBatch,
}

/// Where reading a Parquet file failed before any table came.
#[derive(Debug, Clone, Copy, PartialEq, Eq, Structural)]
pub enum ReadStage {
    Init,
    Build,
}

/// Where writing a Parquet file failed.
#[derive(Debug, Clone, Copy, PartialEq, Eq, Structural)]
pub enum WriteStage {
    Init,
    Table,
    Close,
}

/// How the columns of a Parquet file are compressed.
#[derive(Debug, Clone, Copy, PartialEq, Eq, Structural)]
pub enum Codec {
    Zstd(i32),
    Snappy,
    Lz4,
    Uncompressed,
}

/// How a Parquet file is written.
#[derive(Debug, Clone, Copy, PartialEq, Eq, Structural)]
pub struct Settings {
    pub codec: Codec,
    /// Whether repeated values are stored once.
    pub dictionary: bool,
    /// Whether each column has statistics.
    pub chunk_statistics: bool,
}

/// What a field within a type is called, and how it is marked.
pub struct FieldTag {
    pub name: Seq<char>,
    pub nullable: bool,
    pub metadata: Map<Seq<char>, Seq<char>>,
}

/// The mark of a field without metadata.
pub open spec fn bare_tag(name: Seq<char>, nullable: bool) -> FieldTag {
    FieldTag { name, nullable, metadata: Map::empty() }
}

/// The type of a column.
pub enum Kind {
    Utf8,
    LargeBinary,
    Int32,
    UInt64,
    Int64,
    /// Lists of items of one type.
    List(FieldTag, Box<Kind>),
    /// Rows of fields, each with its type.
    Struct(Seq<(FieldTag, Kind)>),
    Other,
}

/// The contents of one cell.
pub enum Cell {
    Null,
    Text(Seq<char>),
    Binary(Seq<u8>),
    Int(int),
    List(Seq<Cell>),
    Row(Seq<(Seq<char>, Cell)>),
    Other,
}

/// The contents of a column.
pub struct ColumnView {
    pub kind: Kind,
    /// What the type prints as.
    pub type_text: Seq<char>,
    pub cells: Seq<Cell>,
}

/// The contents of a table's column, under its name.
pub struct FieldView {
    pub name: Seq<char>,
    pub nullable: bool,
    pub metadata: Map<Seq<char>, Seq<char>>,
    pub column: ColumnView,
}

/// What a type of plain values prints as.
pub open spec fn plain_type_text(k: Kind) -> Seq<char> {
    match k {
        Kind::Utf8 => "Utf8"@,
        Kind::LargeBinary => "LargeBinary"@,
        Kind::Int32 => "Int32"@,
        Kind::UInt64 => "UInt64"@,
        Kind::Int64 => "Int64"@,
        _ => seq![],
    }
}

/// What a type of rows prints as, given the name of each field, whether it
/// may be null and what its type prints as. The fields are without
/// metadata.
pub uninterp spec fn rows_type_text(fields: Seq<(Seq<char>, bool, Seq<char>)>) -> Seq<char>;

/// What a type of lists prints as, given the name of the items and what
/// their type prints as. The items may be null and are without metadata.
pub uninterp spec fn list_type_text(item: Seq<char>, item_text: Seq<char>) -> Seq<char>;

/// What a type of plain values, of rows of them or of lists of such rows
/// prints as.
pub open spec fn simple_type_text(k: Kind) -> Seq<char> {
    match k {
        Kind::List(tag, item) => match *item {
            Kind::Struct(f) => list_type_text(
                tag.name,
                rows_type_text(
                    f.map_values(
                        |x: (FieldTag, Kind)| (x.0.name, x.0.nullable, plain_type_text(x.1)),
                    ),
                ),
            ),
            _ => seq![],
        },
        _ => plain_type_text(k),
    }
}

/// What a column holds.
pub uninterp spec fn column_of(a: arrow::array::ArrayData) -> ColumnView;

/// What a table holds, column by column.
pub uninterp spec fn fields_in(b: Table) -> Seq<FieldView>;

/// The tables that reading a Parquet file gives, and the error that ended
/// the reading, if any; or the stage at which reading could not start,
/// and why. `None` for a damaged file on which the reader panics.
pub uninterp spec fn parquet_tables(bytes: Seq<u8>) -> Option<
    Result<(Seq<Seq<FieldView>>, Option<Seq<char>>), (ReadStage, Seq<char>)>,
>;

/// The Parquet file that a table is written as, or the stage at which
/// writing failed, and why.
pub uninterp spec fn parquet_file(f: Seq<FieldView>, settings: Settings) -> Result<
    Seq<u8>,
    (WriteStage, Seq<char>),
>;

/// The cells of a column of plain values.
pub enum Cells {
    Text(Vec<Option<String>>),
    Binary(Vec<Option<Vec<u8>>>),
    Int32(Vec<Option<i32>>),
    UInt64(Vec<Option<u64>>),
    Int64(Vec<Option<i64>>),
    /// Not a column of plain values.
    Other,
}

pub open spec fn text_cell(c: Option<String>) -> Cell {
    match c {
        Some(s) => Cell::Text(s@),
        None => Cell::Null,
    }
}

pub open spec fn binary_cell(c: Option<Vec<u8>>) -> Cell {
    match c {
        Some(b) => Cell::Binary(b@),
        None => Cell::Null,
    }
}

pub open spec fn i32_cell(c: Option<i32>) -> Cell {
    match c {
        Some(n) => Cell::Int(n as int),
        None => Cell::Null,
    }
}

pub open spec fn u64_cell(c: Option<u64>) -> Cell {
    match c {
        Some(n) => Cell::Int(n as int),
        None => Cell::Null,
    }
}

pub open spec fn i64_cell(c: Option<i64>) -> Cell {
    match c {
        Some(n) => Cell::Int(n as int),
        None => Cell::Null,
    }
}

impl Cells {
    /// The contents of the column.
    pub open spec fn column(self) -> ColumnView {
        match self {
            Cells::Text(v) => ColumnView {
                kind: Kind::Utf8,
                type_text: plain_type_text(Kind::Utf8),
                cells: v@.map_values(|c: Option<String>| text_cell(c)),
            },
            Cells::Binary(v) => ColumnView {
                kind: Kind::LargeBinary,
                type_text: plain_type_text(Kind::LargeBinary),
                cells: v@.map_values(|c: Option<Vec<u8>>| binary_cell(c)),
            },
            Cells::Int32(v) => ColumnView {
                kind: Kind::Int32,
                type_text: plain_type_text(Kind::Int32),
                cells: v@.map_values(|c: Option<i32>| i32_cell(c)),
            },
            Cells::UInt64(v) => ColumnView {
                kind: Kind::UInt64,
                type_text: plain_type_text(Kind::UInt64),
                cells: v@.map_values(|c: Option<u64>| u64_cell(c)),
            },
            Cells::Int64(v) => ColumnView {
                kind: Kind::Int64,
                type_text: plain_type_text(Kind::Int64),
                cells: v@.map_values(|c: Option<i64>| i64_cell(c)),
            },
            Cells::Other => ColumnView { kind: Kind::Other, type_text: seq![], cells: seq![] },
        }
    }
}

/// Whether a column of this type holds plain values.
pub open spec fn is_plain(k: Kind) -> bool {
    !(k is List) && !(k is Struct) && !(k is Other)
}

/// The arrays of plain values of the `arrow` crate, by their data type.
#[verifier::external_body]
pub(crate) fn open_cells(data: &arrow::array::ArrayData) -> (r: Cells)
    ensures
        r is Other <==> !is_plain(column_of(*data).kind),
        !(r is Other) ==> r.column() == column_of(*data),
{
    let a = make_array(data.clone());
    match a.data_type() {
        DataType::Utf8 => Cells::Text(a.as_string::<i32>().iter().map(|c| c.map(str::to_string)).collect()),
        DataType::LargeBinary => Cells::Binary(a.as_binary::<i64>().iter().map(|c| c.map(<[u8]>::to_vec)).collect()),
        DataType::Int32 => Cells::Int32(a.as_primitive::<Int32Type>().iter().collect()),
        DataType::UInt64 => Cells::UInt64(a.as_primitive::<UInt64Type>().iter().collect()),
        DataType::Int64 => Cells::Int64(a.as_primitive::<Int64Type>().iter().collect()),
        _ => Cells::Other,
    }
}

/// The `Debug` text of a `DataType` of the `arrow` crate.
#[verifier::external_body]
pub(crate) fn describe_type(data: &arrow::array::ArrayData) -> (r: String)
    ensures
        r@ == column_of(*data).type_text,
{
    format!("{:?}", data.data_type())
}

/// How many bytes the texts take up.
pub open spec fn text_size(v: Seq<Option<String>>) -> nat
    decreases v.len(),
{
    if v.len() == 0 {
        0
    } else {
        text_size(v.drop_last()) + match v.last() {
            Some(s) => encode_utf8(s@).len(),
            None => 0,
        }
    }
}

/// Building the arrays of plain values of the `arrow` crate. A column of
/// texts counts its bytes in 32 bits.
#[verifier::external_body]
pub(crate) fn close_cells(c: Cells) -> (r: arrow::array::ArrayData)
    requires
        !(c is Other),
        c matches Cells::Text(v) ==> text_size(v@) <= i32::MAX,
    ensures
        column_of(r) == c.column(),
{
    match c {
        Cells::Text(v) => StringArray::from(v).into_data(),
        Cells::Binary(v) => v.iter().collect::<LargeBinaryArray>().into_data(),
        Cells::Int32(v) => Int32Array::from(v).into_data(),
        Cells::UInt64(v) => UInt64Array::from(v).into_data(),
        Cells::Int64(v) => Int64Array::from(v).into_data(),
        Cells::Other => StringArray::from(Vec::<String>::new()).into_data(),
    }
}

/// Cell `i` of a column of lists.
pub open spec fn list_cell(offsets: Seq<usize>, valid: Seq<bool>, items: ColumnView, i: int) -> Cell {
    if valid[i] {
        Cell::List(items.cells.subrange(offsets[i] as int, offsets[i + 1] as int))
    } else {
        Cell::Null
    }
}

/// A `ListArray` of the `arrow` crate: the offsets at which each list
/// starts in the items, with one more at the end, which lists are not
/// null, and the items. `None` where the column is no such array.
#[verifier::external_body]
pub(crate) fn open_list(data: &arrow::array::ArrayData) -> (r: Option<
    (Vec<usize>, Vec<bool>, arrow::array::ArrayData),
>)
    ensures
        r is Some <==> column_of(*data).kind is List,
        r matches Some((offsets, valid, items)) ==> ({
            let n = valid@.len();
            &&& *column_of(*data).kind->List_1 == column_of(items).kind
            &&& offsets@.len() == n + 1
            &&& forall|i: int, j: int|
                0 <= i <= j <= n ==> offsets@[i] <= offsets@[j]
            &&& offsets@[n as int] <= column_of(items).cells.len()
            &&& column_of(*data).cells == Seq::new(
                n,
                |i: int| list_cell(offsets@, valid@, column_of(items), i),
            )
        }),
{
    let a = make_array(data.clone());
    a.as_list_opt::<i32>().map(|l| {
        let offsets = l.offsets().iter().map(|o| *o as usize).collect();
        let valid = (0..l.len()).map(|i| l.is_valid(i)).collect();
        (offsets, valid, l.values().to_data())
    })
}

/// Cell `i` of a column of rows.
pub open spec fn row_cell(
    fields: Seq<(String, arrow::array::ArrayData)>,
    valid: Seq<bool>,
    i: int,
) -> Cell {
    if valid[i] {
        Cell::Row(
            fields.map_values(
                |f: (String, arrow::array::ArrayData)| (f.0@, column_of(f.1).cells[i]),
            ),
        )
    } else {
        Cell::Null
    }
}

/// A `StructArray` of the `arrow` crate: its fields, and which rows are
/// not null. `None` where the column is no such array.
#[verifier::external_body]
pub(crate) fn open_rows(data: &arrow::array::ArrayData) -> (r: Option<
    (Vec<(String, arrow::array::ArrayData)>, Vec<bool>),
>)
    ensures
        r is Some <==> column_of(*data).kind is Struct,
        r matches Some((fields, valid)) ==> ({
            &&& column_of(*data).kind->Struct_0.len() == fields@.len()
            &&& forall|k: int|
                0 <= k < fields@.len() ==> (#[trigger] column_of(*data).kind->Struct_0[k]).0.name
                    == fields@[k].0@ && column_of(*data).kind->Struct_0[k].1 == column_of(
                    fields@[k].1,
                ).kind
            &&& column_of(*data).cells == Seq::new(
                valid@.len(),
                |i: int| row_cell(fields@, valid@, i),
            )
            &&& forall|k: int|
                0 <= k < fields@.len() ==> column_of((#[trigger] fields@[k]).1).cells.len()
                    == valid@.len()
        }),
{
    let a = make_array(data.clone());
    a.as_struct_opt().map(|s| {
        let valid = (0..s.len()).map(|i| s.is_valid(i)).collect();
        let names = s.fields().iter().map(|f| f.name().clone());
        (names.zip(s.columns().iter().map(|c| c.to_data())).collect(), valid)
    })
}

/// Building a `StructArray` of the `arrow` crate without null rows from
/// fields of one length, each with its name and whether it may be null.
#[verifier::external_body]
pub(crate) fn close_rows(fields: Vec<(String, bool, arrow::array::ArrayData)>) -> (r:
    arrow::array::ArrayData)
    requires
        fields@.len() > 0,
        forall|k: int|
            0 <= k < fields@.len() ==> column_of((#[trigger] fields@[k]).2).cells.len()
                == column_of(fields@[0].2).cells.len(),
        forall|k: int|
            0 <= k < fields@.len() ==> is_plain(column_of((#[trigger] fields@[k]).2).kind),
        forall|k: int|
            0 <= k < fields@.len() ==> (#[trigger] fields@[k]).1 || !column_of(
                fields@[k].2,
            ).cells.contains(Cell::Null),
    ensures
        column_of(r).kind == Kind::Struct(
            fields@.map_values(
                |f: (String, bool, arrow::array::ArrayData)|
                    (bare_tag(f.0@, f.1), column_of(f.2).kind),
            ),
        ),
        column_of(r).type_text == rows_type_text(
            fields@.map_values(
                |f: (String, bool, arrow::array::ArrayData)|
                    (f.0@, f.1, column_of(f.2).type_text),
            ),
        ),
        column_of(r).cells == Seq::new(
            column_of(fields@[0].2).cells.len(),
            |i: int|
                Cell::Row(
                    fields@.map_values(
                        |f: (String, bool, arrow::array::ArrayData)|
                            (f.0@, column_of(f.2).cells[i]),
                    ),
                ),
        ),
{
    let columns = fields.iter().map(|f| make_array(f.2.clone())).collect();
    let types = fields.into_iter().map(|f| Field::new(f.0, f.2.data_type().clone(), f.1));
    StructArray::new(types.collect::<Fields>(), columns, None).into_data()
}

/// The sum of the first `n` lengths.
pub open spec fn total(lengths: Seq<usize>, n: nat) -> nat
    decreases n,
{
    if n == 0 {
        0
    } else {
        (total(lengths, (n - 1) as nat) + lengths[n - 1]) as nat
    }
}

/// Building a `ListArray` of the `arrow` crate without null lists, which
/// splits the items into lists of the given lengths. Such an array counts
/// its items in 32 bits. `item` names them; they may be null.
#[verifier::external_body]
pub(crate) fn close_list(
    item: &str,
    lengths: Vec<usize>,
    items: arrow::array::ArrayData,
) -> (r: arrow::array::ArrayData)
    requires
        total(lengths@, lengths@.len()) == column_of(items).cells.len(),
        total(lengths@, lengths@.len()) <= i32::MAX,
    ensures
        column_of(r).kind == Kind::List(bare_tag(item@, true), Box::new(column_of(items).kind)),
        column_of(r).type_text == list_type_text(item@, column_of(items).type_text),
        column_of(r).cells == Seq::new(
            lengths@.len(),
            |i: int|
                Cell::List(
                    column_of(items).cells.subrange(
                        total(lengths@, i as nat) as int,
                        total(lengths@, (i + 1) as nat) as int,
                    ),
                ),
        ),
{
    let field = std::sync::Arc::new(Field::new(item, items.data_type().clone(), true));
    let offsets = OffsetBuffer::from_lengths(lengths);
    ListArray::new(field, offsets, make_array(items), None).into_data()
}

/// A column to be put into a table.
pub struct TableColumn {
    pub name: String,
    pub nullable: bool,
    pub metadata: Vec<(String, String)>,
    pub data: arrow::array::ArrayData,
}

/// Key and value texts as a map.
pub open spec fn texts_map(v: Seq<(String, String)>) -> Map<Seq<char>, Seq<char>> {
    as_map(v.map_values(|e: (String, String)| (e.0@, e.1@)))
}

impl TableColumn {
    pub open spec fn field(self) -> FieldView {
        FieldView {
            name: self.name@,
            nullable: self.nullable,
            metadata: texts_map(self.metadata@),
            column: column_of(self.data),
        }
    }

    /// Whether the column is null only where it may be.
    pub open spec fn nulls_allowed(self) -> bool {
        self.nullable || (!(column_of(self.data).kind is Struct) && !(column_of(
            self.data,
        ).kind is Other) && !column_of(self.data).cells.contains(Cell::Null))
    }
}

/// `RecordBatch::try_new` of the `arrow` crate, with a schema made of the
/// columns' names, types and metadata: it takes columns of one length that
/// are null only where they may be.
#[verifier::external_body]
pub(crate) fn make_table(columns: Vec<TableColumn>) -> (r: Result<Table, String>)
    requires
        forall|i: int|
            0 <= i < columns@.len() ==> unique_keys(
                (#[trigger] columns@[i]).metadata@.map_values(|e: (String, String)| (e.0@, e.1@)),
            ),
    ensures
        columns@.len() > 0 && (forall|i: int|
            0 <= i < columns@.len() ==> (#[trigger] columns@[i]).nulls_allowed() && column_of(
                columns@[i].data,
            ).cells.len() == column_of(columns@[0].data).cells.len()) ==> r is Ok,
        r matches Ok(b) ==> fields_in(b) == columns@.map_values(|c: TableColumn| c.field()),
{
    let arrays = columns.iter().map(|c| make_array(c.data.clone())).collect();
    let fields = columns.into_iter().map(|c| {
        Field::new(c.name, c.data.data_type().clone(), c.nullable)
            .with_metadata(c.metadata.into_iter().collect::<Metadata>())
    });
    let schema = Schema::new(fields.collect::<Fields>());
    match RecordBatch::try_new(std::sync::Arc::new(schema), arrays) {
        Ok(batch) => Ok(Table { batch }),
        Err(e) => Err(e.to_string()),
    }
}

/// The columns of a `RecordBatch` of the `arrow` crate, which are all of
/// one length.
#[verifier::external_body]
pub(crate) fn open_table(b: &Table) -> (r: Vec<TableColumn>)
    ensures
        r@.map_values(|c: TableColumn| c.field()) == fields_in(*b),
        forall|i: int, j: int|
            0 <= i < r@.len() && 0 <= j < r@.len() ==> column_of(
                (#[trigger] r@[i]).data,
            ).cells.len() == column_of((#[trigger] r@[j]).data).cells.len(),
        forall|i: int|
            0 <= i < r@.len() ==> unique_keys(
                (#[trigger] r@[i]).metadata@.map_values(|e: (String, String)| (e.0@, e.1@)),
            ),
{
    let schema = b.batch.schema();
    let pairs = schema.fields().iter().zip(b.batch.columns());
    let open = pairs.map(|(f, c)| TableColumn {
        name: f.name().clone(),
        nullable: f.is_nullable(),
        metadata: f.metadata().clone().into_iter().collect(),
        data: c.to_data(),
    });
    open.collect()
}

/// The rows from `a` up to `b` of a table.
pub open spec fn rows_between(f: Seq<FieldView>, a: int, b: int) -> Seq<FieldView> {
    f.map_values(
        |x: FieldView|
            FieldView {
                column: ColumnView {
                    cells: x.column.cells.subrange(a, b),
                    ..x.column
                },
                ..x
            },
    )
}

pub open spec fn row_count(f: Seq<FieldView>) -> int {
    f[0].column.cells.len() as int
}

/// Whether the tables, one after the other, are the rows of `f`, and none
/// of them is empty.
pub open spec fn is_split(tables: Seq<Seq<FieldView>>, f: Seq<FieldView>) -> bool
    decreases tables.len(),
{
    if tables.len() == 0 {
        row_count(f) == 0
    } else {
        exists|k: int|
            #![trigger rows_between(f, 0, k)]
            0 < k <= row_count(f) && tables[0] == rows_between(f, 0, k) && is_split(
                tables.skip(1),
                rows_between(f, k, row_count(f)),
            )
    }
}

/// Whether every item is a row of texts, byte strings and nulls.
pub open spec fn simple_rows(items: Seq<Cell>) -> bool {
    forall|k: int|
        0 <= k < items.len() ==> (#[trigger] items[k] matches Cell::Row(f) && forall|l: int|
            0 <= l < f.len() ==> (#[trigger] f[l]).1 is Text || f[l].1 is Binary || f[l].1 is Null)
}

/// No metadata.
pub open spec fn no_metadata() -> Map<Seq<char>, Seq<char>> {
    Map::empty()
}

/// The metadata of a JSON column.
pub open spec fn json_metadata() -> Map<Seq<char>, Seq<char>> {
    Map::empty().insert("ARROW:extension:name"@, "arrow.json"@).insert(
        "ARROW:extension:metadata"@,
        ""@,
    )
}

/// Whether a field has a short name and no metadata.
pub open spec fn is_simple_tag(t: FieldTag) -> bool {
    t.name.len() <= 64 && t == bare_tag(t.name, t.nullable)
}

/// Whether the type is that of lists of rows of plain values: at most
/// eight fields under different short names and without metadata.
pub open spec fn is_simple_list(k: Kind) -> bool {
    &&& k matches Kind::List(tag, item)
    &&& is_simple_tag(tag)
    &&& tag.nullable
    &&& *item matches Kind::Struct(f)
    &&& 0 < f.len() <= 8
    &&& forall|i: int, j: int| 0 <= i < j < f.len() ==> f[i].0.name != f[j].0.name
    &&& forall|i: int|
        0 <= i < f.len() ==> is_plain((#[trigger] f[i]).1) && is_simple_tag(f[i].0)
}

/// Whether the table has only columns of plain values and of lists of
/// simple rows: at most eight, under different short names, without
/// metadata but for that of JSON. Its rows can be counted in 32 bits.
pub open spec fn is_simple(f: Seq<FieldView>) -> bool {
    &&& 0 < f.len() <= 8
    &&& row_count(f) <= i32::MAX
    &&& forall|i: int, j: int| 0 <= i < j < f.len() ==> f[i].name != f[j].name
    &&& forall|i: int|
        0 <= i < f.len() ==> (#[trigger] f[i]).column.type_text == simple_type_text(
            f[i].column.kind,
        )
    &&& forall|i: int|
        0 <= i < f.len() ==> (#[trigger] f[i]).name.len() <= 64 && (f[i].metadata == no_metadata()
            || f[i].metadata == json_metadata())
    &&& forall|i: int|
        0 <= i < f.len() ==> is_plain((#[trigger] f[i]).column.kind) || (is_simple_list(
            f[i].column.kind,
        ) && forall|k: int|
            0 <= k < f[i].column.cells.len() ==> (#[trigger] f[i].column.cells[k] matches Cell::List(
                items,
            ) && simple_rows(items)))
}

/// `ArrowWriter` of the `parquet` crate, with the given settings: a simple
/// table as a Parquet file, or the stage that failed and why. Reading the
/// file gives the table's rows back.
#[verifier::external_body]
pub(crate) fn write_parquet(b: &Table, settings: Settings) -> (r: Result<
    Vec<u8>,
    (WriteStage, String),
>)
    requires
        is_simple(fields_in(*b)),
        settings.codec matches Codec::Zstd(level) ==> 1 <= level <= 22,
    ensures
        match (r, parquet_file(fields_in(*b), settings)) {
            (Ok(v), Ok(x)) => v@ == x,
            (Err((s, e)), Err((t, f))) => s == t && e@ == f,
            _ => false,
        },
        r is Ok ==> parquet_tables(r->Ok_0@) is Some,
        r is Ok ==> parquet_tables(r->Ok_0@)->0 is Ok,
        r is Ok ==> parquet_tables(r->Ok_0@)->0->Ok_0.1 is None,
        r is Ok ==> is_split(parquet_tables(r->Ok_0@)->0->Ok_0.0, fields_in(*b)),
{
    let c = match settings.codec {
        Codec::Zstd(l) => ZSTD(ZstdLevel::try_new(l).unwrap_or_default()),
        Codec::Snappy => SNAPPY,
        Codec::Lz4 => LZ4,
        Codec::Uncompressed => UNCOMPRESSED,
    };
    let statistics = if settings.chunk_statistics { EnabledStatistics::Chunk } else { EnabledStatistics::None };
    let p = WriterProperties::builder().set_compression(c).set_statistics_enabled(statistics)
        .set_dictionary_enabled(settings.dictionary);
    let mut w = ArrowWriter::try_new(Vec::new(), b.batch.schema(), Some(p.build()))
        .map_err(|e| (WriteStage::Init, e.to_string()))?;
    w.write(&b.batch).map_err(|e| (WriteStage::Table, e.to_string()))?;
    w.into_inner().map_err(|e| (WriteStage::Close, e.to_string()))
}

/// The contents of a list of tables.
pub open spec fn all_fields(v: Seq<Table>) -> Seq<Seq<FieldView>> {
    v.map_values(|b: Table| fields_in(b))
}

/// `ParquetRecordBatchReaderBuilder` of the `parquet` crate: the tables
/// that a Parquet file gives, up to the first that cannot be read and the
/// error then; or the stage at which reading could not start, and why. The
/// reader panics on some damaged files, such as one whose data refer to a
/// dictionary that it does not hold: these are left out.
#[verifier::external_body]
pub(crate) fn read_parquet(bytes: &[u8]) -> (r: Result<
    (Vec<Table>, Option<String>),
    (ReadStage, String),
>)
    requires
        parquet_tables(bytes@) is Some,
    ensures
        match (r, parquet_tables(bytes@)->0) {
            (Ok((v, e)), Ok((t, f))) => all_fields(v@) == t && match (e, f) {
                (Some(x), Some(y)) => x@ == y,
                (None, None) => true,
                _ => false,
            },
            (Err((s, e)), Err((t, f))) => s == t && e@ == f,
            _ => false,
        },
{
    let reader = ParquetRecordBatchReaderBuilder::try_new(bytes::Bytes::copy_from_slice(bytes))
        .map_err(|e| (ReadStage::Init, e.to_string()))?
        .build()
        .map_err(|e| (ReadStage::Build, e.to_string()))?;
    let (mut tables, mut fault) = (Vec::new(), None);
    for table in reader {
        match table {
            Ok(batch) => tables.push(Table { batch }),
            Err(e) => { fault = Some(e.to_string()); break; }
        }
    }
    Ok((tables, fault))
}

} // verus!
