//! The formats that batches of records are stored in.
use vstd::prelude::*;
use vstd::string::*;

use crate::arrow_table::parquet_file;
use crate::column::ColumnType;
use crate::record::{records_view, Record, RecordView};
use crate::{ndjson, parquet};

verus! {

/// A format for stored batches.
#[derive(Debug, Clone, Copy, PartialEq, Eq, Structural, Hash)]
pub enum Format {
    Parquet,
    Ndjson,
}

impl Format {
    pub open spec fn file_extension(self) -> Seq<char> {
        match self {
            Format::Parquet => "parquet"@,
            Format::Ndjson => "ndjson"@,
        }
    }

    /// The extension of file names in this format.
    pub fn extension(self) -> (s: &'static str)
        ensures
            s@ == self.file_extension(),
    {
        match self {
            Format::Parquet => "parquet",
            Format::Ndjson => "ndjson",
        }
    }
}

/// How Parquet files are compressed.
#[derive(Debug, Clone, Copy, PartialEq, Eq, Structural)]
pub enum ParquetCompression {
    Zstd1,
    Zstd3,
    Snappy,
    Lz4,
    Uncompressed,
}

/// Why a batch cannot be written or read.
#[derive(Debug, PartialEq, Eq)]
pub enum EnvelopeError {
    Encode(String),
    Decode(String),
}

impl EnvelopeError {
    pub open spec fn text(&self) -> Seq<char> {
        match self {
            EnvelopeError::Encode(m) => "encode: "@ + m@,
            EnvelopeError::Decode(m) => "decode: "@ + m@,
        }
    }

    /// The error in words.
    pub fn message(&self) -> (r: String)
        ensures
            r@ == self.text(),
    {
        match self {
            EnvelopeError::Encode(m) => "encode: ".to_owned().concat(m.as_str()),
            EnvelopeError::Decode(m) => "decode: ".to_owned().concat(m.as_str()),
        }
    }
}

/// Whether the batch can be written: in a Parquet file no column may
/// outgrow what 32 bits can count.
pub open spec fn writable(
    format: Format,
    keys: ColumnType,
    values: ColumnType,
    rs: Seq<RecordView>,
) -> bool {
    format == Format::Parquet && parquet::payload_fault(rs, keys, values) is None
        ==> parquet::fits(rs, keys, values)
}

/// Whether stored bytes can be read at all: they are not a damaged Parquet
/// file on which the reader panics.
pub open spec fn readable(format: Format, bytes: Seq<u8>) -> bool {
    format == Format::Parquet ==> parquet::readable(bytes)
}

/// The records that stored bytes hold.
pub open spec fn stored_records(format: Format, bytes: Seq<u8>) -> Result<
    Seq<RecordView>,
    Seq<char>,
> {
    match format {
        Format::Ndjson => ndjson::records_of(bytes),
        Format::Parquet => parquet::file_records(bytes),
    }
}

/// What a batch is stored as, or why it cannot be.
pub open spec fn stored_bytes(
    format: Format,
    compression: ParquetCompression,
    keys: ColumnType,
    values: ColumnType,
    rs: Seq<RecordView>,
) -> Result<Seq<u8>, Seq<char>> {
    match format {
        Format::Ndjson => Ok(ndjson::lines_of(rs)),
        Format::Parquet => match parquet::payload_fault(rs, keys, values) {
            Some(f) => Err(f),
            None => match parquet_file(
                parquet::table_of(rs, keys, values),
                parquet::settings_of(compression),
            ) {
                Ok(b) => Ok(b),
                Err((stage, e)) => Err(parquet::write_fault(stage, e)),
            },
        },
    }
}

/// Whether the batch can be handed to `encode_batch`.
pub fn can_encode(
    format: Format,
    keys: ColumnType,
    values: ColumnType,
    records: &Vec<Record>,
) -> (r: bool)
    ensures
        r == writable(format, keys, values, records_view(records@)),
{
    match format {
        Format::Ndjson => true,
        Format::Parquet => parquet::batch_fits(records, keys, values) || parquet::check_payloads(
            records,
            keys,
            values,
        ).is_err(),
    }
}

/// Write a batch in the given format. What is written can be read: reading
/// it gives the records back, field by field.
///
/// `compression`, `keys` and `values` matter for Parquet only.
pub fn encode_batch(
    format: Format,
    compression: ParquetCompression,
    keys: ColumnType,
    values: ColumnType,
    records: &Vec<Record>,
) -> (r: Result<Vec<u8>, EnvelopeError>)
    requires
        writable(format, keys, values, records_view(records@)),
    ensures
        match (r, stored_bytes(format, compression, keys, values, records_view(records@))) {
            (Ok(v), Ok(b)) => v@ == b,
            (Err(EnvelopeError::Encode(m)), Err(e)) => m@ == e,
            _ => false,
        },
        r matches Ok(v) ==> readable(format, v@) && stored_records(format, v@) == Ok::<
            Seq<RecordView>,
            Seq<char>,
        >(records_view(records@)),
{
    match format {
        Format::Ndjson => ndjson::encode_batch(records),
        Format::Parquet => parquet::encode_batch(records, compression, keys, values),
    }
}

/// Write a batch in the given format, as `encode_batch` does, if it can be
/// written.
pub fn encode_if_writable(
    format: Format,
    compression: ParquetCompression,
    keys: ColumnType,
    values: ColumnType,
    records: &Vec<Record>,
) -> (r: Option<Result<Vec<u8>, EnvelopeError>>)
    ensures
        r is Some <==> writable(format, keys, values, records_view(records@)),
        r matches Some(written) ==> {
            &&& match (
                written,
                stored_bytes(format, compression, keys, values, records_view(records@)),
            ) {
                (Ok(v), Ok(b)) => v@ == b,
                (Err(EnvelopeError::Encode(m)), Err(e)) => m@ == e,
                _ => false,
            }
            &&& written matches Ok(v) ==> readable(format, v@) && stored_records(format, v@) == Ok::<
                Seq<RecordView>,
                Seq<char>,
            >(records_view(records@))
        },
{
    if can_encode(format, keys, values, records) {
        Some(encode_batch(format, compression, keys, values, records))
    } else {
        None
    }
}

/// Read a batch in the given format.
pub fn decode_batch(format: Format, bytes: &[u8]) -> (r: Result<Vec<Record>, EnvelopeError>)
    requires
        readable(format, bytes@),
    ensures
        match (r, stored_records(format, bytes@)) {
            (Ok(v), Ok(x)) => records_view(v@) == x,
            (Err(EnvelopeError::Decode(e)), Err(f)) => e@ == f,
            _ => false,
        },
{
    match format {
        Format::Ndjson => ndjson::decode_batch(bytes),
        Format::Parquet => parquet::decode_batch(bytes),
    }
}

} // verus!
