//! What a process makes of its configuration: the clients to open, the
//! names to log, and the reports to print.
use vstd::prelude::*;
use vstd::string::*;
use vstd::utf8::encode_utf8;

use crate::column::ColumnType;
use crate::config;
use crate::config::{
    called, AtUtcError, Compaction, Config, Destination, DestinationFormat, KafkaDestination,
    Mirror, TriggerOn,
};
use crate::envelope::{Format, ParquetCompression};
use crate::error::SinkError;
use crate::filesystem::{CompactionMode, FilesystemSinkConfig, FlushTriggers};
use crate::kafka::{KafkaSinkConfig, KafkaSourceConfig, TimestampMode};
use crate::mirror::Sink;
use crate::record::{Record, RecordView};
use crate::text::{
    as_signed, chars_of, debug_quoted, debug_text, dec, decimal, parse_number, parse_unsigned,
    signed, signed_dec, signed_decimal,
};

verus! {

pub open spec fn type_label(d: Destination) -> Seq<char> {
    match d {
        Destination::Kafka(_) => "kafka"@,
        Destination::Filesystem(_) => "filesystem"@,
        Destination::S3(_) => "s3"@,
    }
}

/// The type of a destination, by name.
pub fn destination_type(d: &Destination) -> (s: &'static str)
    ensures
        s@ == type_label(*d),
{
    match d {
        Destination::Kafka(_) => "kafka",
        Destination::Filesystem(_) => "filesystem",
        Destination::S3(_) => "s3",
    }
}

pub open spec fn format_of(f: DestinationFormat) -> Format {
    match f {
        DestinationFormat::Parquet => Format::Parquet,
        DestinationFormat::Ndjson => Format::Ndjson,
    }
}

pub fn format_to_envelope(f: DestinationFormat) -> (r: Format)
    ensures
        r == format_of(f),
{
    match f {
        DestinationFormat::Parquet => Format::Parquet,
        DestinationFormat::Ndjson => Format::Ndjson,
    }
}

pub open spec fn compression_of(c: config::ParquetCompression) -> ParquetCompression {
    match c {
        config::ParquetCompression::Zstd1 => ParquetCompression::Zstd1,
        config::ParquetCompression::Zstd3 => ParquetCompression::Zstd3,
        config::ParquetCompression::Snappy => ParquetCompression::Snappy,
        config::ParquetCompression::Lz4 => ParquetCompression::Lz4,
        config::ParquetCompression::Uncompressed => ParquetCompression::Uncompressed,
    }
}

pub fn compression_to_envelope(c: config::ParquetCompression) -> (r: ParquetCompression)
    ensures
        r == compression_of(c),
{
    match c {
        config::ParquetCompression::Zstd1 => ParquetCompression::Zstd1,
        config::ParquetCompression::Zstd3 => ParquetCompression::Zstd3,
        config::ParquetCompression::Snappy => ParquetCompression::Snappy,
        config::ParquetCompression::Lz4 => ParquetCompression::Lz4,
        config::ParquetCompression::Uncompressed => ParquetCompression::Uncompressed,
    }
}

pub open spec fn column_type_of(k: config::ColumnType) -> ColumnType {
    match k {
        config::ColumnType::Bytes => ColumnType::Bytes,
        config::ColumnType::Utf8 => ColumnType::Utf8,
        config::ColumnType::Json => ColumnType::Json,
        config::ColumnType::JsonParseable => ColumnType::JsonParseable,
    }
}

pub fn column_type_to_envelope(k: config::ColumnType) -> (r: ColumnType)
    ensures
        r == column_type_of(k),
{
    match k {
        config::ColumnType::Bytes => ColumnType::Bytes,
        config::ColumnType::Utf8 => ColumnType::Utf8,
        config::ColumnType::Json => ColumnType::Json,
        config::ColumnType::JsonParseable => ColumnType::JsonParseable,
    }
}

pub open spec fn compaction_of(c: Option<Compaction>) -> Option<CompactionMode> {
    match c {
        None => None,
        Some(Compaction::Log) => Some(CompactionMode::Log),
    }
}

pub fn compaction_to_fs(c: Option<Compaction>) -> (r: Option<CompactionMode>)
    ensures
        r == compaction_of(c),
{
    match c {
        None => None,
        Some(Compaction::Log) => Some(CompactionMode::Log),
    }
}

/// The compaction mode of a mirror, for logs.
pub fn compaction_label(c: Option<Compaction>) -> (s: &'static str)
    ensures
        s@ == match c {
            None => "append"@,
            Some(Compaction::Log) => "log"@,
        },
{
    match c {
        None => "append",
        Some(Compaction::Log) => "log",
    }
}

pub open spec fn timestamp_mode_of(m: Option<config::TimestampMode>) -> TimestampMode {
    match m {
        Some(config::TimestampMode::Destination) => TimestampMode::Destination,
        _ => TimestampMode::Source,
    }
}

pub fn timestamp_mode_to_kafka(m: Option<config::TimestampMode>) -> (r: TimestampMode)
    ensures
        r == timestamp_mode_of(m),
{
    match m {
        Some(config::TimestampMode::Destination) => TimestampMode::Destination,
        _ => TimestampMode::Source,
    }
}

/// How a mirror stores files.
#[derive(Debug, Clone, Copy, PartialEq, Eq, Structural)]
pub struct BlobMirrorParams {
    pub format: Format,
    pub compression: ParquetCompression,
    pub keys: ColumnType,
    pub values: ColumnType,
    pub flush: FlushTriggers,
}

/// Why a mirror cannot store files.
#[derive(Debug, PartialEq, Eq)]
pub enum ParamsError {
    MissingFlush { mirror: String },
    Daily { mirror: String, cause: AtUtcError },
}

impl ParamsError {
    pub open spec fn text(&self) -> Seq<char> {
        match self {
            ParamsError::MissingFlush { mirror } => "mirror "@ + debug_quoted(mirror@)
                + ": missing `flush`"@,
            ParamsError::Daily { mirror, .. } => "mirror "@ + debug_quoted(mirror@)
                + ": daily.at-utc"@,
        }
    }

    /// The error in words, without its cause.
    pub fn message(&self) -> (r: String)
        ensures
            r@ == self.text(),
    {
        match self {
            ParamsError::MissingFlush { mirror } => "mirror ".to_owned().concat(
                debug_text(mirror.as_str()).as_str(),
            ).concat(": missing `flush`"),
            ParamsError::Daily { mirror, .. } => "mirror ".to_owned().concat(
                debug_text(mirror.as_str()).as_str(),
            ).concat(": daily.at-utc"),
        }
    }
}

pub open spec fn kind_or_default(c: Option<config::ColumnConfig>) -> ColumnType {
    match c {
        Some(x) => column_type_of(x.kind),
        None => ColumnType::Utf8,
    }
}

fn column_or_default(c: Option<config::ColumnConfig>) -> (r: ColumnType)
    ensures
        r == kind_or_default(c),
{
    match c {
        Some(x) => column_type_to_envelope(x.kind),
        None => ColumnType::Utf8,
    }
}

/// Whether `e` says what is wrong with the mirror's daily flush.
pub open spec fn daily_fault(e: ParamsError, m: Mirror) -> bool {
    &&& e matches ParamsError::Daily { mirror, cause }
    &&& mirror@ == m.name@
    &&& match config::clock_fields(m.flush->0.daily->0.at_utc@) {
        None => cause matches AtUtcError::Format(s) && s@ == m.flush->0.daily->0.at_utc@,
        Some(_) => cause matches AtUtcError::Range(s) && s@ == m.flush->0.daily->0.at_utc@,
    }
}

/// How a mirror stores files, with the defaults filled in.
pub fn resolve_blob_params(mirror: &Mirror) -> (r: Result<BlobMirrorParams, ParamsError>)
    ensures
        match mirror.flush {
            None => r matches Err(ParamsError::MissingFlush { mirror: n }) && n@ == mirror.name@,
            Some(f) => {
                &&& r matches Ok(p) ==> {
                    &&& p.format == match mirror.format {
                        Some(x) => format_of(x),
                        None => Format::Parquet,
                    }
                    &&& p.compression == match mirror.compression {
                        Some(x) => compression_of(x),
                        None => ParquetCompression::Zstd1,
                    }
                    &&& p.keys == kind_or_default(mirror.keys)
                    &&& p.values == kind_or_default(mirror.values)
                    &&& p.flush.max_time_ms == f.max_time_ms
                    &&& p.flush.max_bytes == f.max_bytes
                    &&& p.flush.max_offsets == f.max_offsets
                    &&& match f.daily {
                        None => p.flush.daily_at_utc_seconds is None,
                        Some(d) => p.flush.daily_at_utc_seconds matches Some(secs) && (
                        config::clock_fields(d.at_utc@) matches Some(t) && config::on_the_clock(t)
                            && secs == t.0 * 3600 + t.1 * 60 + t.2),
                    }
                }
                &&& r is Ok <==> (f.daily matches Some(d) ==> (config::clock_fields(
                    d.at_utc@,
                ) matches Some(t) && config::on_the_clock(t)))
                &&& r matches Err(e) ==> daily_fault(e, *mirror)
            },
        },
{
    let format = match mirror.format {
        Some(x) => format_to_envelope(x),
        None => Format::Parquet,
    };
    let compression = match mirror.compression {
        Some(x) => compression_to_envelope(x),
        None => ParquetCompression::Zstd1,
    };
    let f = match &mirror.flush {
        Some(f) => f,
        None => {
            return Err(ParamsError::MissingFlush { mirror: mirror.name.clone() });
        },
    };
    let daily_at_utc_seconds: Option<u32> = match &f.daily {
        None => None,
        Some(d) => match d.parse_at_utc() {
            Ok(secs) => Some(secs),
            Err(cause) => {
                return Err(ParamsError::Daily { mirror: mirror.name.clone(), cause });
            },
        },
    };
    Ok(
        BlobMirrorParams {
            format,
            compression,
            keys: column_or_default(mirror.keys),
            values: column_or_default(mirror.values),
            flush: FlushTriggers {
                max_time_ms: f.max_time_ms,
                max_bytes: f.max_bytes,
                max_offsets: f.max_offsets,
                daily_at_utc_seconds,
            },
        },
    )
}

/// A partition number as a signed number of the same width.
pub open spec fn signed_partition(p: u32) -> int {
    if p <= i32::MAX {
        p as int
    } else {
        p - 0x1_0000_0000
    }
}

fn partition_number(p: u32) -> (r: i32)
    ensures
        r == signed_partition(p),
{
    if p <= i32::MAX as u32 {
        p as i32
    } else {
        (p as i64 - 0x1_0000_0000) as i32
    }
}

/// The consumer group of a mirror.
pub fn group_id(mirror: &Mirror) -> (r: String)
    ensures
        r@ == match mirror.source.group_id {
            Some(g) => g@,
            None => "mirror-v3-"@ + mirror.name@,
        },
{
    match &mirror.source.group_id {
        Some(g) => g.clone(),
        None => "mirror-v3-".to_owned().concat(mirror.name.as_str()),
    }
}

/// What a mirror reads from.
pub fn source_config(mirror: &Mirror) -> (r: KafkaSourceConfig)
    ensures
        r.bootstrap_servers@ == mirror.source.bootstrap_servers@,
        r.group_id@ == match mirror.source.group_id {
            Some(g) => g@,
            None => "mirror-v3-"@ + mirror.name@,
        },
        r.topic@ == mirror.topic@,
        r.partition == signed_partition(mirror.partition),
        r.poll_timeout_ms == crate::kafka::DEFAULT_POLL_TIMEOUT_MS,
{
    KafkaSourceConfig::new(
        mirror.source.bootstrap_servers.clone(),
        group_id(mirror),
        mirror.topic.clone(),
        partition_number(mirror.partition),
    )
}

/// What a Kafka destination of a mirror writes to, and what it takes.
pub fn kafka_sink_config(mirror: &Mirror, k: &KafkaDestination) -> (r: KafkaSinkConfig)
    ensures
        r.bootstrap_servers@ == k.bootstrap_servers@,
        r.topic@ == match k.topic {
            Some(t) => t@,
            None => mirror.topic@,
        },
        r.partition == signed_partition(mirror.partition),
        r.watermark_timeout_ms == crate::kafka::DEFAULT_WATERMARK_TIMEOUT_MS,
        r.timestamp_mode == timestamp_mode_of(mirror.timestamp_mode),
        r.keys == kind_or_default(mirror.keys),
        r.values == kind_or_default(mirror.values),
{
    let topic = match &k.topic {
        Some(t) => t.clone(),
        None => mirror.topic.clone(),
    };
    let mut c = KafkaSinkConfig::new(
        k.bootstrap_servers.clone(),
        topic,
        partition_number(mirror.partition),
    );
    c.timestamp_mode = timestamp_mode_to_kafka(mirror.timestamp_mode);
    c.keys = column_or_default(mirror.keys);
    c.values = column_or_default(mirror.values);
    c
}

/// What a destination of a mirror that stores files does under `root`.
pub fn blob_sink_config(mirror: &Mirror, root: &str, destination_name: &str) -> (r: Result<
    FilesystemSinkConfig,
    ParamsError,
>)
    ensures
        mirror.flush is None ==> (r matches Err(ParamsError::MissingFlush { mirror: n }) && n@
            == mirror.name@),
        mirror.flush is Some ==> (r matches Err(e) ==> daily_fault(e, *mirror)),
        r is Ok <==> (mirror.flush matches Some(f) && (f.daily matches Some(d) ==> (
        config::clock_fields(d.at_utc@) matches Some(t) && config::on_the_clock(t)))),
        r matches Ok(c) ==> {
            &&& c.root@ == root@
            &&& c.destination_name@ == destination_name@
            &&& c.partition == mirror.partition
            &&& c.format == match mirror.format {
                Some(x) => format_of(x),
                None => Format::Parquet,
            }
            &&& c.compression == match mirror.compression {
                Some(x) => compression_of(x),
                None => ParquetCompression::Zstd1,
            }
            &&& c.keys == kind_or_default(mirror.keys)
            &&& c.values == kind_or_default(mirror.values)
            &&& c.compaction == compaction_of(mirror.compaction)
            &&& c.flush.max_time_ms == mirror.flush->0.max_time_ms
            &&& c.flush.max_bytes == mirror.flush->0.max_bytes
            &&& c.flush.max_offsets == mirror.flush->0.max_offsets
            &&& match mirror.flush->0.daily {
                None => c.flush.daily_at_utc_seconds is None,
                Some(d) => c.flush.daily_at_utc_seconds matches Some(secs) && (
                config::clock_fields(d.at_utc@) matches Some(t) && config::on_the_clock(t) && secs
                    == t.0 * 3600 + t.1 * 60 + t.2),
            }
        },
{
    match resolve_blob_params(mirror) {
        Err(e) => Err(e),
        Ok(p) => Ok(
            FilesystemSinkConfig {
                root: root.to_owned(),
                destination_name: destination_name.to_owned(),
                partition: mirror.partition,
                format: p.format,
                compression: p.compression,
                keys: p.keys,
                values: p.values,
                compaction: compaction_to_fs(mirror.compaction),
                flush: p.flush,
            },
        ),
    }
}

/// Whether an S3 endpoint is spoken to without encryption.
pub fn endpoint_is_plain_http(endpoint: &str) -> (r: bool)
    ensures
        r == (endpoint@.len() >= 7 && endpoint@.take(7) == "http://"@),
{
    let v = chars_of(endpoint);
    let p = chars_of("http://");
    proof {
        reveal_strlit("http://");
        assert("http://"@.len() == 7);
    }
    if v.len() < 7 {
        return false;
    }
    let mut i: usize = 0;
    while i < 7
        invariant
            i <= 7,
            p.len() == 7,
            v.len() >= 7,
            v@ == endpoint@,
            p@ == "http://"@,
            forall|j: int| 0 <= j < i ==> v@[j] == p@[j],
        decreases 7 - i,
    {
        if v[i] != p[i] {
            assert(endpoint@.take(7)[i as int] != "http://"@[i as int]);
            return false;
        }
        i += 1;
    }
    assert(endpoint@.take(7) =~= "http://"@);
    true
}

/// Whether a mirror needs a slot in the cache: to be read over HTTP, or to
/// tell what to notify.
pub fn needs_slot(mirror: &Mirror) -> (r: bool)
    ensures
        r == (mirror.http_access is Some || mirror.notify is Some),
{
    mirror.http_access.is_some() || mirror.notify.is_some()
}

/// What a destination's acknowledgements come from.
#[derive(Debug, Clone, Copy, PartialEq, Eq, Structural)]
pub enum AckSource {
    /// Every write.
    Writes,
    /// Every flush.
    Flushes,
    /// There is no destination.
    Nothing,
}

/// One sink behind a mirror's tee.
#[derive(Debug)]
pub struct InnerPlan {
    pub name: String,
    /// What the sink is called in logs.
    pub description: String,
    pub acks: AckSource,
}

/// Whether the plan is that of the mirror's `i`-th destination.
pub open spec fn plans_destination(p: InnerPlan, m: Mirror, i: int) -> bool {
    let d = m.destinations@[i];
    &&& p.name@ == called(d, m.name@)
    &&& p.description@ == called(d, m.name@) + "("@ + type_label(d) + ")"@
    &&& p.acks == if d is Kafka {
        AckSource::Writes
    } else {
        AckSource::Flushes
    }
}

/// The sinks behind a mirror's tee: one per destination, in order, or one
/// that stores nothing where there is no destination.
pub fn plan_sinks(mirror: &Mirror) -> (r: Vec<InnerPlan>)
    ensures
        mirror.destinations@.len() > 0 ==> r@.len() == mirror.destinations@.len() && forall|i: int|
            0 <= i < r@.len() ==> plans_destination(#[trigger] r@[i], *mirror, i),
        mirror.destinations@.len() == 0 ==> r@.len() == 1 && r@[0].name@ == "notify-only"@
            && r@[0].description@ == "notify-only"@ && r@[0].acks == AckSource::Nothing,
{
    let mut r: Vec<InnerPlan> = Vec::new();
    let mut i: usize = 0;
    while i < mirror.destinations.len()
        invariant
            i <= mirror.destinations.len(),
            r.len() == i,
            forall|j: int| 0 <= j < i ==> plans_destination(#[trigger] r@[j], *mirror, j),
        decreases mirror.destinations.len() - i,
    {
        let d = &mirror.destinations[i];
        let name = d.effective_name(mirror.name.as_str());
        let description = name.clone().concat("(").concat(destination_type(d)).concat(")");
        let acks = if d.is_blob() {
            AckSource::Flushes
        } else {
            AckSource::Writes
        };
        r.push(InnerPlan { name, description, acks });
        i += 1;
    }
    if r.len() == 0 {
        r.push(
            InnerPlan {
                name: "notify-only".to_owned(),
                description: "notify-only".to_owned(),
                acks: AckSource::Nothing,
            },
        );
    }
    r
}

/// When a mirror tells its targets of records.
#[derive(Debug, Clone, Copy, PartialEq, Eq, Structural)]
pub enum NotifierPlan {
    /// It has no targets.
    Silent,
    /// As the records are consumed.
    OnConsume,
    /// As the destinations store them.
    OnFlush,
}

/// When a mirror tells its targets of records. Whether a record is told
/// depends on the mirror's slot in the cache, so it must have one.
pub fn plan_notifier(mirror: &Mirror, has_slot: bool) -> (r: Result<NotifierPlan, String>)
    ensures
        match mirror.notify {
            None => r == Ok::<NotifierPlan, String>(NotifierPlan::Silent),
            Some(n) => if !has_slot {
                r matches Err(m) && m@ == "mirror "@ + mirror.name@
                    + " has notify but no cache binding; validator should reject this"@
            } else {
                r == Ok::<NotifierPlan, String>(
                    match n.trigger.on {
                        TriggerOn::SourceConsume => NotifierPlan::OnConsume,
                        TriggerOn::DestinationFlush => NotifierPlan::OnFlush,
                    },
                )
            },
        },
{
    let n = match &mirror.notify {
        Some(n) => n,
        None => {
            return Ok(NotifierPlan::Silent);
        },
    };
    if !has_slot {
        return Err(
            "mirror ".to_owned().concat(mirror.name.as_str()).concat(
                " has notify but no cache binding; validator should reject this",
            ),
        );
    }
    Ok(
        match n.trigger.on {
            TriggerOn::SourceConsume => NotifierPlan::OnConsume,
            TriggerOn::DestinationFlush => NotifierPlan::OnFlush,
        },
    )
}

/// The offset below its destinations at which a mirror resumes, so that
/// records that were stored but never notified are notified: the offset
/// that was committed, where there are targets.
pub fn resume_floor(mirror: &Mirror, committed: Option<u64>) -> (r: Option<u64>)
    ensures
        r == if mirror.notify is Some {
            committed
        } else {
            None
        },
{
    if mirror.notify.is_some() {
        committed
    } else {
        None
    }
}

/// A sink that stores nothing, for mirrors that only notify. It remembers
/// where it is and takes any record from there on.
pub struct NotifyOnlySink {
    pub position: u64,
    /// The offsets of the records that it took.
    pub taken: Ghost<Seq<u64>>,
}

impl NotifyOnlySink {
    pub fn new() -> (r: Self)
        ensures
            r.position == 0,
            r.taken@ == Seq::<u64>::empty(),
    {
        NotifyOnlySink { position: 0, taken: Ghost(Seq::empty()) }
    }
}

impl Sink for NotifyOnlySink {
    open spec fn valid(&self) -> bool {
        true
    }

    open spec fn tolerates_gaps(&self) -> bool {
        true
    }

    open spec fn accepted_offsets(&self) -> Seq<u64> {
        self.taken@
    }

    open spec fn reports_position(&self, after: &Self, r: Result<u64, SinkError>) -> bool {
        r == Ok::<u64, SinkError>(self.position) && *after == *self
    }

    open spec fn takes_record(
        &self,
        after: &Self,
        record: RecordView,
        r: Result<(), SinkError>,
    ) -> bool {
        let offset = record.source_offset;
        if offset < self.position {
            r == Err::<(), SinkError>(
                SinkError::UnexpectedPosition { expected: self.position, actual: offset },
            ) && *after == *self
        } else if offset == u64::MAX {
            r is Err && *after == *self
        } else {
            r == Ok::<(), SinkError>(()) && after.position == offset + 1
        }
    }

    open spec fn flushes(&self, after: &Self, r: Result<(), SinkError>) -> bool {
        r == Ok::<(), SinkError>(()) && *after == *self
    }

    open spec fn tells_tolerance(&self, after: &Self) -> bool {
        *after == *self
    }

    open spec fn aligns_to(
        &self,
        after: &Self,
        low_watermark: u64,
        r: Result<(), SinkError>,
    ) -> bool {
        r == Ok::<(), SinkError>(()) && *after == (NotifyOnlySink {
            position: low_watermark,
            ..*self
        })
    }

    fn next_expected_offset(&mut self) -> (r: Result<u64, SinkError>) {
        Ok(self.position)
    }

    fn write(&mut self, record: Record) -> (r: Result<(), SinkError>) {
        let offset: u64 = record.source_offset;
        if offset < self.position {
            return Err(
                SinkError::UnexpectedPosition { expected: self.position, actual: offset },
            );
        }
        if offset == u64::MAX {
            return Err(SinkError::Transport("source offset overflowed u64".to_owned()));
        }
        self.position = offset + 1;
        self.taken = Ghost(self.taken@.push(offset));
        Ok(())
    }

    fn flush(&mut self) -> (r: Result<(), SinkError>) {
        Ok(())
    }

    fn allows_compacted_source(&mut self) -> (r: bool) {
        true
    }

    fn align_to_source_low_watermark(&mut self, low_watermark: u64) -> (r: Result<
        (),
        SinkError,
    >) {
        self.position = low_watermark;
        Ok(())
    }
}

// ---- reports -------------------------------------------------------------------

/// How one destination of a mirror stands.
#[derive(Debug, PartialEq, Eq)]
pub struct StatusRow {
    pub name: String,
    /// The end of the source partition.
    pub source_high: Option<i64>,
    /// The offset that the destination takes next.
    pub dest_next: Option<u64>,
    pub error: Option<String>,
}

/// How far a destination at `next` is behind a source that ends at `high`.
pub open spec fn lag_of(high: i64, next: u64) -> int {
    let d = high - as_signed(next);
    if d < 0 {
        0
    } else if d > i64::MAX {
        i64::MAX as int
    } else {
        d
    }
}

impl StatusRow {
    /// How far the destination is behind, if both ends are known.
    pub fn lag(&self) -> (r: Option<i64>)
        ensures
            match (self.source_high, self.dest_next) {
                (Some(h), Some(n)) => r matches Some(l) && l == lag_of(h, n),
                _ => r is None,
            },
    {
        match (self.source_high, self.dest_next) {
            (Some(h), Some(n)) => {
                let d: i128 = h as i128 - signed(n) as i128;
                Some(
                    if d < 0 {
                        0
                    } else if d > i64::MAX as i128 {
                        i64::MAX
                    } else {
                        d as i64
                    },
                )
            },
            _ => None,
        }
    }
}

/// What a destination is called in a status report: the mirror's name, and
/// its own behind a dot where that is another.
pub fn row_name(mirror: &Mirror, destination: &Destination) -> (r: String)
    ensures
        r@ == if called(*destination, mirror.name@) == mirror.name@ {
            mirror.name@
        } else {
            mirror.name@ + "."@ + called(*destination, mirror.name@)
        },
{
    let name = destination.effective_name(mirror.name.as_str());
    if name == mirror.name {
        mirror.name.clone()
    } else {
        mirror.name.clone().concat(".").concat(name.as_str())
    }
}

/// What came of asking a source for its end.
#[derive(Debug, PartialEq, Eq)]
pub enum SourceAnswer {
    High(i64),
    /// The source did not answer.
    Failed(String),
    /// The task that asks it did not end well.
    TaskFailed(String),
}

/// The row of a destination, given what its source and then itself
/// answered. Where no answer came of the source, that is the error of the
/// row.
pub fn status_row(name: String, source: SourceAnswer, next: Result<u64, String>) -> (r: StatusRow)
    ensures
        r.name == name,
        match (source, next) {
            (SourceAnswer::Failed(e), _) => r.source_high is None && r.dest_next is None && (
            r.error matches Some(m) && m@ == "source watermark: "@ + e@),
            (SourceAnswer::TaskFailed(e), _) => r.source_high is None && r.dest_next is None && (
            r.error matches Some(m) && m@ == "source watermark task: "@ + e@),
            (SourceAnswer::High(h), Ok(n)) => r.source_high == Some(h) && r.dest_next == Some(n)
                && r.error is None,
            (SourceAnswer::High(h), Err(e)) => r.source_high == Some(h) && r.dest_next is None && (
            r.error matches Some(m) && m@ == "destination: "@ + e@),
        },
{
    let h: i64 = match source {
        SourceAnswer::High(h) => h,
        SourceAnswer::Failed(e) => {
            let error = Some("source watermark: ".to_owned().concat(e.as_str()));
            return StatusRow { name, source_high: None, dest_next: None, error };
        },
        SourceAnswer::TaskFailed(e) => {
            let error = Some("source watermark task: ".to_owned().concat(e.as_str()));
            return StatusRow { name, source_high: None, dest_next: None, error };
        },
    };
    match next {
        Ok(n) => StatusRow { name, source_high: Some(h), dest_next: Some(n), error: None },
        Err(e) => StatusRow {
            name,
            source_high: Some(h),
            dest_next: None,
            error: Some("destination: ".to_owned().concat(e.as_str())),
        },
    }
}

/// Whether any row has an error.
pub fn any_errors(rows: &Vec<StatusRow>) -> (r: bool)
    ensures
        r == exists|i: int| 0 <= i < rows.len() && (#[trigger] rows@[i]).error is Some,
{
    let mut i: usize = 0;
    while i < rows.len()
        invariant
            i <= rows.len(),
            forall|j: int| 0 <= j < i ==> (#[trigger] rows@[j]).error is None,
        decreases rows.len() - i,
    {
        if rows[i].error.is_some() {
            return true;
        }
        i += 1;
    }
    false
}

pub open spec fn spaces(n: int) -> Seq<char> {
    Seq::new(
        if n > 0 {
            n as nat
        } else {
            0
        },
        |i: int| ' ',
    )
}

/// A text filled up with spaces behind it.
pub open spec fn left_aligned(s: Seq<char>, width: int) -> Seq<char> {
    s + spaces(width - s.len())
}

/// A text filled up with spaces before it.
pub open spec fn right_aligned(s: Seq<char>, width: int) -> Seq<char> {
    spaces(width - s.len()) + s
}

fn fill(n: usize) -> (s: String)
    ensures
        s@ == spaces(n as int),
{
    let mut s = String::new();
    let mut i: usize = 0;
    while i < n
        invariant
            i <= n,
            s@ == spaces(i as int),
        decreases n - i,
    {
        s.push(' ');
        i += 1;
        assert(s@ =~= spaces(i as int));
    }
    s
}

fn align_left(s: &str, width: usize) -> (r: String)
    ensures
        r@ == left_aligned(s@, width as int),
{
    let n: usize = chars_of(s).len();
    let gap: usize = if width > n {
        width - n
    } else {
        0
    };
    assert(spaces(width - s@.len()) =~= spaces(gap as int));
    s.to_owned().concat(fill(gap).as_str())
}

fn align_right(s: &str, width: usize) -> (r: String)
    ensures
        r@ == right_aligned(s@, width as int),
{
    let n: usize = chars_of(s).len();
    let gap: usize = if width > n {
        width - n
    } else {
        0
    };
    assert(spaces(width - s@.len()) =~= spaces(gap as int));
    fill(gap).concat(s)
}

/// One line of the status table.
pub open spec fn table_line(
    width: int,
    name: Seq<char>,
    high: Seq<char>,
    next: Seq<char>,
    lag: Seq<char>,
) -> Seq<char> {
    left_aligned(name, width) + "  "@ + right_aligned(high, 14) + "  "@ + right_aligned(next, 14)
        + "  "@ + right_aligned(lag, 10) + "\n"@
}

fn write_line(width: usize, name: &str, high: &str, next: &str, lag: &str) -> (r: String)
    ensures
        r@ == table_line(width as int, name@, high@, next@, lag@),
{
    align_left(name, width).concat("  ").concat(align_right(high, 14).as_str()).concat("  ").concat(
        align_right(next, 14).as_str(),
    ).concat("  ").concat(align_right(lag, 10).as_str()).concat("\n")
}

/// The line of one row.
pub open spec fn row_line(width: int, r: StatusRow) -> Seq<char> {
    match r.error {
        Some(e) => left_aligned(r.name@, width) + "  error: "@ + e@ + "\n"@,
        None => table_line(
            width,
            r.name@,
            match r.source_high {
                Some(h) => signed_dec(h as int),
                None => ""@,
            },
            match r.dest_next {
                Some(n) => dec(n as nat),
                None => ""@,
            },
            match (r.source_high, r.dest_next) {
                (Some(h), Some(n)) => signed_dec(lag_of(h, n)),
                _ => ""@,
            },
        ),
    }
}

/// The width of the column of names: the longest name in bytes, at least
/// that of its heading.
pub open spec fn name_width(rows: Seq<StatusRow>) -> int
    decreases rows.len(),
{
    if rows.len() == 0 {
        6
    } else {
        let w = name_width(rows.drop_last());
        let n = encode_utf8(rows.last().name@).len() as int;
        if n > w {
            n
        } else {
            w
        }
    }
}

pub open spec fn row_lines(width: int, rows: Seq<StatusRow>) -> Seq<char>
    decreases rows.len(),
{
    if rows.len() == 0 {
        seq![]
    } else {
        row_lines(width, rows.drop_last()) + row_line(width, rows.last())
    }
}

/// The status of all destinations as a table.
pub fn status_table(rows: &Vec<StatusRow>) -> (r: String)
    ensures
        r@ == table_line(
            name_width(rows@),
            "MIRROR"@,
            "SOURCE-HIGH"@,
            "DEST-NEXT"@,
            "LAG"@,
        ) + row_lines(name_width(rows@), rows@),
{
    let mut width: usize = 6;
    let mut i: usize = 0;
    assert(rows@.take(0) =~= seq![]);
    while i < rows.len()
        invariant
            i <= rows.len(),
            width == name_width(rows@.take(i as int)),
        decreases rows.len() - i,
    {
        proof {
            assert(rows@.take(i + 1).drop_last() =~= rows@.take(i as int));
            assert(rows@.take(i + 1).last() == rows@[i as int]);
        }
        let n: usize = rows[i].name.as_str().as_bytes().len();
        if n > width {
            width = n;
        }
        i += 1;
    }
    assert(rows@.take(i as int) =~= rows@);
    let head = write_line(width, "MIRROR", "SOURCE-HIGH", "DEST-NEXT", "LAG");
    let mut lines = String::new();
    let mut i: usize = 0;
    assert(rows@.take(0) =~= seq![]);
    assert(lines@ =~= seq![]);
    while i < rows.len()
        invariant
            i <= rows.len(),
            width == name_width(rows@),
            lines@ == row_lines(width as int, rows@.take(i as int)),
        decreases rows.len() - i,
    {
        proof {
            assert(rows@.take(i + 1).drop_last() =~= rows@.take(i as int));
            assert(rows@.take(i + 1).last() == rows@[i as int]);
        }
        let row = &rows[i];
        let line = match &row.error {
            Some(e) => align_left(row.name.as_str(), width).concat("  error: ").concat(
                e.as_str(),
            ).concat("\n"),
            None => {
                let high = match row.source_high {
                    Some(h) => signed_decimal(h),
                    None => "".to_owned(),
                };
                let next = match row.dest_next {
                    Some(n) => decimal(n),
                    None => "".to_owned(),
                };
                let lag = match row.lag() {
                    Some(l) => signed_decimal(l),
                    None => "".to_owned(),
                };
                write_line(
                    width,
                    row.name.as_str(),
                    high.as_str(),
                    next.as_str(),
                    lag.as_str(),
                )
            },
        };
        lines.append(line.as_str());
        i += 1;
    }
    assert(rows@.take(i as int) =~= rows@);
    head.concat(lines.as_str())
}

/// How many destinations the mirrors have in all.
pub open spec fn destination_count(ms: Seq<Mirror>) -> nat
    decreases ms.len(),
{
    if ms.len() == 0 {
        0
    } else {
        destination_count(ms.drop_last()) + ms.last().destinations@.len()
    }
}

/// How many mirrors are not run.
pub open spec fn disabled_count(ms: Seq<Mirror>) -> nat
    decreases ms.len(),
{
    if ms.len() == 0 {
        0
    } else {
        disabled_count(ms.drop_last()) + if ms.last().enabled.unwrap_or(true) {
            0nat
        } else {
            1nat
        }
    }
}

/// The types of the destinations, separated by commas.
pub open spec fn type_list(ds: Seq<Destination>) -> Seq<char>
    decreases ds.len(),
{
    if ds.len() == 0 {
        seq![]
    } else if ds.len() == 1 {
        type_label(ds[0])
    } else {
        type_list(ds.drop_last()) + ", "@ + type_label(ds.last())
    }
}

pub open spec fn mirror_line(m: Mirror) -> Seq<char> {
    "  mirror "@ + debug_quoted(m.name@) + (if m.enabled.unwrap_or(true) {
        ""@
    } else {
        " [DISABLED]"@
    }) + ": destinations = ["@ + type_list(m.destinations@) + "]\n"@
}

pub open spec fn mirror_lines(ms: Seq<Mirror>) -> Seq<char>
    decreases ms.len(),
{
    if ms.len() == 0 {
        seq![]
    } else {
        mirror_lines(ms.drop_last()) + mirror_line(ms.last())
    }
}

/// The first line of a report on a configuration.
pub open spec fn summary_line(ms: Seq<Mirror>) -> Seq<char> {
    let n = ms.len();
    let off = disabled_count(ms);
    let total = destination_count(ms);
    if off == 0 {
        "OK: "@ + dec(n) + " mirror(s), "@ + dec(total) + " destination(s) total\n"@
    } else {
        "OK: "@ + dec(n) + " mirror(s) ("@ + dec((n - off) as nat) + " enabled, "@ + dec(off)
            + " disabled), "@ + dec(total) + " destination(s) total\n"@
    }
}

fn write_types(ds: &Vec<Destination>) -> (r: String)
    ensures
        r@ == type_list(ds@),
{
    let mut r = String::new();
    let mut i: usize = 0;
    assert(ds@.take(0) =~= seq![]);
    assert(r@ =~= seq![]);
    while i < ds.len()
        invariant
            i <= ds.len(),
            r@ == type_list(ds@.take(i as int)),
        decreases ds.len() - i,
    {
        proof {
            assert(ds@.take(i + 1).drop_last() =~= ds@.take(i as int));
            assert(ds@.take(i + 1).last() == ds@[i as int]);
            if i == 0 {
                assert(seq![] + type_label(ds@[0]) =~= type_label(ds@[0]));
                assert(ds@.take(1)[0] == ds@[0]);
            }
        }
        if i > 0 {
            r.append(", ");
        }
        r.append(destination_type(&ds[i]));
        i += 1;
    }
    assert(ds@.take(i as int) =~= ds@);
    r
}

proof fn lemma_disabled_at_most(ms: Seq<Mirror>)
    ensures
        disabled_count(ms) <= ms.len(),
    decreases ms.len(),
{
    if ms.len() > 0 {
        lemma_disabled_at_most(ms.drop_last());
    }
}

/// A report on a configuration that keeps its rules: how many mirrors and
/// destinations there are, and one line for each mirror.
pub fn validate_report(cfg: &Config) -> (r: String)
    requires
        destination_count(cfg.mirrors@) <= u64::MAX,
    ensures
        r@ == summary_line(cfg.mirrors@) + mirror_lines(cfg.mirrors@),
{
    let ms = &cfg.mirrors;
    let mut total: u64 = 0;
    let mut off: u64 = 0;
    let mut lines = String::new();
    let mut i: usize = 0;
    assert(ms@.take(0) =~= seq![]);
    assert(lines@ =~= seq![]);
    while i < ms.len()
        invariant
            i <= ms.len(),
            ms == cfg.mirrors,
            destination_count(ms@) <= u64::MAX,
            total == destination_count(ms@.take(i as int)),
            off == disabled_count(ms@.take(i as int)),
            off <= i,
            lines@ == mirror_lines(ms@.take(i as int)),
        decreases ms.len() - i,
    {
        proof {
            assert(ms@.take(i + 1).drop_last() =~= ms@.take(i as int));
            assert(ms@.take(i + 1).last() == ms@[i as int]);
            lemma_destinations_grow(ms@, i + 1);
        }
        let m = &ms[i];
        total = total + m.destinations.len() as u64;
        let tag = if m.is_enabled() {
            ""
        } else {
            " [DISABLED]"
        };
        if !m.is_enabled() {
            off = off + 1;
        }
        let line = "  mirror ".to_owned().concat(debug_text(m.name.as_str()).as_str()).concat(
            tag,
        ).concat(": destinations = [").concat(write_types(&m.destinations).as_str()).concat("]\n");
        lines.append(line.as_str());
        i += 1;
    }
    assert(ms@.take(i as int) =~= ms@);
    let n: u64 = ms.len() as u64;
    let head = if off == 0 {
        "OK: ".to_owned().concat(decimal(n).as_str()).concat(" mirror(s), ").concat(
            decimal(total).as_str(),
        ).concat(" destination(s) total\n")
    } else {
        "OK: ".to_owned().concat(decimal(n).as_str()).concat(" mirror(s) (").concat(
            decimal(n - off).as_str(),
        ).concat(" enabled, ").concat(decimal(off).as_str()).concat(" disabled), ").concat(
            decimal(total).as_str(),
        ).concat(" destination(s) total\n")
    };
    head.concat(lines.as_str())
}

proof fn lemma_destinations_grow(ms: Seq<Mirror>, i: int)
    requires
        0 <= i <= ms.len(),
    ensures
        destination_count(ms.take(i)) <= destination_count(ms),
    decreases ms.len() - i,
{
    if i < ms.len() {
        assert(ms.take(i + 1).drop_last() =~= ms.take(i));
        lemma_destinations_grow(ms, i + 1);
    } else {
        assert(ms.take(i) =~= ms);
    }
}

/// Whether the configuration runs any mirror, and the complaint where it
/// runs none.
pub fn check_any_enabled(cfg: &Config) -> (r: Result<(), String>)
    ensures
        r is Ok <==> exists|i: int|
            0 <= i < cfg.mirrors.len() && (#[trigger] cfg.mirrors@[i]).enabled.unwrap_or(true),
        r matches Err(m) ==> m@ == "all "@ + dec(cfg.mirrors@.len())
            + " mirror(s) are disabled (enabled: false); nothing to do - enable at least one mirror or scale this deployment to zero replicas"@,
{
    let mut i: usize = 0;
    while i < cfg.mirrors.len()
        invariant
            i <= cfg.mirrors.len(),
            forall|j: int| 0 <= j < i ==> !(#[trigger] cfg.mirrors@[j]).enabled.unwrap_or(true),
        decreases cfg.mirrors.len() - i,
    {
        if cfg.mirrors[i].is_enabled() {
            return Ok(());
        }
        i += 1;
    }
    Err(
        "all ".to_owned().concat(decimal(cfg.mirrors.len() as u64).as_str()).concat(
            " mirror(s) are disabled (enabled: false); nothing to do - enable at least one mirror or scale this deployment to zero replicas",
        ),
    )
}

/// The port that a setting gives; `default` where it gives none.
pub fn port_from_env(setting: Option<&str>, default: u16) -> (p: u16)
    ensures
        p == match setting {
            Some(s) => parse_unsigned(s@, u16::MAX as nat).unwrap_or(default as nat),
            None => default as nat,
        },
{
    match setting {
        Some(s) => match parse_number(s, u16::MAX as u64) {
            Some(n) => n as u16,
            None => default,
        },
        None => default,
    }
}

/// Texts, separated by commas.
pub open spec fn comma_separated(t: Seq<Seq<char>>) -> Seq<char>
    decreases t.len(),
{
    if t.len() == 0 {
        seq![]
    } else if t.len() == 1 {
        t[0]
    } else {
        comma_separated(t.drop_last()) + ","@ + t.last()
    }
}

/// What a mirror logs of its notifications.
pub fn notify_label(mirror: &Mirror) -> (r: String)
    ensures
        r@ == match mirror.notify {
            None => ""@,
            Some(n) => " notify=kkv-v1["@ + comma_separated(
                n.targets@.map_values(|t: config::NotifyTarget| t.url@),
            ) + "] trigger="@ + match n.trigger.on {
                TriggerOn::SourceConsume => "source-consume"@,
                TriggerOn::DestinationFlush => "destination-flush"@,
            },
        },
{
    let n = match &mirror.notify {
        Some(n) => n,
        None => {
            return "".to_owned();
        },
    };
    let ghost urls = n.targets@.map_values(|t: config::NotifyTarget| t.url@);
    let mut list = String::new();
    let mut i: usize = 0;
    assert(urls.take(0) =~= seq![]);
    assert(list@ =~= seq![]);
    while i < n.targets.len()
        invariant
            i <= n.targets.len(),
            urls == n.targets@.map_values(|t: config::NotifyTarget| t.url@),
            list@ == comma_separated(urls.take(i as int)),
        decreases n.targets.len() - i,
    {
        proof {
            assert(urls.take(i + 1).drop_last() =~= urls.take(i as int));
            assert(urls.take(i + 1).last() == n.targets@[i as int].url@);
            if i == 0 {
                assert(seq![] + urls[0] =~= urls[0]);
                assert(urls.take(1)[0] == urls[0]);
            }
        }
        if i > 0 {
            list.append(",");
        }
        list.append(n.targets[i].url.as_str());
        i += 1;
    }
    assert(urls.take(i as int) =~= urls);
    let on = match n.trigger.on {
        TriggerOn::SourceConsume => "source-consume",
        TriggerOn::DestinationFlush => "destination-flush",
    };
    " notify=kkv-v1[".to_owned().concat(list.as_str()).concat("] trigger=").concat(on)
}

} // verus!
