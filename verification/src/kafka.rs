//! What a Kafka source and a Kafka sink decide. Talking to brokers is up
//! to their owner.
use vstd::prelude::*;
use vstd::string::*;

use crate::cache::{CacheState, CacheView, SlotView};
use crate::column::{column_fault, ColumnType};
use crate::error::SinkError;
use crate::record::{headers_view, payload_view, Header, Record, RecordView, TimestampType};
use crate::text::{dec, decimal, signed_dec, signed_decimal};

verus! {

/// How long one poll of a source lasts, in milliseconds.
pub const DEFAULT_POLL_TIMEOUT_MS: u64 = 2000;

/// How long a broker may take to say where a partition ends, in
/// milliseconds.
pub const DEFAULT_WATERMARK_TIMEOUT_MS: u64 = 10000;

/// A broker client could not be set up.
#[derive(Debug, PartialEq, Eq)]
pub enum KafkaError {
    Init(String),
}

impl KafkaError {
    pub open spec fn text(&self) -> Seq<char> {
        match self {
            KafkaError::Init(m) => "kafka client init: "@ + m@,
        }
    }

    /// The error in words.
    pub fn message(&self) -> (r: String)
        ensures
            r@ == self.text(),
    {
        match self {
            KafkaError::Init(m) => "kafka client init: ".to_owned().concat(m.as_str()),
        }
    }
}

/// What a source reads from.
#[derive(Debug)]
pub struct KafkaSourceConfig {
    pub bootstrap_servers: String,
    pub group_id: String,
    pub topic: String,
    pub partition: i32,
    pub poll_timeout_ms: u64,
}

impl KafkaSourceConfig {
    pub fn new(bootstrap_servers: String, group_id: String, topic: String, partition: i32) -> (r: Self)
        ensures
            r == (KafkaSourceConfig {
                bootstrap_servers,
                group_id,
                topic,
                partition,
                poll_timeout_ms: DEFAULT_POLL_TIMEOUT_MS,
            }),
    {
        KafkaSourceConfig {
            bootstrap_servers,
            group_id,
            topic,
            partition,
            poll_timeout_ms: DEFAULT_POLL_TIMEOUT_MS,
        }
    }
}

/// Which timestamp a produced record gets.
#[derive(Debug, Clone, Copy, PartialEq, Eq, Structural)]
pub enum TimestampMode {
    /// The source record's.
    Source,
    /// The destination broker's.
    Destination,
}

impl Default for TimestampMode {
    fn default() -> (r: Self)
        ensures
            r == TimestampMode::Source,
    {
        TimestampMode::Source
    }
}

/// What a sink writes to, and what it takes.
#[derive(Debug)]
pub struct KafkaSinkConfig {
    pub bootstrap_servers: String,
    pub topic: String,
    pub partition: i32,
    pub watermark_timeout_ms: u64,
    pub timestamp_mode: TimestampMode,
    /// What keys must be.
    pub keys: ColumnType,
    /// What values must be.
    pub values: ColumnType,
}

/// What is wrong with the columns of a record: the key's fault before the
/// value's.
pub open spec fn record_fault(keys: ColumnType, values: ColumnType, r: RecordView) -> Option<
    Seq<char>,
> {
    if column_fault(keys, "key"@, r.source_offset, r.key) is Some {
        column_fault(keys, "key"@, r.source_offset, r.key)
    } else {
        column_fault(values, "value"@, r.source_offset, r.value)
    }
}

/// A signed number read as an unsigned one of the same width.
pub open spec fn as_unsigned(n: i64) -> int {
    if n >= 0 {
        n as int
    } else {
        n + 0x1_0000_0000_0000_0000
    }
}

fn unsigned(n: i64) -> (r: u64)
    ensures
        r == as_unsigned(n),
{
    if n >= 0 {
        n as u64
    } else {
        (n as i128 + 0x1_0000_0000_0000_0000) as u64
    }
}

impl KafkaSinkConfig {
    pub fn new(bootstrap_servers: String, topic: String, partition: i32) -> (r: Self)
        ensures
            r == (KafkaSinkConfig {
                bootstrap_servers,
                topic,
                partition,
                watermark_timeout_ms: DEFAULT_WATERMARK_TIMEOUT_MS,
                timestamp_mode: TimestampMode::Source,
                keys: ColumnType::Utf8,
                values: ColumnType::Utf8,
            }),
    {
        KafkaSinkConfig {
            bootstrap_servers,
            topic,
            partition,
            watermark_timeout_ms: DEFAULT_WATERMARK_TIMEOUT_MS,
            timestamp_mode: TimestampMode::Source,
            keys: ColumnType::default(),
            values: ColumnType::default(),
        }
    }

    /// Check that a record is what the sink takes, before the destination
    /// is asked where it stands.
    pub fn check_record(&self, record: &Record) -> (r: Result<(), SinkError>)
        ensures
            match record_fault(self.keys, self.values, record@) {
                None => r is Ok,
                Some(f) => r matches Err(SinkError::Transport(m)) && m@ == f,
            },
    {
        let key = match &record.key {
            Some(b) => Some(b.as_slice()),
            None => None,
        };
        if let Err(e) = self.keys.validate("key", record.source_offset, key) {
            return Err(SinkError::Transport(e));
        }
        let value = match &record.value {
            Some(b) => Some(b.as_slice()),
            None => None,
        };
        match self.values.validate("value", record.source_offset, value) {
            Ok(_) => Ok(()),
            Err(e) => Err(SinkError::Transport(e)),
        }
    }

    /// The timestamp that a produced record is given, if any.
    pub fn produced_timestamp(&self, record: &Record) -> (r: Option<i64>)
        ensures
            r == if self.timestamp_mode == TimestampMode::Source {
                record.timestamp_ms
            } else {
                None
            },
    {
        match self.timestamp_mode {
            TimestampMode::Source => record.timestamp_ms,
            TimestampMode::Destination => None,
        }
    }
}

/// Check that the destination still stands at exactly the record's
/// offset; `high` is where its partition ends.
pub fn check_position(source_offset: u64, high: i64) -> (r: Result<(), SinkError>)
    ensures
        r is Ok <==> clamped(high) == source_offset,
        r matches Err(e) ==> (e matches SinkError::UnexpectedPosition { expected, actual } && expected
            == source_offset && actual == clamped(high)),
{
    let current: u64 = watermark(high);
    if current != source_offset {
        Err(SinkError::UnexpectedPosition { expected: source_offset, actual: current })
    } else {
        Ok(())
    }
}

/// Check that a record was produced at its own offset.
pub fn check_delivery(source_offset: u64, delivered: i64) -> (r: Result<(), SinkError>)
    ensures
        r is Ok <==> as_unsigned(delivered) == source_offset,
        r matches Err(e) ==> (e matches SinkError::Transport(m) && m@ == "produced offset "@
            + signed_dec(delivered as int) + " != source offset "@ + dec(source_offset as nat)),
{
    if unsigned(delivered) != source_offset {
        Err(
            SinkError::Transport(
                "produced offset ".to_owned().concat(signed_decimal(delivered).as_str()).concat(
                    " != source offset ",
                ).concat(decimal(source_offset).as_str()),
            ),
        )
    } else {
        Ok(())
    }
}

/// A broker's offset, zero where it is negative.
pub open spec fn clamped(n: i64) -> int {
    if n >= 0 {
        n as int
    } else {
        0
    }
}

/// The offset that a broker reports as a partition's start or end.
pub fn watermark(n: i64) -> (r: u64)
    ensures
        r == clamped(n),
{
    if n >= 0 {
        n as u64
    } else {
        0
    }
}

/// The offset that a consumer group has committed, given the number that
/// the broker reports; it reports a negative one where there is none.
pub fn committed_offset(n: Option<i64>) -> (r: Option<u64>)
    ensures
        r == match n {
            Some(x) => if x >= 0 {
                Some(x as u64)
            } else {
                None
            },
            None => None,
        },
{
    match n {
        Some(x) => if x >= 0 {
            Some(x as u64)
        } else {
            None
        },
        None => None,
    }
}

/// The highest offset that was handed over for committing.
#[derive(Debug)]
pub struct StagedOffset {
    pub last: u64,
}

impl StagedOffset {
    pub fn new() -> (r: Self)
        ensures
            r.last == 0,
    {
        StagedOffset { last: 0 }
    }

    /// Whether `through` is higher than any that was handed over before.
    pub open spec fn is_higher(&self, through: u64) -> bool {
        through > self.last
    }

    /// What was handed over once it was tried with `through`.
    pub open spec fn after(&self, through: u64, handed_over: bool) -> StagedOffset {
        StagedOffset {
            last: if handed_over && through > self.last {
                through
            } else {
                self.last
            },
        }
    }

    /// Whether `through` is to be handed over: only if it is higher than
    /// any that was handed over before.
    pub fn stage(&self, through: u64) -> (r: bool)
        ensures
            r == (through > self.last),
            r == self.is_higher(through),
    {
        through > self.last
    }

    /// Take in how handing `through` over went. After a failure the same
    /// offset is to be handed over again.
    pub fn staged(&mut self, through: u64, handed_over: bool)
        ensures
            final(self).last == if handed_over && through > old(self).last {
                through
            } else {
                old(self).last
            },
            *final(self) == old(self).after(through, handed_over),
    {
        if handed_over && through > self.last {
            self.last = through;
        }
    }
}

/// The timestamp of a consumed message.
#[derive(Debug, Clone, Copy, PartialEq, Eq, Structural)]
pub enum MessageTime {
    NotAvailable,
    CreateTime(i64),
    LogAppendTime(i64),
}

/// A consumed message.
#[derive(Debug)]
pub struct Message {
    pub topic: String,
    pub partition: i32,
    pub offset: i64,
    pub time: MessageTime,
    pub key: Option<Vec<u8>>,
    pub payload: Option<Vec<u8>>,
    pub headers: Vec<Header>,
}

/// The record that a consumed message carries.
pub fn message_record(m: Message) -> (r: Record)
    ensures
        r@ == (RecordView {
            topic: m.topic@,
            partition: m.partition,
            source_offset: as_unsigned(m.offset) as u64,
            timestamp_ms: match m.time {
                MessageTime::NotAvailable => None,
                MessageTime::CreateTime(ms) => Some(ms),
                MessageTime::LogAppendTime(ms) => Some(ms),
            },
            timestamp_type: match m.time {
                MessageTime::NotAvailable => TimestampType::NotAvailable,
                MessageTime::CreateTime(_) => TimestampType::CreateTime,
                MessageTime::LogAppendTime(_) => TimestampType::LogAppendTime,
            },
            key: payload_view(m.key),
            value: payload_view(m.payload),
            headers: headers_view(m.headers@),
        }),
{
    let (timestamp_ms, timestamp_type) = match m.time {
        MessageTime::NotAvailable => (None, TimestampType::NotAvailable),
        MessageTime::CreateTime(ms) => (Some(ms), TimestampType::CreateTime),
        MessageTime::LogAppendTime(ms) => (Some(ms), TimestampType::LogAppendTime),
    };
    Record {
        topic: m.topic,
        partition: m.partition,
        source_offset: unsigned(m.offset),
        timestamp_ms,
        timestamp_type,
        key: m.key,
        value: m.payload,
        headers: m.headers,
    }
}

/// The cache after a look at the source of a mirror: where the source
/// ends, and whether the consumer has its partition, as far as either
/// could be found out.
pub open spec fn polled(
    c: CacheView,
    name: Seq<char>,
    high: Option<i64>,
    assigned: Option<bool>,
) -> CacheView {
    let ended = match (c.slot(name), high) {
        (Some(s), Some(h)) => c.with_slot(
            name,
            (SlotView {
                broker_end: if clamped(h) > s.broker_end {
                    clamped(h) as u64
                } else {
                    s.broker_end
                },
                ..s
            }).refreshed(c.tolerance),
        ),
        _ => c,
    };
    match (ended.slot(name), assigned) {
        (Some(s), Some(a)) => ended.with_slot(
            name,
            (SlotView { assigned: a, ..s }).refreshed(c.tolerance),
        ),
        _ => ended,
    }
}

/// Take in a look at the source of a mirror.
pub fn apply_poll(
    cache: &mut CacheState,
    mirror_name: &str,
    high: Option<i64>,
    assigned: Option<bool>,
)
    requires
        old(cache).wf(),
    ensures
        final(cache).wf(),
        final(cache)@ == polled(old(cache)@, mirror_name@, high, assigned),
{
    if let Some(h) = high {
        cache.set_broker_end_offset(mirror_name, watermark(h));
    }
    match assigned {
        Some(true) => cache.mark_source_assigned(mirror_name),
        Some(false) => cache.mark_source_unassigned(mirror_name),
        None => {},
    }
}

/// A record that passes every check lands at its own offset: the
/// destination ended right there before, and the record was produced
/// right there.
pub proof fn law_produced_record_keeps_its_offset(source_offset: u64, high: i64, delivered: i64)
    requires
        clamped(high) == source_offset,
        as_unsigned(delivered) == source_offset,
        source_offset <= i64::MAX,
    ensures
        delivered == source_offset,
        high == source_offset || (source_offset == 0 && high <= 0),
{
}

} // verus!
