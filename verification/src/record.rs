//! A record in transit and the labels that travel with it.
use vstd::prelude::*;

use crate::text::{dec, decimal, same_text};

verus! {

/// Where the timestamp of a record comes from.
#[derive(Debug, Clone, Copy, PartialEq, Eq, Structural)]
pub enum TimestampType {
    /// Set by the producer.
    CreateTime,
    /// Set by the broker on append.
    LogAppendTime,
    /// The record carries none.
    NotAvailable,
}

impl TimestampType {
    /// The name of this type in stored envelopes.
    pub open spec fn wire_name(self) -> Seq<char> {
        match self {
            TimestampType::CreateTime => "create_time"@,
            TimestampType::LogAppendTime => "log_append_time"@,
            TimestampType::NotAvailable => "not_available"@,
        }
    }

    /// The canonical string used in stored envelopes.
    pub fn as_str(self) -> (s: &'static str)
        ensures
            s@ == self.wire_name(),
    {
        match self {
            TimestampType::CreateTime => "create_time",
            TimestampType::LogAppendTime => "log_append_time",
            TimestampType::NotAvailable => "not_available",
        }
    }

    /// The type with the given canonical string, if there is one.
    pub fn from_wire(s: &str) -> (r: Option<Self>)
        ensures
            r matches Some(t) ==> s@ == t.wire_name(),
            r is None ==> forall|t: TimestampType| s@ != #[trigger] t.wire_name(),
    {
        if same_text(s, "create_time") {
            Some(TimestampType::CreateTime)
        } else if same_text(s, "log_append_time") {
            Some(TimestampType::LogAppendTime)
        } else if same_text(s, "not_available") {
            Some(TimestampType::NotAvailable)
        } else {
            None
        }
    }
}

/// Two timestamp types with the same canonical string are the same, so
/// reading back a written one gives it unchanged.
pub proof fn law_timestamp_type_names_are_distinct(a: TimestampType, b: TimestampType)
    ensures
        a.wire_name() == b.wire_name() ==> a == b,
{
    reveal_strlit("create_time");
    reveal_strlit("log_append_time");
    reveal_strlit("not_available");
    assert("create_time"@.len() == 11);
    assert("log_append_time"@.len() == 15);
    assert("not_available"@.len() == 13);
}

/// The contents of a header.
pub struct HeaderView {
    pub key: Seq<char>,
    pub value: Option<Seq<u8>>,
}

/// One record header.
#[derive(Debug, PartialEq, Eq)]
pub struct Header {
    pub key: String,
    pub value: Option<Vec<u8>>,
}

/// The contents of a payload that may be absent.
pub open spec fn payload_view(p: Option<Vec<u8>>) -> Option<Seq<u8>> {
    match p {
        Some(b) => Some(b@),
        None => None,
    }
}

impl View for Header {
    type V = HeaderView;

    open spec fn view(&self) -> HeaderView {
        HeaderView { key: self.key@, value: payload_view(self.value) }
    }
}

/// A copy of a byte string.
pub fn copy_bytes(b: &Vec<u8>) -> (r: Vec<u8>)
    ensures
        r@ == b@,
{
    let r = b.clone();
    assert(r@ =~= b@);
    r
}

/// A copy of a payload.
pub fn copy_payload(p: &Option<Vec<u8>>) -> (r: Option<Vec<u8>>)
    ensures
        payload_view(r) == payload_view(*p),
{
    match p {
        Some(b) => Some(copy_bytes(b)),
        None => None,
    }
}

impl Clone for Header {
    fn clone(&self) -> (r: Self)
        ensures
            r@ == self@,
    {
        Header { key: self.key.clone(), value: copy_payload(&self.value) }
    }
}

/// The contents of a list of headers.
pub open spec fn headers_view(h: Seq<Header>) -> Seq<HeaderView> {
    h.map_values(|x: Header| x@)
}

/// The contents of a record.
pub struct RecordView {
    pub topic: Seq<char>,
    pub partition: i32,
    pub source_offset: u64,
    pub timestamp_ms: Option<i64>,
    pub timestamp_type: TimestampType,
    pub key: Option<Seq<u8>>,
    pub value: Option<Seq<u8>>,
    pub headers: Seq<HeaderView>,
}

/// A record in transit. `source_offset` is its offset in the source
/// partition; the run loop and every sink gate on it. `topic` and
/// `partition` name the source partition, so that a stored record
/// describes itself.
#[derive(Debug, PartialEq, Eq)]
pub struct Record {
    pub topic: String,
    pub partition: i32,
    pub source_offset: u64,
    pub timestamp_ms: Option<i64>,
    pub timestamp_type: TimestampType,
    pub key: Option<Vec<u8>>,
    pub value: Option<Vec<u8>>,
    pub headers: Vec<Header>,
}

impl View for Record {
    type V = RecordView;

    open spec fn view(&self) -> RecordView {
        RecordView {
            topic: self.topic@,
            partition: self.partition,
            source_offset: self.source_offset,
            timestamp_ms: self.timestamp_ms,
            timestamp_type: self.timestamp_type,
            key: payload_view(self.key),
            value: payload_view(self.value),
            headers: headers_view(self.headers@),
        }
    }
}

/// The contents of a list of records.
pub open spec fn records_view(r: Seq<Record>) -> Seq<RecordView> {
    r.map_values(|x: Record| x@)
}

impl Clone for Record {
    fn clone(&self) -> (r: Self)
        ensures
            r@ == self@,
    {
        let mut headers: Vec<Header> = Vec::new();
        let mut i: usize = 0;
        while i < self.headers.len()
            invariant
                i <= self.headers.len(),
                headers.len() == i,
                forall|j: int| 0 <= j < i ==> (#[trigger] headers[j])@ == self.headers[j]@,
            decreases self.headers.len() - i,
        {
            headers.push(self.headers[i].clone());
            i += 1;
        }
        assert(headers_view(headers@) =~= headers_view(self.headers@));
        Record {
            topic: self.topic.clone(),
            partition: self.partition,
            source_offset: self.source_offset,
            timestamp_ms: self.timestamp_ms,
            timestamp_type: self.timestamp_type,
            key: copy_payload(&self.key),
            value: copy_payload(&self.value),
            headers,
        }
    }
}

/// The source partition that a mirror's metrics are labelled with.
#[derive(Debug)]
pub struct MetricLabels {
    pub topic: String,
    pub partition: u32,
}

/// The metric labels of the mirror in scope as topic and partition
/// text, and `unknown` and `0` where no mirror is in scope.
pub fn current_labels(scope: Option<&MetricLabels>) -> (r: (String, String))
    ensures
        scope matches Some(l) ==> r.0@ == l.topic@ && r.1@ == dec(l.partition as nat),
        scope is None ==> r.0@ == "unknown"@ && r.1@ == "0"@,
{
    match scope {
        Some(l) => (l.topic.clone(), decimal(l.partition as u64)),
        None => ("unknown".to_owned(), "0".to_owned()),
    }
}

/// What made a blob sink write out its buffer.
#[derive(Debug, Clone, Copy, PartialEq, Eq, Structural)]
pub enum FlushTrigger {
    /// The buffer holds as many records as allowed.
    MaxOffsets,
    /// The buffered payloads reached the byte cap.
    MaxBytes,
    /// Enough time passed since the first buffered record.
    MaxTime,
    /// The daily wall-clock boundary was crossed.
    Daily,
    /// An explicit flush, as on shutdown.
    Explicit,
}

impl FlushTrigger {
    /// The label of this trigger in log lines.
    pub open spec fn label(self) -> Seq<char> {
        match self {
            FlushTrigger::MaxOffsets => "max-offsets"@,
            FlushTrigger::MaxBytes => "max-bytes"@,
            FlushTrigger::MaxTime => "max-time"@,
            FlushTrigger::Daily => "daily"@,
            FlushTrigger::Explicit => "explicit"@,
        }
    }

    pub fn as_str(self) -> (s: &'static str)
        ensures
            s@ == self.label(),
    {
        match self {
            FlushTrigger::MaxOffsets => "max-offsets",
            FlushTrigger::MaxBytes => "max-bytes",
            FlushTrigger::MaxTime => "max-time",
            FlushTrigger::Daily => "daily",
            FlushTrigger::Explicit => "explicit",
        }
    }
}

} // verus!
