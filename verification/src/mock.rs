//! Scripted sources, sinks and notifiers for exercising the mirror loop.
use std::collections::VecDeque;

use vstd::prelude::*;
use vstd::string::*;
use vstd::utf8::encode_utf8;

use crate::error::{NotifyError, SinkError, SourceError};
use crate::mirror::{Notifier, Sink, Source, WriteObserver};
use crate::record::{records_view, Header, Record, RecordView, TimestampType};
use crate::text::{as_signed, dec, decimal, signed};

verus! {

/// What a scripted source does on one poll.
#[derive(Debug)]
pub enum MockSourceEvent {
    /// Deliver a record.
    Record(Record),
    /// Let the poll window pass without a record.
    Idle,
    /// Fail.
    Error(String),
    /// Never come back from here on. A script that is used up does the
    /// same.
    Hang,
}

/// A source that follows a script and remembers where it was sent.
#[derive(Debug)]
pub struct MockSource {
    pub events: VecDeque<MockSourceEvent>,
    pub seeks: Vec<u64>,
    pub low_watermark: u64,
    pub high_watermark: u64,
}

/// The elements of a vector as a queue.
pub(crate) fn queue_of<T>(items: Vec<T>) -> (q: VecDeque<T>)
    ensures
        q@ == items@,
{
    let mut q: VecDeque<T> = VecDeque::new();
    for x in it: items
        invariant
            it.seq() == items@,
            q@ == it.seq().take(it.index()),
    {
        q.push_back(x);
    }
    assert(q@ =~= items@);
    q
}

impl MockSource {
    pub fn new(events: Vec<MockSourceEvent>) -> (r: Self)
        ensures
            r.events@ == events@,
            r.seeks@ == Seq::<u64>::empty(),
            r.low_watermark == 0,
            r.high_watermark == u64::MAX,
    {
        MockSource {
            events: queue_of(events),
            seeks: Vec::new(),
            low_watermark: 0,
            high_watermark: u64::MAX,
        }
    }

    /// Set the earliest offset that the source claims to retain.
    pub fn with_low_watermark(self, low_watermark: u64) -> (r: Self)
        ensures
            r == (MockSource { low_watermark, ..self }),
    {
        MockSource { low_watermark, ..self }
    }

    /// Set the end offset that the source claims to have.
    pub fn with_high_watermark(self, high_watermark: u64) -> (r: Self)
        ensures
            r == (MockSource { high_watermark, ..self }),
    {
        MockSource { high_watermark, ..self }
    }
}

impl Source for MockSource {
    open spec fn seeks_to(
        &self,
        after: &Self,
        next_offset: u64,
        r: Result<(), SourceError>,
    ) -> bool {
        &&& r == Ok::<(), SourceError>(())
        &&& after.seeks@ == self.seeks@.push(next_offset)
        &&& *after == (MockSource { seeks: after.seeks, ..*self })
    }

    open spec fn polls(
        &self,
        after: &Self,
        r: Option<Result<Option<RecordView>, SourceError>>,
    ) -> bool {
        &&& *after == (MockSource { events: after.events, ..*self })
        &&& if self.events@.len() == 0 {
            r is None && after.events@ == self.events@
        } else {
            match self.events@[0] {
                MockSourceEvent::Record(rec) => r == Some(
                    Ok::<Option<RecordView>, SourceError>(Some(rec@)),
                ) && after.events@ == self.events@.skip(1),
                MockSourceEvent::Idle => r == Some(Ok::<Option<RecordView>, SourceError>(None))
                    && after.events@ == self.events@.skip(1),
                MockSourceEvent::Error(e) => r == Some(
                    Err::<Option<RecordView>, SourceError>(SourceError::Transport(e)),
                ) && after.events@ == self.events@.skip(1),
                MockSourceEvent::Hang => r is None && after.events@ == self.events@,
            }
        }
    }

    open spec fn starts_at(&self, after: &Self, r: Result<u64, SourceError>) -> bool {
        r == Ok::<u64, SourceError>(self.low_watermark) && *after == *self
    }

    fn seek(&mut self, next_offset: u64) -> (r: Result<(), SourceError>) {
        self.seeks.push(next_offset);
        Ok(())
    }

    fn poll_one(&mut self) -> (r: Option<Result<Option<Record>, SourceError>>)
        ensures
            old(self).events@.len() > 0 && old(self).events@[0] is Record ==> r == Some(
                Ok::<Option<Record>, SourceError>(Some(old(self).events@[0]->Record_0)),
            ),
    {
        let ghost script = self.events@;
        match self.events.pop_front() {
            Some(MockSourceEvent::Record(r)) => {
                assert(self.events@ =~= script.skip(1));
                Some(Ok(Some(r)))
            },
            Some(MockSourceEvent::Idle) => {
                assert(self.events@ =~= script.skip(1));
                Some(Ok(None))
            },
            Some(MockSourceEvent::Error(e)) => {
                assert(self.events@ =~= script.skip(1));
                Some(Err(SourceError::Transport(e)))
            },
            Some(MockSourceEvent::Hang) => {
                self.events.push_front(MockSourceEvent::Hang);
                assert(self.events@ =~= script);
                None
            },
            None => None,
        }
    }

    fn low_watermark(&mut self) -> (r: Result<u64, SourceError>) {
        Ok(self.low_watermark)
    }

    fn high_watermark(&mut self) -> (r: Result<u64, SourceError>)
        ensures
            r == Ok::<u64, SourceError>(old(self).high_watermark),
            *final(self) == *old(self),
    {
        Ok(self.high_watermark)
    }
}

/// A write observer that keeps the offsets it was told of.
#[derive(Debug)]
pub struct WriteLog {
    pub offsets: Vec<u64>,
}

impl WriteLog {
    pub fn new() -> (r: Self)
        ensures
            r.offsets@ == Seq::<u64>::empty(),
    {
        WriteLog { offsets: Vec::new() }
    }
}

impl WriteObserver for WriteLog {
    fn on_written(&mut self, source_offset: u64)
        ensures
            final(self).offsets@ == old(self).offsets@.push(source_offset),
    {
        self.offsets.push(source_offset);
    }
}

/// The offsets of the given records.
pub open spec fn offsets_of(records: Seq<Record>) -> Seq<u64> {
    records.map_values(|r: Record| r.source_offset)
}

/// A sink that follows a script. `position_program` holds the positions
/// to report first; once it is used up the running position is reported.
#[derive(Debug)]
pub struct MockSink {
    pub position_program: VecDeque<u64>,
    pub writes: Vec<Record>,
    /// The error of the next write, if it is to fail.
    pub write_error: Option<SinkError>,
    pub running_position: u64,
    pub allows_compacted_source: bool,
    /// Told of every accepted write.
    pub write_observer: Option<WriteLog>,
}

impl MockSink {
    pub fn starting_at(offset: u64) -> (r: Self)
        ensures
            r.position_program@ == Seq::<u64>::empty(),
            r.writes@ == Seq::<Record>::empty(),
            r.write_error is None,
            r.running_position == offset,
            !r.allows_compacted_source,
            r.write_observer is None,
    {
        MockSink {
            position_program: VecDeque::new(),
            writes: Vec::new(),
            write_error: None,
            running_position: offset,
            allows_compacted_source: false,
            write_observer: None,
        }
    }

    pub fn with_position_program(self, positions: Vec<u64>) -> (r: Self)
        ensures
            r.position_program@ == positions@,
            r == (MockSink { position_program: r.position_program, ..self }),
    {
        MockSink { position_program: queue_of(positions), ..self }
    }

    pub fn with_write_error(self, err: SinkError) -> (r: Self)
        ensures
            r == (MockSink { write_error: Some(err), ..self }),
    {
        MockSink { write_error: Some(err), ..self }
    }

    pub fn with_allows_compacted_source(self, allows: bool) -> (r: Self)
        ensures
            r == (MockSink { allows_compacted_source: allows, ..self }),
    {
        MockSink { allows_compacted_source: allows, ..self }
    }

    /// Have accepted writes reported to `observer`.
    pub fn set_write_observer(&mut self, observer: WriteLog)
        ensures
            *final(self) == (MockSink { write_observer: Some(observer), ..*old(self) }),
    {
        self.write_observer = Some(observer);
    }

    /// Whether a record at `offset` is accepted.
    pub open spec fn takes(&self, offset: u64) -> bool {
        self.write_error is None && offset == self.running_position && offset < u64::MAX
    }
}

impl Sink for MockSink {
    open spec fn valid(&self) -> bool {
        true
    }

    open spec fn tolerates_gaps(&self) -> bool {
        self.allows_compacted_source
    }

    open spec fn accepted_offsets(&self) -> Seq<u64> {
        offsets_of(self.writes@)
    }

    open spec fn reports_position(&self, after: &Self, r: Result<u64, SinkError>) -> bool {
        &&& self.position_program@.len() > 0 ==> r == Ok::<u64, SinkError>(
            self.position_program@[0],
        ) && after.position_program@ == self.position_program@.skip(1)
        &&& self.position_program@.len() == 0 ==> r == Ok::<u64, SinkError>(self.running_position)
            && after.position_program@ == self.position_program@
        &&& *after == (MockSink { position_program: after.position_program, ..*self })
    }

    open spec fn takes_record(
        &self,
        after: &Self,
        record: RecordView,
        r: Result<(), SinkError>,
    ) -> bool {
        &&& r is Ok <==> self.takes(record.source_offset)
        &&& self.write_error matches Some(e) ==> r == Err::<(), SinkError>(e)
        &&& self.write_error is None && record.source_offset != self.running_position ==> r
            == Err::<(), SinkError>(
            SinkError::UnexpectedPosition {
                expected: self.running_position,
                actual: record.source_offset,
            },
        )
        &&& r is Err ==> *after == (MockSink { write_error: None, ..*self })
        &&& r is Ok ==> {
            &&& records_view(after.writes@) == records_view(self.writes@).push(record)
            &&& *after == (MockSink {
                running_position: (self.running_position + 1) as u64,
                writes: after.writes,
                write_observer: after.write_observer,
                ..*self
            })
            &&& match self.write_observer {
                Some(log) => after.write_observer is Some && after.write_observer->0.offsets@
                    == log.offsets@.push(record.source_offset),
                None => after.write_observer is None,
            }
        }
    }

    open spec fn flushes(&self, after: &Self, r: Result<(), SinkError>) -> bool {
        r == Ok::<(), SinkError>(()) && *after == *self
    }

    open spec fn tells_tolerance(&self, after: &Self) -> bool {
        *after == *self
    }

    open spec fn aligns_to(
        &self,
        after: &Self,
        low_watermark: u64,
        r: Result<(), SinkError>,
    ) -> bool {
        r == Ok::<(), SinkError>(()) && *after == (MockSink {
            running_position: low_watermark,
            ..*self
        })
    }

    fn next_expected_offset(&mut self) -> (r: Result<u64, SinkError>) {
        let ghost program = self.position_program@;
        match self.position_program.pop_front() {
            Some(p) => {
                assert(self.position_program@ =~= program.skip(1));
                Ok(p)
            },
            None => Ok(self.running_position),
        }
    }

    fn write(&mut self, record: Record) -> (r: Result<(), SinkError>)
        ensures
            r is Ok ==> final(self).writes@ == old(self).writes@.push(record),
    {
        if let Some(err) = self.write_error.take() {
            return Err(err);
        }
        let offset: u64 = record.source_offset;
        if offset != self.running_position {
            return Err(
                SinkError::UnexpectedPosition { expected: self.running_position, actual: offset },
            );
        }
        if offset == u64::MAX {
            return Err(SinkError::Transport("source offset overflowed u64".to_owned()));
        }
        self.running_position = offset + 1;
        self.writes.push(record);
        assert(offsets_of(self.writes@) =~= offsets_of(old(self).writes@).push(offset));
        assert(records_view(self.writes@) =~= records_view(old(self).writes@).push(record@));
        if let Some(mut log) = self.write_observer.take() {
            log.on_written(offset);
            self.write_observer = Some(log);
        }
        Ok(())
    }

    fn flush(&mut self) -> (r: Result<(), SinkError>) {
        Ok(())
    }

    fn allows_compacted_source(&mut self) -> (r: bool) {
        self.allows_compacted_source
    }

    fn align_to_source_low_watermark(&mut self, low_watermark: u64) -> (r: Result<
        (),
        SinkError,
    >) {
        self.running_position = low_watermark;
        Ok(())
    }
}

/// A notifier that keeps the offsets it was told of, and fails where its
/// script says so.
#[derive(Debug)]
pub struct MockNotifier {
    pub offsets: Vec<u64>,
    /// How often it was shut down.
    pub shutdowns: u64,
    /// The offset at which it fails, and how.
    pub record_error: Option<(u64, NotifyError)>,
    /// How the next shutdown fails.
    pub shutdown_error: Option<NotifyError>,
}

impl MockNotifier {
    pub fn new() -> (r: Self)
        ensures
            r.offsets@ == Seq::<u64>::empty(),
            r.shutdowns == 0,
            r.record_error is None,
            r.shutdown_error is None,
    {
        MockNotifier {
            offsets: Vec::new(),
            shutdowns: 0,
            record_error: None,
            shutdown_error: None,
        }
    }

    /// Fail once, when told of the record at `offset`.
    pub fn with_record_error(self, offset: u64, err: NotifyError) -> (r: Self)
        ensures
            r == (MockNotifier { record_error: Some((offset, err)), ..self }),
    {
        MockNotifier { record_error: Some((offset, err)), ..self }
    }

    /// Fail once, at the next shutdown.
    pub fn with_shutdown_error(self, err: NotifyError) -> (r: Self)
        ensures
            r == (MockNotifier { shutdown_error: Some(err), ..self }),
    {
        MockNotifier { shutdown_error: Some(err), ..self }
    }
}

impl Notifier for MockNotifier {
    open spec fn told(&self) -> Seq<u64> {
        self.offsets@
    }

    open spec fn hears_record(
        &self,
        after: &Self,
        record: RecordView,
        r: Result<(), NotifyError>,
    ) -> bool {
        &&& match self.record_error {
            Some((offset, e)) if offset == record.source_offset => r == Err::<(), NotifyError>(e)
                && after.record_error is None,
            _ => r == Ok::<(), NotifyError>(()) && after.record_error == self.record_error,
        }
        &&& after.offsets@ == self.offsets@.push(record.source_offset)
        &&& *after == (MockNotifier {
            offsets: after.offsets,
            record_error: after.record_error,
            ..*self
        })
    }

    open spec fn drains(&self, after: &Self, r: Result<(), NotifyError>) -> bool {
        &&& r == match self.shutdown_error {
            Some(e) => Err::<(), NotifyError>(e),
            None => Ok::<(), NotifyError>(()),
        }
        &&& *after == (MockNotifier {
            shutdowns: after.shutdowns,
            shutdown_error: None,
            ..*self
        })
        &&& after.shutdowns == if self.shutdowns < u64::MAX {
            self.shutdowns + 1
        } else {
            u64::MAX as int
        }
    }

    fn on_record(&mut self, record: &Record) -> (r: Result<(), NotifyError>) {
        self.offsets.push(record.source_offset);
        match self.record_error.take() {
            Some((offset, e)) => if offset == record.source_offset {
                Err(e)
            } else {
                self.record_error = Some((offset, e));
                Ok(())
            },
            None => Ok(()),
        }
    }

    fn shutdown(&mut self) -> (r: Result<(), NotifyError>) {
        self.shutdowns = self.shutdowns.saturating_add(1);
        match self.shutdown_error.take() {
            Some(e) => Err(e),
            None => Ok(()),
        }
    }
}

/// A record at `offset` whose key and value spell the offset out.
pub fn rec(offset: u64) -> (r: Record)
    requires
        as_signed(offset) + 1_700_000_000_000 <= i64::MAX,
    ensures
        r@ == (RecordView {
            topic: "mock"@,
            partition: 0,
            source_offset: offset,
            timestamp_ms: Some((1_700_000_000_000 + as_signed(offset)) as i64),
            timestamp_type: TimestampType::CreateTime,
            key: Some(encode_utf8("k"@ + dec(offset as nat))),
            value: Some(encode_utf8("v"@ + dec(offset as nat))),
            headers: seq![],
        }),
{
    let headers: Vec<Header> = Vec::new();
    let r = Record {
        topic: "mock".to_owned(),
        partition: 0,
        source_offset: offset,
        timestamp_ms: Some(1_700_000_000_000 + signed(offset)),
        timestamp_type: TimestampType::CreateTime,
        key: Some("k".to_owned().concat(decimal(offset).as_str()).as_str().as_bytes_vec()),
        value: Some("v".to_owned().concat(decimal(offset).as_str()).as_str().as_bytes_vec()),
        headers,
    };
    assert(r@.headers =~= seq![]);
    r
}

} // verus!
