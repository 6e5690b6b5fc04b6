//! A sink that collects records and stores them in batches.
//!
//! The sink decides; storing is up to its owner. A record is taken only at
//! the offset that comes next. Once a limit is reached the owner stores the
//! batch that the sink plans, under the name that says which offsets it
//! holds, and reports back. With compaction a batch is a snapshot of the
//! latest record of every key, and offsets may be missing.
use vstd::prelude::*;
use vstd::string::*;
use vstd::utf8::valid_utf8;

use crate::cache::has_text_key;
use crate::chain::{
    chain_position, ends_fit, scan_validate, scan_validate_compacted, snapshot_position, texts,
    FsError,
};
use crate::column::ColumnType;
use crate::envelope::{
    can_encode, decode_batch, encode_batch, readable, stored_bytes, stored_records, writable,
    Format, ParquetCompression,
};
use crate::error::SinkError;
use crate::naming::{batch_filename, batch_name, joined, partition_dir};
use crate::record::{copy_bytes, records_view, FlushTrigger, HeaderView, Record, RecordView};
use crate::schedule::{advance_daily, later_daily, next_daily, schedule_next_daily};
use crate::snapshot::{
    load_view, loaded, merged, snapshot_fault, Snapshot,
};
use crate::text::{dec, decimal};
use crate::utf8::text_of_bytes;

verus! {

/// How stored records are compacted.
#[derive(Debug, Clone, Copy, PartialEq, Eq, Structural)]
pub enum CompactionMode {
    /// Each file is a snapshot of the latest record of every key.
    Log,
}

/// When collected records are stored: as soon as any limit is reached.
#[derive(Debug, Clone, Copy, PartialEq, Eq, Structural)]
pub struct FlushTriggers {
    /// How long the first collected record may wait, in milliseconds.
    pub max_time_ms: u64,
    pub max_bytes: u64,
    pub max_offsets: u64,
    /// A time of day, in seconds after midnight UTC.
    pub daily_at_utc_seconds: Option<u32>,
}

/// What a sink stores, where and how.
#[derive(Debug)]
pub struct FilesystemSinkConfig {
    pub root: String,
    pub destination_name: String,
    pub partition: u32,
    pub format: Format,
    pub compression: ParquetCompression,
    pub keys: ColumnType,
    pub values: ColumnType,
    pub compaction: Option<CompactionMode>,
    pub flush: FlushTriggers,
}

/// A batch to be stored.
#[derive(Debug)]
pub struct FlushPlan {
    pub from: u64,
    pub to: u64,
    /// The name to store it under.
    pub name: String,
    /// How many collected records it takes in.
    pub count: usize,
    /// What to store.
    pub records: Vec<Record>,
}

/// The state of a sink that stores batches.
pub struct FilesystemSink {
    pub dir: String,
    pub format: Format,
    pub compression: ParquetCompression,
    pub keys: ColumnType,
    pub values: ColumnType,
    pub compaction: Option<CompactionMode>,
    pub flush: FlushTriggers,
    /// Where the next batch starts.
    pub durable_position: u64,
    /// The position that the stored batches show.
    pub stored_position: u64,
    /// The records collected since the last flush.
    pub buffer: Vec<Record>,
    pub buffer_bytes: u64,
    /// When the first of them came, in milliseconds.
    pub buffer_started: Option<u64>,
    /// With compaction, the latest record of every stored key.
    pub view: Option<Snapshot>,
    /// When the daily boundary is next crossed, as unix time.
    pub next_daily_unix: Option<u64>,
}

/// The payload bytes of a header.
pub open spec fn header_size(h: HeaderView) -> nat {
    vstd::utf8::encode_utf8(h.key).len() + match h.value {
        Some(b) => b.len(),
        None => 0,
    }
}

pub open spec fn headers_size(h: Seq<HeaderView>) -> nat
    decreases h.len(),
{
    if h.len() == 0 {
        0
    } else {
        headers_size(h.drop_last()) + header_size(h.last())
    }
}

/// The payload bytes of a record: its key, value and headers.
pub open spec fn record_size(r: RecordView) -> nat {
    (match r.key {
        Some(b) => b.len(),
        None => 0,
    }) + (match r.value {
        Some(b) => b.len(),
        None => 0,
    }) + headers_size(r.headers)
}

pub open spec fn records_size(rs: Seq<RecordView>) -> nat
    decreases rs.len(),
{
    if rs.len() == 0 {
        0
    } else {
        records_size(rs.drop_last()) + record_size(rs.last())
    }
}

/// The payload bytes of a record.
pub fn record_byte_size(record: &Record) -> (n: u64)
    requires
        record_size(record@) <= u64::MAX,
    ensures
        n == record_size(record@),
{
    let key: u64 = match &record.key {
        Some(b) => b.len() as u64,
        None => 0,
    };
    let value: u64 = match &record.value {
        Some(b) => b.len() as u64,
        None => 0,
    };
    let ghost h = record@.headers;
    let mut sum: u64 = 0;
    let mut i: usize = 0;
    assert(h.take(0) =~= seq![]);
    while i < record.headers.len()
        invariant
            i <= record.headers.len(),
            h == record@.headers,
            headers_size(h) <= u64::MAX,
            sum == headers_size(h.take(i as int)),
        decreases record.headers.len() - i,
    {
        let x = &record.headers[i];
        proof {
            assert(h.take(i + 1).drop_last() =~= h.take(i as int));
            assert(h.take(i + 1).last() == x@);
            lemma_headers_grow(h, i + 1);
        }
        let v: u64 = match &x.value {
            Some(b) => b.len() as u64,
            None => 0,
        };
        sum = sum + (x.key.as_str().as_bytes().len() as u64 + v);
        i += 1;
    }
    assert(h.take(i as int) =~= h);
    key + value + sum
}

/// `sum` and `more` together, if they fit.
fn add_up(sum: u64, more: u64) -> (r: Option<u64>)
    ensures
        r == if sum + more <= u64::MAX {
            Some((sum + more) as u64)
        } else {
            None
        },
{
    sum.checked_add(more)
}

/// Whether `sum` and the payload bytes of a record together fit.
pub fn size_fits(sum: u64, record: &Record) -> (r: bool)
    ensures
        r == (sum + record_size(record@) <= u64::MAX),
{
    let key: u64 = match &record.key {
        Some(b) => b.len() as u64,
        None => 0,
    };
    let value: u64 = match &record.value {
        Some(b) => b.len() as u64,
        None => 0,
    };
    let mut total: u64 = match add_up(sum, key) {
        Some(n) => n,
        None => {
            return false;
        },
    };
    total = match add_up(total, value) {
        Some(n) => n,
        None => {
            return false;
        },
    };
    let ghost start = total;
    let ghost h = record@.headers;
    let mut i: usize = 0;
    assert(h.take(0) =~= seq![]);
    while i < record.headers.len()
        invariant
            i <= record.headers.len(),
            h == record@.headers,
            start + headers_size(h) == sum + record_size(record@),
            total == start + headers_size(h.take(i as int)),
        decreases record.headers.len() - i,
    {
        let x = &record.headers[i];
        proof {
            assert(h.take(i + 1).drop_last() =~= h.take(i as int));
            assert(h.take(i + 1).last() == x@);
            lemma_headers_grow(h, i + 1);
        }
        let v: u64 = match &x.value {
            Some(b) => b.len() as u64,
            None => 0,
        };
        total = match add_up(total, x.key.as_str().as_bytes().len() as u64) {
            Some(n) => n,
            None => {
                return false;
            },
        };
        total = match add_up(total, v) {
            Some(n) => n,
            None => {
                return false;
            },
        };
        i += 1;
    }
    assert(h.take(i as int) =~= h);
    true
}

proof fn lemma_headers_grow(h: Seq<HeaderView>, i: int)
    requires
        0 <= i <= h.len(),
    ensures
        headers_size(h.take(i)) <= headers_size(h),
    decreases h.len() - i,
{
    if i < h.len() {
        assert(h.take(i + 1).drop_last() =~= h.take(i));
        lemma_headers_grow(h, i + 1);
    } else {
        assert(h.take(i) =~= h);
    }
}

impl FilesystemSink {
    /// Whether offsets may be missing.
    pub open spec fn compacted(&self) -> bool {
        self.compaction is Some
    }

    /// The offset that the sink takes next.
    pub open spec fn head(&self) -> int {
        if self.buffer@.len() == 0 {
            self.durable_position as int
        } else {
            self.buffer@.last().source_offset + 1
        }
    }

    /// What holds of the sink between calls. Collected records follow the
    /// stored ones, without a gap unless offsets may be missing; with
    /// compaction every collected record has a key that is text.
    pub open spec fn wf(&self) -> bool {
        let b = self.buffer@;
        &&& self.stored_position <= self.durable_position
        &&& self.compacted() <==> self.view is Some
        &&& self.view matches Some(v) ==> v.wf()
        &&& !self.compacted() ==> self.stored_position == self.durable_position
        &&& forall|i: int|
            0 <= i < b.len() ==> self.durable_position <= (#[trigger] b[i]).source_offset
                && b[i].source_offset < u64::MAX
        &&& forall|i: int, j: int|
            0 <= i < j < b.len() ==> b[i].source_offset < b[j].source_offset
        &&& !self.compacted() ==> forall|i: int|
            0 <= i < b.len() ==> (#[trigger] b[i]).source_offset == self.durable_position + i
        &&& self.compacted() ==> forall|i: int|
            0 <= i < b.len() ==> has_text_key((#[trigger] b[i])@)
        &&& records_size(records_view(b)) <= self.buffer_bytes
        &&& b.len() > 0 ==> self.buffer_started is Some
    }

    /// Whether the bytes and the start that the sink counts with are those
    /// of what it has collected. They are but for a batch that was planned
    /// and never stored: the sink counts that in until it stores the next.
    pub open spec fn settled(&self) -> bool {
        &&& self.buffer_bytes == records_size(records_view(self.buffer@))
        &&& self.buffer_started is Some <==> self.buffer@.len() > 0
    }

    /// The contents of the stored snapshot.
    pub open spec fn snapshot(&self) -> Map<Seq<char>, RecordView> {
        self.view->0.contents()
    }

    /// Open a sink on what a listing of its directory shows. With
    /// compaction, `snapshot` holds the records of the latest snapshot that
    /// the listing shows, and `snapshot_path` names it in errors.
    pub fn open(
        cfg: FilesystemSinkConfig,
        names: &Vec<String>,
        snapshot_path: &str,
        snapshot: Vec<Record>,
        now_unix: u64,
    ) -> (r: Result<Self, FsError>)
        requires
            ends_fit(texts(names@), cfg.format.file_extension()),
            cfg.flush.daily_at_utc_seconds matches Some(t) ==> next_daily(
                t as int,
                now_unix as int,
            ) <= u64::MAX,
        ensures
            cfg.compaction is None ==> match chain_position(
                texts(names@),
                cfg.format.file_extension(),
            ) {
                Err(e) => r matches Err(FsError::CorruptChain { msg }) && msg@ == e,
                Ok(p) => r matches Ok(s) && s.durable_position == p && s.view is None,
            },
            cfg.compaction is Some ==> match snapshot_position(
                texts(names@),
                cfg.format.file_extension(),
            ) {
                Err(e) => r matches Err(FsError::CorruptChain { msg }) && msg@ == e,
                Ok((p, latest)) => if latest is None {
                    r matches Ok(s) && s.durable_position == p && s.snapshot() == Map::<
                        Seq<char>,
                        RecordView,
                    >::empty()
                } else {
                    match snapshot_fault(snapshot_path@, records_view(snapshot@)) {
                        Some(e) => r matches Err(FsError::CorruptChain { msg }) && msg@ == e,
                        None => r matches Ok(s) && s.durable_position == p && s.snapshot()
                            == loaded(records_view(snapshot@)),
                    }
                },
            },
            r matches Ok(s) ==> {
                &&& s.wf()
                &&& s.settled()
                &&& s.buffer@.len() == 0
                &&& s.stored_position == s.durable_position
                &&& s.dir@ == joined(
                    joined(cfg.root@, cfg.destination_name@),
                    dec(cfg.partition as nat),
                )
                &&& s.format == cfg.format
                &&& s.compression == cfg.compression
                &&& s.keys == cfg.keys
                &&& s.values == cfg.values
                &&& s.compaction == cfg.compaction
                &&& s.flush == cfg.flush
                &&& match cfg.flush.daily_at_utc_seconds {
                    None => s.next_daily_unix is None,
                    Some(t) => s.next_daily_unix matches Some(at) && at == next_daily(
                        t as int,
                        now_unix as int,
                    ),
                }
            },
    {
        let dir = partition_dir(cfg.root.as_str(), cfg.destination_name.as_str(), cfg.partition);
        let ext = cfg.format.extension();
        let (position, view) = match cfg.compaction {
            None => match scan_validate(names, ext) {
                Ok(p) => (p, None),
                Err(e) => {
                    return Err(e);
                },
            },
            Some(CompactionMode::Log) => match scan_validate_compacted(names, ext) {
                Ok((p, None)) => (p, Some(Snapshot::new())),
                Ok((p, Some(_))) => match load_view(snapshot_path, snapshot) {
                    Ok(v) => (p, Some(v)),
                    Err(e) => {
                        return Err(e);
                    },
                },
                Err(e) => {
                    return Err(e);
                },
            },
        };
        let next_daily_unix = match cfg.flush.daily_at_utc_seconds {
            None => None,
            Some(t) => Some(schedule_next_daily(t, now_unix)),
        };
        Ok(
            FilesystemSink {
                dir,
                format: cfg.format,
                compression: cfg.compression,
                keys: cfg.keys,
                values: cfg.values,
                compaction: cfg.compaction,
                flush: cfg.flush,
                durable_position: position,
                stored_position: position,
                buffer: Vec::new(),
                buffer_bytes: 0,
                buffer_started: None,
                view,
                next_daily_unix,
            },
        )
    }

    /// The offset that the sink takes next.
    pub fn buffered_head(&self) -> (h: u64)
        requires
            self.wf(),
        ensures
            h == self.head(),
    {
        if self.buffer.len() == 0 {
            self.durable_position
        } else {
            self.buffer[self.buffer.len() - 1].source_offset + 1
        }
    }

    /// Whether the daily boundary was crossed.
    pub open spec fn daily_due(&self, now_unix: u64) -> bool {
        self.next_daily_unix matches Some(at) && now_unix >= at
    }

    /// Attend to the daily boundary. If it was crossed and anything was
    /// collected before it, that has to be stored first: the answer is
    /// then `true`, and the boundary stays until the next call. Otherwise
    /// a crossed boundary moves past `now_unix`, however many days were
    /// slept through.
    pub fn tick_daily(&mut self, now_unix: u64) -> (flush: bool)
        requires
            old(self).wf(),
            old(self).next_daily_unix matches Some(at) ==> later_daily(
                at as int,
                now_unix as int,
            ) <= u64::MAX,
        ensures
            final(self).wf(),
            flush == (old(self).daily_due(now_unix) && old(self).buffer@.len() > 0),
            flush || !old(self).daily_due(now_unix) ==> *final(self) == *old(self),
            !flush && old(self).daily_due(now_unix) ==> {
                &&& *final(self) == (FilesystemSink {
                    next_daily_unix: final(self).next_daily_unix,
                    ..*old(self)
                })
                &&& final(self).next_daily_unix matches Some(t) && t == later_daily(
                    old(self).next_daily_unix->0 as int,
                    now_unix as int,
                )
            },
    {
        if let Some(at) = self.next_daily_unix {
            if now_unix >= at {
                if self.buffer.len() > 0 {
                    return true;
                }
                self.next_daily_unix = Some(advance_daily(at, now_unix));
            }
        }
        false
    }

    /// What makes the sink store what it collected at time `now`, if
    /// anything.
    pub open spec fn trigger(&self, now: u64) -> Option<FlushTrigger> {
        if self.buffer@.len() == 0 {
            None
        } else if self.buffer@.len() >= self.flush.max_offsets {
            Some(FlushTrigger::MaxOffsets)
        } else if self.buffer_bytes >= self.flush.max_bytes {
            Some(FlushTrigger::MaxBytes)
        } else if self.buffer_started matches Some(t) && (if now >= t {
            now - t
        } else {
            0
        }) >= self.flush.max_time_ms {
            Some(FlushTrigger::MaxTime)
        } else {
            None
        }
    }

    /// Whether a limit is reached.
    pub fn should_flush(&self, now_ms: u64) -> (r: Option<FlushTrigger>)
        ensures
            r == self.trigger(now_ms),
            r is Some <==> self.buffer@.len() > 0 && {
                ||| self.buffer@.len() >= self.flush.max_offsets
                ||| self.buffer_bytes >= self.flush.max_bytes
                ||| self.buffer_started matches Some(t) && (now_ms >= t + self.flush.max_time_ms
                    || self.flush.max_time_ms == 0)
            },
    {
        if self.buffer.len() == 0 {
            return None;
        }
        if self.buffer.len() as u64 >= self.flush.max_offsets {
            return Some(FlushTrigger::MaxOffsets);
        }
        if self.buffer_bytes >= self.flush.max_bytes {
            return Some(FlushTrigger::MaxBytes);
        }
        if let Some(t) = self.buffer_started {
            if now_ms.saturating_sub(t) >= self.flush.max_time_ms {
                return Some(FlushTrigger::MaxTime);
            }
        }
        None
    }

    /// Whether the sink has room for a record: the bytes of what it has
    /// collected can still be counted with it.
    pub fn has_room(&self, record: &Record) -> (r: bool)
        ensures
            r == (self.buffer_bytes + record_size(record@) <= u64::MAX),
    {
        size_fits(self.buffer_bytes, record)
    }

    /// Whether a record at `offset` comes next: exactly the next offset,
    /// or, where offsets may be missing, one that is not lower.
    pub open spec fn in_turn(&self, offset: u64) -> bool {
        if self.compacted() {
            self.head() <= offset
        } else {
            offset == self.head()
        }
    }

    /// Collect a record. It must come next; with compaction it needs a key
    /// that is text. The answer says whether a limit is reached.
    pub fn write(&mut self, record: Record, now_ms: u64) -> (r: Result<
        Option<FlushTrigger>,
        SinkError,
    >)
        requires
            old(self).wf(),
            old(self).in_turn(record.source_offset) ==> record.source_offset < u64::MAX,
            old(self).in_turn(record.source_offset) ==> old(self).buffer_bytes + record_size(
                record@,
            ) <= u64::MAX,
        ensures
            final(self).wf(),
            old(self).settled() ==> final(self).settled(),
            r is Err ==> *final(self) == *old(self),
            !old(self).in_turn(record.source_offset) ==> (r matches Err(
                SinkError::UnexpectedPosition { expected, actual },
            ) && expected == old(self).head() && actual == record.source_offset),
            old(self).in_turn(record.source_offset) && old(self).compacted() && record.key is None
                ==> (r matches Err(SinkError::Transport(m)) && m@
                == "compaction=log requires a non-null key; record at source offset "@ + dec(
                record.source_offset as nat,
            ) + " has key=null"@),
            old(self).in_turn(record.source_offset) && old(self).compacted() && (record@.key matches Some(
                k,
            ) && !valid_utf8(k)) ==> (r matches Err(SinkError::Transport(m)) && m@
                == "compaction=log requires a UTF-8 key; record at source offset "@ + dec(
                record.source_offset as nat,
            ) + " has non-UTF-8 key"@),
            old(self).in_turn(record.source_offset) && (old(self).compacted() ==> has_text_key(
                record@,
            )) ==> {
                &&& r is Ok
                &&& r->Ok_0 == final(self).trigger(now_ms)
                &&& final(self).buffer@ == old(self).buffer@.push(record)
                &&& final(self).buffer_bytes == old(self).buffer_bytes + record_size(record@)
                &&& final(self).buffer_started == match old(self).buffer_started {
                    Some(t) => Some(t),
                    None => Some(now_ms),
                }
                &&& *final(self) == (FilesystemSink {
                    buffer: final(self).buffer,
                    buffer_bytes: final(self).buffer_bytes,
                    buffer_started: final(self).buffer_started,
                    ..*old(self)
                })
            },
    {
        let expected: u64 = self.buffered_head();
        let offset: u64 = record.source_offset;
        let compacted = self.compaction.is_some();
        if if compacted {
            offset < expected
        } else {
            offset != expected
        } {
            return Err(SinkError::UnexpectedPosition { expected, actual: offset });
        }
        if compacted {
            match &record.key {
                None => {
                    return Err(
                        SinkError::Transport(
                            "compaction=log requires a non-null key; record at source offset ".to_owned().concat(
                                decimal(offset).as_str(),
                            ).concat(" has key=null"),
                        ),
                    );
                },
                Some(k) => {
                    if text_of_bytes(k.as_slice()).is_err() {
                        return Err(
                            SinkError::Transport(
                                "compaction=log requires a UTF-8 key; record at source offset ".to_owned().concat(
                                    decimal(offset).as_str(),
                                ).concat(" has non-UTF-8 key"),
                            ),
                        );
                    }
                },
            }
        }
        let size: u64 = record_byte_size(&record);
        let ghost before = self.buffer@;
        self.buffer.push(record);
        self.buffer_bytes = self.buffer_bytes + size;
        if self.buffer_started.is_none() {
            self.buffer_started = Some(now_ms);
        }
        proof {
            let rs = records_view(self.buffer@);
            assert(rs.drop_last() =~= records_view(before));
            assert(rs.last() == record@);
        }
        Ok(self.should_flush(now_ms))
    }

    /// What a flush stores: the collected records, or with compaction the
    /// latest record of every key, in the order of keys.
    pub open spec fn plans(&self, plan: FlushPlan, after: &FilesystemSink) -> bool {
        &&& plan.from == self.durable_position
        &&& plan.to == self.buffer@.last().source_offset
        &&& plan.name@ == batch_name(plan.from, plan.to, self.format.file_extension())
        &&& plan.count == self.buffer@.len()
        &&& !self.compacted() ==> plan.records@ == self.buffer@ && after.view is None
        &&& self.compacted() ==> {
            &&& after.view is Some
            &&& after.view->0.wf()
            &&& after.snapshot() == merged(self.snapshot(), records_view(self.buffer@))
            &&& records_view(plan.records@) == after.view->0.entries().map_values(
                |e: (Seq<char>, RecordView)| e.1,
            )
        }
    }

    /// Plan the batch that stores what was collected, if anything was. Until
    /// it hears that the batch is stored, the sink stands where it stood
    /// before it collected the batch, and counts its bytes and its start in.
    pub fn flush_now(&mut self) -> (r: Option<FlushPlan>)
        requires
            old(self).wf(),
        ensures
            r is Some <==> old(self).buffer@.len() > 0,
            final(self).wf(),
            r is None ==> *final(self) == *old(self),
            r matches Some(plan) ==> {
                &&& old(self).plans(plan, final(self))
                &&& plan.from <= plan.to
                &&& plan.to < u64::MAX
                &&& final(self).buffer@.len() == 0
                &&& *final(self) == (FilesystemSink {
                    buffer: final(self).buffer,
                    view: final(self).view,
                    ..*old(self)
                })
            },
    {
        let count: usize = self.buffer.len();
        if count == 0 {
            return None;
        }
        let from: u64 = self.durable_position;
        let to: u64 = self.buffer[count - 1].source_offset;
        let name = batch_filename(from, to, self.format.extension());
        let mut taken: Vec<Record> = Vec::new();
        taken.append(&mut self.buffer);
        assert(taken@ =~= old(self).buffer@);
        let records = match self.view.take() {
            None => taken,
            Some(view) => {
                let mut view = view;
                view.merge(taken);
                let records = view.records();
                self.view = Some(view);
                records
            },
        };
        assert(records_view(self.buffer@) =~= seq![]);
        Some(FlushPlan { from, to, name, count, records })
    }

    /// A batch was stored.
    pub open spec fn flushed(&self, to: u64) -> FilesystemSink {
        FilesystemSink {
            durable_position: (to + 1) as u64,
            stored_position: (to + 1) as u64,
            buffer_bytes: 0,
            buffer_started: None,
            ..*self
        }
    }

    /// Take in that the planned batch is stored. It starts where the sink
    /// stands, and nothing was collected since it was planned.
    pub fn finish_flush(&mut self, plan: &FlushPlan)
        requires
            old(self).wf(),
            old(self).buffer@.len() == 0,
            plan.from == old(self).durable_position,
            plan.from <= plan.to,
            plan.to < u64::MAX,
        ensures
            final(self).wf(),
            final(self).settled(),
            *final(self) == old(self).flushed(plan.to),
    {
        self.durable_position = plan.to + 1;
        self.stored_position = plan.to + 1;
        self.buffer_bytes = 0;
        self.buffer_started = None;
        assert(records_view(self.buffer@) =~= seq![]);
    }

    /// The bytes of a planned batch.
    pub fn encode(&self, plan: &FlushPlan) -> (r: Result<Vec<u8>, SinkError>)
        requires
            writable(self.format, self.keys, self.values, records_view(plan.records@)),
        ensures
            match (
                r,
                stored_bytes(
                    self.format,
                    self.compression,
                    self.keys,
                    self.values,
                    records_view(plan.records@),
                ),
            ) {
                (Ok(v), Ok(b)) => v@ == b,
                (Err(SinkError::Transport(m)), Err(e)) => m@ == "encode: "@ + ("encode: "@ + e),
                _ => false,
            },
            r matches Ok(v) ==> readable(self.format, v@) && stored_records(self.format, v@) == Ok::<
                Seq<RecordView>,
                Seq<char>,
            >(records_view(plan.records@)),
    {
        match encode_batch(self.format, self.compression, self.keys, self.values, &plan.records) {
            Ok(b) => Ok(b),
            Err(e) => Err(
                SinkError::Transport("encode: ".to_owned().concat(e.message().as_str())),
            ),
        }
    }

    /// The bytes of a planned batch, as `encode` gives them, if it can be
    /// written.
    pub fn encode_if_writable(&self, plan: &FlushPlan) -> (r: Option<Result<Vec<u8>, SinkError>>)
        ensures
            r is Some <==> writable(
                self.format,
                self.keys,
                self.values,
                records_view(plan.records@),
            ),
            r matches Some(written) ==> {
                &&& match (
                    written,
                    stored_bytes(
                        self.format,
                        self.compression,
                        self.keys,
                        self.values,
                        records_view(plan.records@),
                    ),
                ) {
                    (Ok(v), Ok(b)) => v@ == b,
                    (Err(SinkError::Transport(m)), Err(e)) => m@ == "encode: "@ + ("encode: "@
                        + e),
                    _ => false,
                }
                &&& written matches Ok(v) ==> readable(self.format, v@) && stored_records(
                    self.format,
                    v@,
                ) == Ok::<
                    Seq<RecordView>,
                    Seq<char>,
                >(records_view(plan.records@))
            },
    {
        if can_encode(self.format, self.keys, self.values, &plan.records) {
            Some(self.encode(plan))
        } else {
            None
        }
    }

    /// The bytes of a planned batch, if it can be written, and the records
    /// that a restart will read from them: those of the batch or, with
    /// compaction, the snapshot that they make up.
    pub fn encode_and_read_back(&self, plan: &FlushPlan) -> (r: Option<
        Result<(Vec<u8>, Result<Vec<Record>, FsError>), SinkError>,
    >)
        ensures
            r is Some <==> writable(
                self.format,
                self.keys,
                self.values,
                records_view(plan.records@),
            ),
            r matches Some(written) ==> match (
                written,
                stored_bytes(
                    self.format,
                    self.compression,
                    self.keys,
                    self.values,
                    records_view(plan.records@),
                ),
            ) {
                (Ok((v, back)), Ok(b)) => {
                    &&& v@ == b
                    &&& !self.compacted() ==> (back matches Ok(rs) && records_view(rs@)
                        == records_view(plan.records@))
                    &&& self.compacted() ==> match snapshot_fault(
                        plan.name@,
                        records_view(plan.records@),
                    ) {
                        Some(f) => back matches Err(FsError::CorruptChain { msg }) && msg@ == f,
                        None => back matches Ok(rs) && exists|s: Snapshot| #[trigger]
                            s.wf() && s.contents() == loaded(records_view(plan.records@))
                                && records_view(rs@) == s.entries().map_values(
                                |e: (Seq<char>, RecordView)| e.1,
                            ),
                    }
                },
                (Err(SinkError::Transport(m)), Err(e)) => m@ == "encode: "@ + ("encode: "@ + e),
                _ => false,
            },
    {
        match self.encode_if_writable(plan) {
            None => None,
            Some(Err(e)) => Some(Err(e)),
            Some(Ok(bytes)) => {
                let back = match self.compaction {
                    None => {
                        let copy = copy_bytes(&bytes);
                        let files = vec![(plan.name.clone(), copy)];
                        proof {
                            assert(files@.drop_last() =~= seq![]);
                            assert(files_records(self.format, files@.drop_last()) == Ok::<
                                Seq<RecordView>,
                                Seq<char>,
                            >(seq![]));
                            assert(seq![] + records_view(plan.records@) =~= records_view(
                                plan.records@,
                            ));
                        }
                        read_all_records(self.format, &files)
                    },
                    Some(CompactionMode::Log) => read_latest_snapshot(
                        plan.name.as_str(),
                        self.format,
                        bytes.as_slice(),
                    ),
                };
                Some(Ok((bytes, back)))
            },
        }
    }

    /// The position that a listing shows to this sink.
    pub open spec fn shown(&self, names: Seq<Seq<char>>) -> Result<int, Seq<char>> {
        if self.compacted() {
            match snapshot_position(names, self.format.file_extension()) {
                Ok((p, _)) => Ok(p),
                Err(e) => Err(e),
            }
        } else {
            chain_position(names, self.format.file_extension())
        }
    }

    /// The offset that the sink takes next, after a look at a listing: it
    /// must show the position that the sink left behind.
    pub fn next_expected_offset(&self, names: &Vec<String>) -> (r: Result<u64, SinkError>)
        requires
            self.wf(),
            ends_fit(texts(names@), self.format.file_extension()),
        ensures
            match self.shown(texts(names@)) {
                Err(e) => r matches Err(SinkError::Transport(m)) && m@
                    == "destination chain is corrupt: "@ + e,
                Ok(p) => if p == self.stored_position {
                    r matches Ok(h) && h == self.head()
                } else {
                    r matches Err(SinkError::UnexpectedPosition { expected, actual }) && expected
                        == self.stored_position && actual == p
                },
            },
    {
        let ext = self.format.extension();
        let on_disk = match self.compaction {
            None => scan_validate(names, ext),
            Some(CompactionMode::Log) => match scan_validate_compacted(names, ext) {
                Ok((p, _)) => Ok(p),
                Err(e) => Err(e),
            },
        };
        match on_disk {
            Err(e) => Err(SinkError::Transport(e.message())),
            Ok(p) => if p != self.stored_position {
                Err(SinkError::UnexpectedPosition { expected: self.stored_position, actual: p })
            } else {
                Ok(self.buffered_head())
            },
        }
    }

    /// Whether this sink tolerates offsets that the source no longer has.
    pub fn allows_compacted_source(&self) -> (r: bool)
        ensures
            r == self.compacted(),
    {
        self.compaction.is_some()
    }

    /// Move the next expected offset up to `low_watermark`. Only a sink
    /// with compaction that has collected nothing can do that, and it does
    /// not move back.
    pub fn align_to_source_low_watermark(&mut self, low_watermark: u64) -> (r: Result<
        (),
        SinkError,
    >)
        requires
            old(self).wf(),
        ensures
            final(self).wf(),
            r is Ok <==> old(self).compacted() && old(self).buffer@.len() == 0
                && old(self).durable_position <= low_watermark,
            r is Ok ==> *final(self) == (FilesystemSink {
                durable_position: low_watermark,
                ..*old(self)
            }),
            r is Err ==> *final(self) == *old(self),
            !old(self).compacted() ==> (r matches Err(SinkError::Transport(m)) && m@
                == "align_to_source_low_watermark called on a non-compaction sink"@),
            old(self).compacted() && old(self).buffer@.len() > 0 ==> (r matches Err(
                SinkError::Transport(m),
            ) && m@ == "align_to_source_low_watermark in inconsistent state: "@ + dec(
                old(self).buffer@.len(),
            ) + " records are buffered"@),
            old(self).compacted() && old(self).buffer@.len() == 0 && low_watermark
                < old(self).durable_position ==> (r matches Err(
                SinkError::UnexpectedPosition { expected, actual },
            ) && expected == old(self).durable_position && actual == low_watermark),
    {
        if self.compaction.is_none() {
            return Err(
                SinkError::Transport(
                    "align_to_source_low_watermark called on a non-compaction sink".to_owned(),
                ),
            );
        }
        if self.buffer.len() > 0 {
            return Err(
                SinkError::Transport(
                    "align_to_source_low_watermark in inconsistent state: ".to_owned().concat(
                        decimal(self.buffer.len() as u64).as_str(),
                    ).concat(" records are buffered"),
                ),
            );
        }
        if low_watermark < self.durable_position {
            return Err(
                SinkError::UnexpectedPosition {
                    expected: self.durable_position,
                    actual: low_watermark,
                },
            );
        }
        self.durable_position = low_watermark;
        Ok(())
    }
}

/// The records of a stored file; `path` names it in errors.
pub fn decode_file(path: &str, format: Format, bytes: &[u8]) -> (r: Result<Vec<Record>, FsError>)
    requires
        readable(format, bytes@),
    ensures
        match (r, stored_records(format, bytes@)) {
            (Ok(v), Ok(x)) => records_view(v@) == x,
            (Err(FsError::CorruptChain { msg }), Err(e)) => msg@ == "decode "@ + path@ + ": "@ + (
            "decode: "@ + e),
            _ => false,
        },
{
    match decode_batch(format, bytes) {
        Ok(v) => Ok(v),
        Err(e) => Err(
            FsError::CorruptChain {
                msg: "decode ".to_owned().concat(path).concat(": ").concat(e.message().as_str()),
            },
        ),
    }
}

/// The records of the latest snapshot, in the order of keys. `bytes` are
/// those of the file that a listing shows as the latest.
pub fn read_latest_snapshot(path: &str, format: Format, bytes: &[u8]) -> (r: Result<
    Vec<Record>,
    FsError,
>)
    requires
        readable(format, bytes@),
    ensures
        match stored_records(format, bytes@) {
            Err(e) => r matches Err(FsError::CorruptChain { msg }) && msg@ == "decode "@ + path@
                + ": "@ + ("decode: "@ + e),
            Ok(rs) => match snapshot_fault(path@, rs) {
                Some(f) => r matches Err(FsError::CorruptChain { msg }) && msg@ == f,
                None => r matches Ok(v) && exists|s: Snapshot| #[trigger]
                    s.wf() && s.contents() == loaded(rs) && records_view(v@)
                        == s.entries().map_values(|e: (Seq<char>, RecordView)| e.1),
            },
        },
{
    let records = match decode_file(path, format, bytes) {
        Ok(v) => v,
        Err(e) => {
            return Err(e);
        },
    };
    match load_view(path, records) {
        Ok(s) => {
            let v = s.records();
            assert(s.wf() && s.contents() == loaded(records_view(records@)));
            Ok(v)
        },
        Err(e) => Err(e),
    }
}

/// The records of stored files, one after the other, or the first error.
pub open spec fn files_records(format: Format, files: Seq<(String, Vec<u8>)>) -> Result<
    Seq<RecordView>,
    Seq<char>,
>
    decreases files.len(),
{
    if files.len() == 0 {
        Ok(seq![])
    } else {
        match files_records(format, files.drop_last()) {
            Err(e) => Err(e),
            Ok(before) => match stored_records(format, files.last().1@) {
                Err(e) => Err("decode "@ + files.last().0@ + ": "@ + ("decode: "@ + e)),
                Ok(rs) => Ok(before + rs),
            },
        }
    }
}

proof fn lemma_files_fault_stays(format: Format, files: Seq<(String, Vec<u8>)>, i: int)
    requires
        0 <= i <= files.len(),
        files_records(format, files.take(i)) is Err,
    ensures
        files_records(format, files) == files_records(format, files.take(i)),
    decreases files.len() - i,
{
    if i < files.len() {
        assert(files.take(i + 1).drop_last() =~= files.take(i));
        lemma_files_fault_stays(format, files, i + 1);
    } else {
        assert(files.take(i) =~= files);
    }
}

/// Every record of a partition, from its files and their contents in the
/// order of offsets.
pub fn read_all_records(format: Format, files: &Vec<(String, Vec<u8>)>) -> (r: Result<
    Vec<Record>,
    FsError,
>)
    requires
        forall|i: int| 0 <= i < files.len() ==> readable(format, (#[trigger] files@[i]).1@),
    ensures
        match (r, files_records(format, files@)) {
            (Ok(v), Ok(x)) => records_view(v@) == x,
            (Err(FsError::CorruptChain { msg }), Err(e)) => msg@ == e,
            _ => false,
        },
{
    let mut out: Vec<Record> = Vec::new();
    let mut i: usize = 0;
    assert(files@.take(0) =~= seq![]);
    assert(records_view(out@) =~= seq![]);
    while i < files.len()
        invariant
            forall|j: int| 0 <= j < files.len() ==> readable(format, (#[trigger] files@[j]).1@),
            i <= files.len(),
            files_records(format, files@.take(i as int)) == Ok::<Seq<RecordView>, Seq<char>>(
                records_view(out@),
            ),
        decreases files.len() - i,
    {
        let ghost before = records_view(out@);
        proof {
            assert(files@.take(i + 1).drop_last() =~= files@.take(i as int));
            assert(files@.take(i + 1).last() == files@[i as int]);
        }
        match decode_file(files[i].0.as_str(), format, files[i].1.as_slice()) {
            Ok(rs) => {
                let mut rs = rs;
                let ghost added = records_view(rs@);
                out.append(&mut rs);
                assert(records_view(out@) =~= before + added);
            },
            Err(e) => {
                proof {
                    lemma_files_fault_stays(format, files@, i + 1);
                }
                return Err(e);
            },
        }
        i += 1;
    }
    assert(files@.take(i as int) =~= files@);
    Ok(out)
}

/// A flush leaves the next offset where it was: it moves the stored
/// position up to it.
pub proof fn law_flush_keeps_the_head(s: FilesystemSink, plan: FlushPlan, after: FilesystemSink)
    requires
        s.wf(),
        s.buffer@.len() > 0,
        s.plans(plan, &after),
    ensures
        s.head() == plan.to + 1,
        after.flushed(plan.to).durable_position == s.head(),
        plan.from <= plan.to,
        plan.to < u64::MAX,
{
    let last = s.buffer@[s.buffer@.len() - 1];
    assert(s.durable_position <= last.source_offset);
}

/// Without compaction a batch holds exactly the offsets that its name
/// says: every offset from `from` up to `to`, in order.
pub proof fn law_batch_holds_what_its_name_says(
    s: FilesystemSink,
    plan: FlushPlan,
    after: FilesystemSink,
)
    requires
        s.wf(),
        s.buffer@.len() > 0,
        !s.compacted(),
        s.plans(plan, &after),
    ensures
        plan.records@.len() == plan.to - plan.from + 1,
        forall|i: int|
            0 <= i < plan.records@.len() ==> (#[trigger] plan.records@[i]).source_offset
                == plan.from + i,
{
    let n = s.buffer@.len();
    assert(s.buffer@[n - 1].source_offset == s.durable_position + (n - 1));
    assert forall|i: int| 0 <= i < plan.records@.len() implies (
    #[trigger] plan.records@[i]).source_offset == plan.from + i by {
        assert(s.buffer@[i].source_offset == s.durable_position + i);
    }
}

/// Reading every file gives every record back, in order: where each file
/// holds a batch, the files hold the batches one after the other.
pub proof fn law_stored_files_give_the_records_back(
    format: Format,
    files: Seq<(String, Vec<u8>)>,
    stored: Seq<Seq<RecordView>>,
)
    requires
        files.len() == stored.len(),
        forall|i: int|
            0 <= i < files.len() ==> stored_records(format, (#[trigger] files[i]).1@) == Ok::<
                Seq<RecordView>,
                Seq<char>,
            >(stored[i]),
    ensures
        files_records(format, files) == Ok::<Seq<RecordView>, Seq<char>>(stored.flatten()),
    decreases files.len(),
{
    if files.len() == 0 {
        assert(stored.flatten() =~= seq![]);
    } else {
        let f = files.drop_last();
        let t = stored.drop_last();
        assert forall|i: int| 0 <= i < f.len() implies stored_records(
            format,
            (#[trigger] f[i]).1@,
        ) == Ok::<Seq<RecordView>, Seq<char>>(t[i]) by {
            assert(f[i] == files[i]);
        }
        law_stored_files_give_the_records_back(format, f, t);
        assert(stored_records(format, files[files.len() - 1].1@) == Ok::<
            Seq<RecordView>,
            Seq<char>,
        >(stored.last()));
        assert(stored =~= t.push(stored.last()));
        t.lemma_flatten_push(stored.last());
    }
}

/// A batch never takes the name of a stored one: as long as the directory
/// shows the position that the sink left behind, the name of its next
/// batch is not listed.
pub proof fn law_batch_names_are_free(
    s: FilesystemSink,
    plan: FlushPlan,
    after: FilesystemSink,
    names: Seq<Seq<char>>,
)
    requires
        s.wf(),
        s.buffer@.len() > 0,
        s.plans(plan, &after),
        s.shown(names) == Ok::<int, Seq<char>>(s.stored_position as int),
        crate::chain::all_fit(crate::chain::entries(names, s.format.file_extension())->Ok_0),
    ensures
        !names.contains(plan.name@),
{
    law_flush_keeps_the_head(s, plan, after);
    let ext = s.format.file_extension();
    lemma_plain_extension(s.format);
    if s.compacted() {
        crate::chain_laws::law_next_snapshot_is_not_listed(names, ext, plan.from, plan.to);
    } else {
        crate::chain_laws::law_next_batch_is_not_listed(names, ext, plan.from, plan.to);
    }
}

pub proof fn lemma_plain_extension(f: Format)
    ensures
        crate::chain_laws::plain(f.file_extension()),
{
    let ext = f.file_extension();
    reveal_strlit("parquet");
    reveal_strlit("ndjson");
    if ext.contains('.') {
        let i = ext.index_of('.');
        assert(ext[i] == '.');
    }
}

/// A sink that is opened again on the directory that it left resumes at
/// its next offset: the listing that it accepted, with the flushed batch
/// added, in any order, shows the position after the batch.
pub proof fn law_reopened_sink_resumes(
    s: FilesystemSink,
    plan: FlushPlan,
    after: FilesystemSink,
    names: Seq<Seq<char>>,
    listed: Seq<Seq<char>>,
)
    requires
        s.wf(),
        s.buffer@.len() > 0,
        s.plans(plan, &after),
        s.shown(names) == Ok::<int, Seq<char>>(s.stored_position as int),
        crate::chain::all_fit(crate::chain::entries(names, s.format.file_extension())->Ok_0),
        listed.to_multiset() == names.to_multiset().insert(plan.name@),
    ensures
        s.shown(listed) == Ok::<int, Seq<char>>(s.head()),
        after.flushed(plan.to).stored_position == s.head(),
{
    law_flush_keeps_the_head(s, plan, after);
    let ext = s.format.file_extension();
    lemma_plain_extension(s.format);
    if s.compacted() {
        crate::chain_laws::law_restart_reads_the_latest_snapshot(
            names,
            listed,
            ext,
            plan.from,
            plan.to,
        );
    } else {
        crate::chain_laws::law_restart_resumes_after_flush(
            names,
            listed,
            ext,
            plan.from,
            plan.to,
        );
    }
}

} // verus!
