//! The in-memory view of each mirror that serves reads: the latest value
//! of every key, how far each partition was applied, and whether the
//! mirror is fit to be read from.
//!
//! A partition's offset only moves forward: a record that is not newer
//! than the last one applied changes nothing, so a reader never sees an
//! older state after a newer one.
use vstd::prelude::*;
use vstd::string::*;
use vstd::utf8::{decode_utf8, valid_utf8};

use crate::assoc::{
    as_map, has_key, lemma_insert_at, lemma_lookup_at, lemma_push_inserts, lemma_update_inserts, lemma_upsert_unique,
    lemma_without, lookup, place_of, unique_keys, upsert, without,
};
use crate::index_map::{
    index_entries, index_get, index_insert, index_keys, index_new, index_shift_remove, index_values,
};
use crate::record::{copy_bytes, records_view, Record, RecordView};
use crate::text::{
    lemma_text_lt_total, lemma_text_lt_trans, same_text, text_before, text_lt,
};
use crate::utf8::text_of_bytes;

verus! {

/// A source partition.
#[derive(Debug, PartialEq, Eq, Hash)]
pub struct TopicPartition {
    pub topic: String,
    pub partition: u32,
}

/// A source partition and the last offset seen in it.
#[derive(Debug, PartialEq, Eq)]
pub struct TopicPartitionOffset {
    pub topic: String,
    pub partition: u32,
    pub offset: u64,
}

/// How fit a mirror is to be read from.
#[derive(Debug, PartialEq, Eq)]
pub enum MirrorStatus {
    /// Not yet caught up with where the source stood at startup.
    Warming,
    /// Caught up, within the tolerated lag.
    Ready,
    /// Further behind the source than tolerated.
    LagBehindSource { lag: u64 },
    /// The consumer lost the source partition.
    SourceUnassigned { topic: String, partition: u32 },
    /// A destination that readiness depends on is behind.
    DestinationLagging { name: String, lag: u64 },
}

/// The contents of a status.
pub enum StatusView {
    Warming,
    Ready,
    LagBehindSource { lag: u64 },
    SourceUnassigned { topic: Seq<char>, partition: u32 },
    DestinationLagging { name: Seq<char>, lag: u64 },
}

impl View for MirrorStatus {
    type V = StatusView;

    open spec fn view(&self) -> StatusView {
        match self {
            MirrorStatus::Warming => StatusView::Warming,
            MirrorStatus::Ready => StatusView::Ready,
            MirrorStatus::LagBehindSource { lag } => StatusView::LagBehindSource { lag: *lag },
            MirrorStatus::SourceUnassigned { topic, partition } => StatusView::SourceUnassigned {
                topic: topic@,
                partition: *partition,
            },
            MirrorStatus::DestinationLagging { name, lag } => StatusView::DestinationLagging {
                name: name@,
                lag: *lag,
            },
        }
    }
}

impl Clone for MirrorStatus {
    fn clone(&self) -> (r: Self)
        ensures
            r@ == self@,
    {
        match self {
            MirrorStatus::Warming => MirrorStatus::Warming,
            MirrorStatus::Ready => MirrorStatus::Ready,
            MirrorStatus::LagBehindSource { lag } => MirrorStatus::LagBehindSource { lag: *lag },
            MirrorStatus::SourceUnassigned { topic, partition } => MirrorStatus::SourceUnassigned {
                topic: topic.clone(),
                partition: *partition,
            },
            MirrorStatus::DestinationLagging { name, lag } => MirrorStatus::DestinationLagging {
                name: name.clone(),
                lag: *lag,
            },
        }
    }
}

/// One mirror's row in a status report.
#[derive(Debug, PartialEq, Eq)]
pub struct MirrorStatusSnapshot {
    pub name: String,
    pub topic: String,
    pub partition: u32,
    pub source_assigned: bool,
    pub last_applied_offset: u64,
    pub broker_end_offset: u64,
    pub status: MirrorStatus,
}

/// The contents of one mirror's slot.
pub struct SlotView {
    pub bootstrap_hwm: u64,
    pub suppression_threshold: u64,
    pub topic: Seq<char>,
    pub partition: u32,
    pub last_applied: u64,
    pub broker_end: u64,
    pub assigned: bool,
    pub destination_lag: Option<(Seq<char>, u64)>,
    pub status: StatusView,
    /// The latest value of each key, keys in the order they first came.
    pub entries: Seq<(Seq<char>, Seq<u8>)>,
    /// The last offset applied in each source partition.
    pub offsets: Map<(Seq<char>, u32), u64>,
}

/// One mirror's state.
pub struct MirrorSlot {
    bootstrap_hwm: u64,
    suppression_threshold: u64,
    topic: String,
    partition: u32,
    last_applied_offset: u64,
    broker_end_offset: u64,
    source_assigned: bool,
    destination_lag: Option<(String, u64)>,
    status: MirrorStatus,
    view: indexmap::IndexMap<String, Vec<u8>>,
    offsets: Vec<(TopicPartition, u64)>,
}

spec fn offset_pairs(s: Seq<(TopicPartition, u64)>) -> Seq<((Seq<char>, u32), u64)> {
    s.map_values(|e: (TopicPartition, u64)| ((e.0.topic@, e.0.partition), e.1))
}

impl View for MirrorSlot {
    type V = SlotView;

    closed spec fn view(&self) -> SlotView {
        SlotView {
            bootstrap_hwm: self.bootstrap_hwm,
            suppression_threshold: self.suppression_threshold,
            topic: self.topic@,
            partition: self.partition,
            last_applied: self.last_applied_offset,
            broker_end: self.broker_end_offset,
            assigned: self.source_assigned,
            destination_lag: match self.destination_lag {
                Some(d) => Some((d.0@, d.1)),
                None => None,
            },
            status: self.status@,
            entries: index_entries(self.view),
            offsets: as_map(offset_pairs(self.offsets@)),
        }
    }
}

/// The partition number of a record as an unsigned number of the same
/// width.
pub open spec fn partition_id(p: i32) -> u32 {
    if p >= 0 {
        p as u32
    } else {
        (p + 0x1_0000_0000) as u32
    }
}

fn unsigned_partition(p: i32) -> (r: u32)
    ensures
        r == partition_id(p),
{
    if p >= 0 {
        p as u32
    } else {
        (p as i64 + 0x1_0000_0000) as u32
    }
}

impl SlotView {
    /// A freshly registered mirror.
    pub open spec fn fresh(
        bootstrap_hwm: u64,
        last_committed_offset: Option<u64>,
        topic: Seq<char>,
        partition: u32,
    ) -> SlotView {
        SlotView {
            bootstrap_hwm,
            suppression_threshold: last_committed_offset.unwrap_or(bootstrap_hwm),
            topic,
            partition,
            last_applied: 0,
            broker_end: bootstrap_hwm,
            assigned: true,
            destination_lag: None,
            status: if bootstrap_hwm == 0 {
                StatusView::Ready
            } else {
                StatusView::Warming
            },
            entries: seq![],
            offsets: Map::empty(),
        }
    }

    /// How far the mirror is behind the source.
    pub open spec fn lag(self) -> u64 {
        if self.broker_end > self.last_applied {
            (self.broker_end - self.last_applied) as u64
        } else {
            0
        }
    }

    /// The status that the slot's inputs call for. The first that applies
    /// wins: a lost partition, a mirror still warming up, a lagging
    /// destination, a lagging source.
    pub open spec fn due_status(self, tolerance: u64) -> StatusView {
        if !self.assigned {
            StatusView::SourceUnassigned { topic: self.topic, partition: self.partition }
        } else if self.last_applied < self.bootstrap_hwm {
            StatusView::Warming
        } else if let Some((name, lag)) = self.destination_lag {
            StatusView::DestinationLagging { name, lag }
        } else if self.lag() > tolerance {
            StatusView::LagBehindSource { lag: self.lag() }
        } else {
            StatusView::Ready
        }
    }

    /// The slot with its status brought up to date.
    pub open spec fn refreshed(self, tolerance: u64) -> SlotView {
        SlotView { status: self.due_status(tolerance), ..self }
    }

    /// Whether `r` is newer than what was applied in its partition.
    pub open spec fn is_news(self, r: RecordView) -> bool {
        let tp = (r.topic, partition_id(r.partition));
        self.offsets.dom().contains(tp) ==> r.source_offset > self.offsets[tp]
    }

    /// The slot after `r`. A record that is not newer changes nothing. A
    /// record without a text key only moves the offset. A value sets the
    /// key's value; a missing value removes the key.
    pub open spec fn applied(self, r: RecordView, tolerance: u64) -> SlotView {
        let tp = (r.topic, partition_id(r.partition));
        if !self.is_news(r) {
            self
        } else {
            let moved = SlotView { offsets: self.offsets.insert(tp, r.source_offset), ..self };
            if !has_text_key(r) {
                moved
            } else {
                let key = decode_utf8(r.key->0);
                SlotView {
                    entries: match r.value {
                        Some(v) => upsert(self.entries, key, v),
                        None => without(self.entries, key),
                    },
                    last_applied: if r.source_offset + 1 > self.last_applied {
                        (r.source_offset + 1) as u64
                    } else {
                        self.last_applied
                    },
                    ..moved
                }.refreshed(tolerance)
            }
        }
    }
}

/// Whether the record has a key and the key is text.
pub open spec fn has_text_key(r: RecordView) -> bool {
    r.key is Some && valid_utf8(r.key->0)
}

impl MirrorSlot {
    /// No key and no partition is listed twice.
    pub closed spec fn wf(&self) -> bool {
        &&& unique_keys(index_entries(self.view))
        &&& unique_keys(offset_pairs(self.offsets@))
    }

    fn fresh(
        bootstrap_hwm: u64,
        last_committed_offset: Option<u64>,
        topic: &str,
        partition: u32,
    ) -> (r: Self)
        ensures
            r@ == SlotView::fresh(bootstrap_hwm, last_committed_offset, topic@, partition),
            r.wf(),
    {
        let r = MirrorSlot {
            bootstrap_hwm,
            suppression_threshold: last_committed_offset.unwrap_or(bootstrap_hwm),
            topic: topic.to_owned(),
            partition,
            last_applied_offset: 0,
            broker_end_offset: bootstrap_hwm,
            source_assigned: true,
            destination_lag: None,
            status: if bootstrap_hwm == 0 {
                MirrorStatus::Ready
            } else {
                MirrorStatus::Warming
            },
            view: index_new(),
            offsets: Vec::new(),
        };
        assert(as_map(offset_pairs(r.offsets@)) =~= Map::empty());
        r
    }

    /// Bring the status up to date.
    fn recompute_status(&mut self, tolerance: u64)
        requires
            old(self).wf(),
        ensures
            final(self)@ == old(self)@.refreshed(tolerance),
            final(self).wf(),
    {
        if !self.source_assigned {
            self.status = MirrorStatus::SourceUnassigned {
                topic: self.topic.clone(),
                partition: self.partition,
            };
            return;
        }
        if self.last_applied_offset < self.bootstrap_hwm {
            self.status = MirrorStatus::Warming;
            return;
        }
        if let Some(d) = &self.destination_lag {
            self.status = MirrorStatus::DestinationLagging { name: d.0.clone(), lag: d.1 };
            return;
        }
        let lag: u64 = self.broker_end_offset.saturating_sub(self.last_applied_offset);
        if lag > tolerance {
            self.status = MirrorStatus::LagBehindSource { lag };
        } else {
            self.status = MirrorStatus::Ready;
        }
    }

    /// The place of a partition in the offset list, or its length.
    fn find_partition(&self, topic: &str, partition: u32) -> (i: usize)
        requires
            self.wf(),
        ensures
            i <= self.offsets.len(),
            i < self.offsets.len() ==> self.offsets@[i as int].0.topic@ == topic@
                && self.offsets@[i as int].0.partition == partition,
            i == self.offsets.len() ==> !has_key(offset_pairs(self.offsets@), (topic@, partition)),
    {
        let mut i: usize = 0;
        while i < self.offsets.len()
            invariant
                i <= self.offsets.len(),
                forall|j: int|
                    0 <= j < i ==> (#[trigger] offset_pairs(self.offsets@)[j]).0 != (
                        topic@,
                        partition,
                    ),
            decreases self.offsets.len() - i,
        {
            if self.offsets[i].0.partition == partition && same_text(
                self.offsets[i].0.topic.as_str(),
                topic,
            ) {
                return i;
            }
            i += 1;
        }
        i
    }

    /// Note `offset` for a partition; `false` if it is not newer than the
    /// one noted before, which then stays.
    fn note_offset(&mut self, topic: &str, partition: u32, offset: u64) -> (news: bool)
        requires
            old(self).wf(),
        ensures
            news == (old(self)@.offsets.dom().contains((topic@, partition)) ==> offset > old(self)@.offsets[(topic@, partition)]),
            news ==> final(self)@ == (SlotView {
                offsets: old(self)@.offsets.insert((topic@, partition), offset),
                ..old(self)@
            }),
            !news ==> *final(self) == *old(self),
            final(self).wf(),
    {
        let i = self.find_partition(topic, partition);
        let ghost pairs = offset_pairs(self.offsets@);
        let ghost tp = (topic@, partition);
        if i < self.offsets.len() {
            proof {
                lemma_lookup_at(pairs, i as int);
            }
            if offset <= self.offsets[i].1 {
                return false;
            }
            self.offsets.set(
                i,
                (TopicPartition { topic: topic.to_owned(), partition }, offset),
            );
            proof {
                lemma_update_inserts(pairs, i as int, offset);
                assert(offset_pairs(self.offsets@) =~= pairs.update(i as int, (tp, offset)));
            }
        } else {
            self.offsets.push((TopicPartition { topic: topic.to_owned(), partition }, offset));
            proof {
                lemma_push_inserts(pairs, tp, offset);
                assert(offset_pairs(self.offsets@) =~= pairs.push((tp, offset)));
            }
        }
        true
    }

    fn apply(&mut self, record: &Record, tolerance: u64)
        requires
            old(self).wf(),
            old(self)@.is_news(record@) && has_text_key(record@) ==> record.source_offset
                < u64::MAX,
        ensures
            final(self)@ == old(self)@.applied(record@, tolerance),
            final(self).wf(),
    {
        let offset: u64 = record.source_offset;
        let news = self.note_offset(
            record.topic.as_str(),
            unsigned_partition(record.partition),
            offset,
        );
        if !news {
            return;
        }
        let key = match &record.key {
            Some(k) => match text_of_bytes(k.as_slice()) {
                Ok(text) => text.to_owned(),
                Err(_) => {
                    return;
                },
            },
            None => {
                return;
            },
        };
        proof {
            let entries = index_entries(self.view);
            lemma_without(entries, key@);
            if let Some(v) = record@.value {
                lemma_upsert_unique(entries, key@, v);
            }
        }
        match &record.value {
            Some(v) => index_insert(&mut self.view, key, copy_bytes(v)),
            None => index_shift_remove(&mut self.view, key.as_str()),
        }
        if offset + 1 > self.last_applied_offset {
            self.last_applied_offset = offset + 1;
        }
        self.recompute_status(tolerance);
    }
}

/// The contents of the whole cache.
pub struct CacheView {
    pub mirrors: Map<Seq<char>, SlotView>,
    pub main: Option<Seq<char>>,
    pub tolerance: u64,
}

impl CacheView {
    /// The slot of the named mirror.
    pub open spec fn slot(self, name: Seq<char>) -> Option<SlotView> {
        if self.mirrors.dom().contains(name) {
            Some(self.mirrors[name])
        } else {
            None
        }
    }

    /// The cache with the named mirror's slot set.
    pub open spec fn with_slot(self, name: Seq<char>, slot: SlotView) -> CacheView {
        CacheView { mirrors: self.mirrors.insert(name, slot), ..self }
    }

    /// The cache after the given records of one mirror, in order.
    pub open spec fn replayed(self, name: Seq<char>, rs: Seq<RecordView>) -> CacheView
        decreases rs.len(),
    {
        if rs.len() == 0 {
            self
        } else {
            let before = self.replayed(name, rs.drop_last());
            match before.slot(name) {
                Some(s) => before.with_slot(name, s.applied(rs.last(), before.tolerance)),
                None => before,
            }
        }
    }

    /// The cache after one call. Only a registration adds a mirror; any
    /// other call on a mirror that is not registered changes nothing.
    pub open spec fn after(self, call: CacheCall) -> CacheView {
        match call {
            CacheCall::Register { name, bootstrap_hwm, committed, is_main, topic, partition } => (
            CacheView {
                main: if is_main {
                    Some(name)
                } else {
                    self.main
                },
                ..self
            }).with_slot(name, SlotView::fresh(bootstrap_hwm, committed, topic, partition)),
            CacheCall::Apply { name, record } => match self.slot(name) {
                Some(s) => self.with_slot(name, s.applied(record, self.tolerance)),
                None => self,
            },
            CacheCall::Replay { name, records } => self.replayed(name, records),
            CacheCall::EndOffset { name, end } => match self.slot(name) {
                Some(s) => self.with_slot(
                    name,
                    (SlotView {
                        broker_end: if end > s.broker_end {
                            end
                        } else {
                            s.broker_end
                        },
                        ..s
                    }).refreshed(self.tolerance),
                ),
                None => self,
            },
            CacheCall::Assignment { name, assigned } => match self.slot(name) {
                Some(s) => self.with_slot(
                    name,
                    (SlotView { assigned, ..s }).refreshed(self.tolerance),
                ),
                None => self,
            },
            CacheCall::DestinationLag { name, lag } => match self.slot(name) {
                Some(s) => self.with_slot(
                    name,
                    (SlotView { destination_lag: lag, ..s }).refreshed(self.tolerance),
                ),
                None => self,
            },
        }
    }

    /// The cache after a sequence of calls.
    pub open spec fn after_all(self, calls: Seq<CacheCall>) -> CacheView
        decreases calls.len(),
    {
        if calls.len() == 0 {
            self
        } else {
            self.after_all(calls.drop_last()).after(calls.last())
        }
    }

    /// Whether the notifier leaves out the mirror's record at `offset`.
    pub open spec fn suppresses(self, name: Seq<char>, offset: u64) -> bool {
        self.slot(name) matches Some(s) && offset < s.suppression_threshold
    }
}

/// A call that may change the cache, with what it was given.
pub enum CacheCall {
    Register {
        name: Seq<char>,
        bootstrap_hwm: u64,
        committed: Option<u64>,
        is_main: bool,
        topic: Seq<char>,
        partition: u32,
    },
    Apply { name: Seq<char>, record: RecordView },
    Replay { name: Seq<char>, records: Seq<RecordView> },
    EndOffset { name: Seq<char>, end: u64 },
    Assignment { name: Seq<char>, assigned: bool },
    /// A report of a destination that is behind, or that none is.
    DestinationLag { name: Seq<char>, lag: Option<(Seq<char>, u64)> },
}

impl CacheCall {
    /// Whether the call registers the named mirror.
    pub open spec fn registers(self, mirror: Seq<char>) -> bool {
        self matches CacheCall::Register { name, .. } && name == mirror
    }
}

/// The contents of one mirror's row in a status report.
pub struct SnapshotView {
    pub topic: Seq<char>,
    pub partition: u32,
    pub source_assigned: bool,
    pub last_applied_offset: u64,
    pub broker_end_offset: u64,
    pub status: StatusView,
}

/// The row that reports on a slot.
pub open spec fn row_of(s: SlotView) -> SnapshotView {
    SnapshotView {
        topic: s.topic,
        partition: s.partition,
        source_assigned: s.assigned,
        last_applied_offset: s.last_applied,
        broker_end_offset: s.broker_end,
        status: s.status,
    }
}

/// The rows of a report, each under its mirror's name.
pub open spec fn report_rows(r: Seq<MirrorStatusSnapshot>) -> Seq<(Seq<char>, SnapshotView)> {
    r.map_values(
        |x: MirrorStatusSnapshot|
            (
                x.name@,
                SnapshotView {
                    topic: x.topic@,
                    partition: x.partition,
                    source_assigned: x.source_assigned,
                    last_applied_offset: x.last_applied_offset,
                    broker_end_offset: x.broker_end_offset,
                    status: x.status@,
                },
            ),
    )
}

/// The offsets of a listing, each under its partition.
pub open spec fn listed_offsets(r: Seq<TopicPartitionOffset>) -> Seq<((Seq<char>, u32), u64)> {
    r.map_values(|x: TopicPartitionOffset| ((x.topic@, x.partition), x.offset))
}

/// The order of partitions: by topic, then by number.
pub open spec fn partition_lt(a: (Seq<char>, u32), b: (Seq<char>, u32)) -> bool {
    text_lt(a.0, b.0) || (a.0 == b.0 && a.1 < b.1)
}

/// Whether the listing is in the order of partitions.
pub open spec fn in_partition_order(s: Seq<((Seq<char>, u32), u64)>) -> bool {
    forall|i: int, j: int| 0 <= i < j < s.len() ==> partition_lt(s[i].0, s[j].0)
}

/// The views of all mirrors that serve reads.
pub struct CacheState {
    mirrors: Vec<(String, MirrorSlot)>,
    main_mirror: Option<String>,
    readiness_lag_tolerance: u64,
}

spec fn slot_pairs(s: Seq<(String, MirrorSlot)>) -> Seq<(Seq<char>, SlotView)> {
    s.map_values(|e: (String, MirrorSlot)| (e.0@, e.1@))
}

impl View for CacheState {
    type V = CacheView;

    closed spec fn view(&self) -> CacheView {
        CacheView {
            mirrors: as_map(slot_pairs(self.mirrors@)),
            main: match self.main_mirror {
                Some(n) => Some(n@),
                None => None,
            },
            tolerance: self.readiness_lag_tolerance,
        }
    }
}

impl CacheState {
    /// Every mirror has one slot, and every slot is sound.
    pub closed spec fn wf(&self) -> bool {
        &&& unique_keys(slot_pairs(self.mirrors@))
        &&& forall|i: int| 0 <= i < self.mirrors.len() ==> (#[trigger] self.mirrors@[i]).1.wf()
    }

    /// A cache without mirrors that tolerates no lag.
    pub fn new() -> (r: Self)
        ensures
            r@ == (CacheView { mirrors: Map::empty(), main: None, tolerance: 0 }),
            r.wf(),
    {
        let r = CacheState { mirrors: Vec::new(), main_mirror: None, readiness_lag_tolerance: 0 };
        assert(r@.mirrors =~= Map::empty());
        r
    }

    /// Set how many offsets a mirror may be behind and still be ready.
    pub fn with_readiness_lag_tolerance(self, tolerance: u64) -> (r: Self)
        requires
            self.wf(),
        ensures
            r@ == (CacheView { tolerance, ..self@ }),
            r.wf(),
    {
        CacheState {
            mirrors: self.mirrors,
            main_mirror: self.main_mirror,
            readiness_lag_tolerance: tolerance,
        }
    }

    /// The place of the named mirror's slot.
    fn find(&self, name: &str) -> (r: Option<usize>)
        requires
            self.wf(),
        ensures
            r is Some <==> self@.slot(name@) is Some,
            r matches Some(i) ==> i < self.mirrors.len() && self.mirrors@[i as int].0@ == name@
                && self@.slot(name@) == Some(self.mirrors@[i as int].1@)
                && self.mirrors@[i as int].1.wf(),
            r is None ==> !has_key(slot_pairs(self.mirrors@), name@),
    {
        let ghost pairs = slot_pairs(self.mirrors@);
        let mut i: usize = 0;
        while i < self.mirrors.len()
            invariant
                i <= self.mirrors.len(),
                pairs == slot_pairs(self.mirrors@),
                self.wf(),
                forall|j: int| 0 <= j < i ==> (#[trigger] pairs[j]).0 != name@,
            decreases self.mirrors.len() - i,
        {
            if same_text(self.mirrors[i].0.as_str(), name) {
                proof {
                    lemma_lookup_at(pairs, i as int);
                }
                return Some(i);
            }
            i += 1;
        }
        None
    }

    /// What setting the slot at `i` does to the whole.
    proof fn lemma_slot_set(before: &Self, after: &Self, i: int)
        requires
            before.wf(),
            0 <= i < before.mirrors.len(),
            after.mirrors@ =~= before.mirrors@.update(i, after.mirrors@[i]),
            after.mirrors@[i].0@ == before.mirrors@[i].0@,
            after.mirrors@[i].1.wf(),
            after.main_mirror == before.main_mirror,
            after.readiness_lag_tolerance == before.readiness_lag_tolerance,
        ensures
            after@ == before@.with_slot(before.mirrors@[i].0@, after.mirrors@[i].1@),
            after.wf(),
    {
        let pairs = slot_pairs(before.mirrors@);
        lemma_update_inserts(pairs, i, after.mirrors@[i].1@);
        assert(slot_pairs(after.mirrors@) =~= pairs.update(
            i,
            (pairs[i].0, after.mirrors@[i].1@),
        ));
    }

    /// Register a mirror before its first record. `bootstrap_hwm` is the
    /// source's end offset at startup: the mirror is warm once it was
    /// applied up to there, at once where it is zero.
    /// `last_committed_offset` is what the consumer group committed
    /// before, if anything: records below it, else below `bootstrap_hwm`,
    /// are not notified. A mirror registered before starts over.
    pub fn register_mirror(
        &mut self,
        mirror_name: &str,
        bootstrap_hwm: u64,
        last_committed_offset: Option<u64>,
        is_main: bool,
    )
        requires
            old(self).wf(),
        ensures
            final(self).wf(),
            final(self)@ == old(self)@.after(
                (CacheCall::Register {
                    name: mirror_name@,
                    bootstrap_hwm,
                    committed: last_committed_offset,
                    is_main,
                    topic: seq![],
                    partition: 0,
                }),
            ),
    {
        proof {
            reveal_strlit("");
            assert(""@ =~= seq![]);
        }
        self.register_mirror_with_topic(
            mirror_name,
            bootstrap_hwm,
            last_committed_offset,
            is_main,
            "",
            0,
        );
    }

    /// As `register_mirror`, with the source partition that a lost
    /// assignment is reported with.
    pub fn register_mirror_with_topic(
        &mut self,
        mirror_name: &str,
        bootstrap_hwm: u64,
        last_committed_offset: Option<u64>,
        is_main: bool,
        topic: &str,
        partition: u32,
    )
        requires
            old(self).wf(),
        ensures
            final(self).wf(),
            final(self)@ == old(self)@.after(
                (CacheCall::Register {
                    name: mirror_name@,
                    bootstrap_hwm,
                    committed: last_committed_offset,
                    is_main,
                    topic: topic@,
                    partition,
                }),
            ),
    {
        let slot = MirrorSlot::fresh(bootstrap_hwm, last_committed_offset, topic, partition);
        match self.find(mirror_name) {
            Some(i) => {
                let ghost before = *self;
                self.mirrors.set(i, (mirror_name.to_owned(), slot));
                proof {
                    Self::lemma_slot_set(&before, self, i as int);
                }
            },
            None => {
                let ghost pairs = slot_pairs(self.mirrors@);
                self.mirrors.push((mirror_name.to_owned(), slot));
                proof {
                    lemma_push_inserts(pairs, mirror_name@, slot@);
                    assert(slot_pairs(self.mirrors@) =~= pairs.push((mirror_name@, slot@)));
                }
            },
        }
        if is_main {
            self.main_mirror = Some(mirror_name.to_owned());
        }
    }

    /// Whether the notifier leaves out a record of this mirror. Nothing
    /// is left out of a mirror that is not registered.
    pub fn is_record_suppressed(&self, mirror_name: &str, source_offset: u64) -> (r: bool)
        requires
            self.wf(),
        ensures
            r == self@.suppresses(mirror_name@, source_offset),
    {
        match self.find(mirror_name) {
            Some(i) => source_offset < self.mirrors[i].1.suppression_threshold,
            None => false,
        }
    }

    /// Apply a record of the named mirror to its view. A mirror that is
    /// not registered is left alone.
    pub fn apply_record(&mut self, mirror_name: &str, record: &Record)
        requires
            old(self).wf(),
            old(self)@.slot(mirror_name@) matches Some(s) ==> s.is_news(record@) && has_text_key(
                record@,
            ) ==> record.source_offset < u64::MAX,
        ensures
            final(self).wf(),
            final(self)@ == old(self)@.after(
                (CacheCall::Apply { name: mirror_name@, record: record@ }),
            ),
    {
        let tolerance: u64 = self.readiness_lag_tolerance;
        if let Some(i) = self.find(mirror_name) {
            let ghost before = *self;
            self.mirrors[i].1.apply(record, tolerance);
            proof {
                Self::lemma_slot_set(&before, self, i as int);
            }
        }
    }

    /// Apply stored records, in order, so that a restarted mirror shows
    /// what it showed before.
    pub fn replay(&mut self, mirror_name: &str, records: &Vec<Record>)
        requires
            old(self).wf(),
            forall|i: int| 0 <= i < records.len() ==> (#[trigger] records@[i]).source_offset < u64::MAX,
        ensures
            final(self).wf(),
            final(self)@ == old(self)@.after(
                (CacheCall::Replay { name: mirror_name@, records: records_view(records@) }),
            ),
    {
        let ghost all = records_view(records@);
        let mut i: usize = 0;
        assert(all.take(0) =~= seq![]);
        while i < records.len()
            invariant
                i <= records.len(),
                self.wf(),
                all == records_view(records@),
                forall|j: int|
                    0 <= j < records.len() ==> (#[trigger] records@[j]).source_offset < u64::MAX,
                self@ == old(self)@.replayed(mirror_name@, all.take(i as int)),
            decreases records.len() - i,
        {
            proof {
                assert(all.take(i + 1).drop_last() =~= all.take(i as int));
                assert(all.take(i + 1).last() == records@[i as int]@);
                assert(records@[i as int].source_offset < u64::MAX);
            }
            self.apply_record(mirror_name, &records[i]);
            i += 1;
        }
        assert(all.take(i as int) =~= all);
    }

    /// Note the source's end offset, which only moves forward.
    pub fn set_broker_end_offset(&mut self, mirror_name: &str, end_offset: u64)
        requires
            old(self).wf(),
        ensures
            final(self).wf(),
            final(self)@ == old(self)@.after(
                (CacheCall::EndOffset { name: mirror_name@, end: end_offset }),
            ),
    {
        let tolerance: u64 = self.readiness_lag_tolerance;
        if let Some(i) = self.find(mirror_name) {
            let ghost before = *self;
            if end_offset > self.mirrors[i].1.broker_end_offset {
                self.mirrors[i].1.broker_end_offset = end_offset;
            }
            self.mirrors[i].1.recompute_status(tolerance);
            proof {
                Self::lemma_slot_set(&before, self, i as int);
            }
        }
    }

    fn set_source_assigned(&mut self, mirror_name: &str, assigned: bool)
        requires
            old(self).wf(),
        ensures
            final(self).wf(),
            final(self)@ == old(self)@.after(
                (CacheCall::Assignment { name: mirror_name@, assigned }),
            ),
    {
        let tolerance: u64 = self.readiness_lag_tolerance;
        if let Some(i) = self.find(mirror_name) {
            let ghost before = *self;
            self.mirrors[i].1.source_assigned = assigned;
            self.mirrors[i].1.recompute_status(tolerance);
            proof {
                Self::lemma_slot_set(&before, self, i as int);
            }
        }
    }

    /// Note that the consumer lost the source partition.
    pub fn mark_source_unassigned(&mut self, mirror_name: &str)
        requires
            old(self).wf(),
        ensures
            final(self).wf(),
            final(self)@ == old(self)@.after(
                (CacheCall::Assignment { name: mirror_name@, assigned: false }),
            ),
    {
        self.set_source_assigned(mirror_name, false);
    }

    /// Note that the consumer has the source partition again.
    pub fn mark_source_assigned(&mut self, mirror_name: &str)
        requires
            old(self).wf(),
        ensures
            final(self).wf(),
            final(self)@ == old(self)@.after(
                (CacheCall::Assignment { name: mirror_name@, assigned: true }),
            ),
    {
        self.set_source_assigned(mirror_name, true);
    }

    /// Report a destination that is behind. The report stands until it is
    /// cleared; a lost partition and a mirror still warming up come first.
    pub fn mark_destination_lagging(&mut self, mirror_name: &str, dest_name: &str, lag: u64)
        requires
            old(self).wf(),
        ensures
            final(self).wf(),
            final(self)@ == old(self)@.after(
                (CacheCall::DestinationLag { name: mirror_name@, lag: Some((dest_name@, lag)) }),
            ),
    {
        let tolerance: u64 = self.readiness_lag_tolerance;
        if let Some(i) = self.find(mirror_name) {
            let ghost before = *self;
            self.mirrors[i].1.destination_lag = Some((dest_name.to_owned(), lag));
            self.mirrors[i].1.recompute_status(tolerance);
            proof {
                Self::lemma_slot_set(&before, self, i as int);
            }
        }
    }

    /// Withdraw the report of a destination that was behind.
    pub fn clear_destination_lagging(&mut self, mirror_name: &str)
        requires
            old(self).wf(),
        ensures
            final(self).wf(),
            final(self)@ == old(self)@.after(
                (CacheCall::DestinationLag { name: mirror_name@, lag: None }),
            ),
    {
        let tolerance: u64 = self.readiness_lag_tolerance;
        if let Some(i) = self.find(mirror_name) {
            let ghost before = *self;
            self.mirrors[i].1.destination_lag = None;
            self.mirrors[i].1.recompute_status(tolerance);
            proof {
                Self::lemma_slot_set(&before, self, i as int);
            }
        }
    }

    /// Whether there is a mirror and every mirror is ready.
    pub fn is_ready(&self) -> (r: bool)
        requires
            self.wf(),
        ensures
            r == (self@.mirrors.dom() != Set::<Seq<char>>::empty() && forall|n: Seq<char>| #[trigger]
                self@.mirrors.dom().contains(n) ==> self@.mirrors[n].status is Ready),
    {
        let ghost pairs = slot_pairs(self.mirrors@);
        if self.mirrors.len() == 0 {
            assert(self@.mirrors.dom() =~= Set::empty());
            return false;
        }
        proof {
            lemma_lookup_at(pairs, 0);
        }
        let mut i: usize = 0;
        while i < self.mirrors.len()
            invariant
                i <= self.mirrors.len(),
                self.wf(),
                pairs == slot_pairs(self.mirrors@),
                self@.mirrors == as_map(pairs),
                forall|j: int| 0 <= j < i ==> (#[trigger] pairs[j]).1.status is Ready,
            decreases self.mirrors.len() - i,
        {
            if !matches!(self.mirrors[i].1.status, MirrorStatus::Ready) {
                proof {
                    lemma_lookup_at(pairs, i as int);
                }
                return false;
            }
            i += 1;
        }
        proof {
            assert forall|n: Seq<char>| #[trigger] self@.mirrors.dom().contains(n) implies
                self@.mirrors[n].status is Ready by {
                let p = place_of(pairs, n);
                assert(pairs[p].0 == n);
                lemma_lookup_at(pairs, p);
            }
        }
        true
    }

    /// Whether the named mirror is registered and ready.
    pub fn is_mirror_ready(&self, mirror_name: &str) -> (r: bool)
        requires
            self.wf(),
        ensures
            r == match self@.slot(mirror_name@) {
                Some(s) => s.status is Ready,
                None => false,
            },
    {
        match self.find(mirror_name) {
            Some(i) => matches!(self.mirrors[i].1.status, MirrorStatus::Ready),
            None => false,
        }
    }

    /// The status of the named mirror, if it is registered.
    pub fn status_for(&self, mirror_name: &str) -> (r: Option<MirrorStatus>)
        requires
            self.wf(),
        ensures
            r is Some <==> self@.slot(mirror_name@) is Some,
            r matches Some(status) ==> status@ == self@.slot(mirror_name@)->0.status,
    {
        match self.find(mirror_name) {
            Some(i) => Some(self.mirrors[i].1.status.clone()),
            None => None,
        }
    }

    /// One row for every registered mirror.
    pub fn status_snapshot(&self) -> (r: Vec<MirrorStatusSnapshot>)
        requires
            self.wf(),
        ensures
            unique_keys(report_rows(r@)),
            as_map(report_rows(r@)) == self@.mirrors.map_values(|s: SlotView| row_of(s)),
    {
        let ghost pairs = slot_pairs(self.mirrors@);
        let mut r: Vec<MirrorStatusSnapshot> = Vec::new();
        let mut i: usize = 0;
        while i < self.mirrors.len()
            invariant
                i <= self.mirrors.len(),
                r.len() == i,
                pairs == slot_pairs(self.mirrors@),
                forall|j: int|
                    0 <= j < i ==> #[trigger] report_rows(r@)[j] == (pairs[j].0, row_of(pairs[j].1)),
            decreases self.mirrors.len() - i,
        {
            let slot = &self.mirrors[i].1;
            let ghost before = report_rows(r@);
            r.push(
                MirrorStatusSnapshot {
                    name: self.mirrors[i].0.clone(),
                    topic: slot.topic.clone(),
                    partition: slot.partition,
                    source_assigned: slot.source_assigned,
                    last_applied_offset: slot.last_applied_offset,
                    broker_end_offset: slot.broker_end_offset,
                    status: slot.status.clone(),
                },
            );
            assert(report_rows(r@).drop_last() =~= before);
            assert forall|j: int| 0 <= j < i implies #[trigger] report_rows(r@)[j] == before[j] by {
                assert(report_rows(r@).drop_last()[j] == before[j]);
            }
            i += 1;
        }
        proof {
            let rows = report_rows(r@);
            assert forall|a: int, b: int| 0 <= a < b < rows.len() implies rows[a].0 != rows[b].0 by {
                assert(pairs[a].0 != pairs[b].0);
            }
            assert forall|n: Seq<char>| has_key(rows, n) <==> has_key(pairs, n) by {
                if has_key(rows, n) {
                    assert(pairs[place_of(rows, n)].0 == n);
                }
                if has_key(pairs, n) {
                    assert(rows[place_of(pairs, n)].0 == n);
                }
            }
            assert forall|n: Seq<char>| has_key(rows, n) implies as_map(rows)[n] == row_of(
                #[trigger] as_map(pairs)[n],
            ) by {
                let p = place_of(rows, n);
                assert(rows[p].0 == n);
                lemma_lookup_at(rows, p);
                lemma_lookup_at(pairs, p);
            }
            assert(as_map(rows) =~= self@.mirrors.map_values(|s: SlotView| row_of(s)));
        }
        r
    }

    /// The mirror that serves the paths without a mirror name.
    pub fn main_mirror(&self) -> (r: Option<String>)
        requires
            self.wf(),
        ensures
            r is Some <==> self@.main is Some,
            r matches Some(n) ==> self@.main == Some(n@),
    {
        match &self.main_mirror {
            Some(n) => Some(n.clone()),
            None => None,
        }
    }

    /// The value of a key in the named mirror's view.
    pub fn get_value_for(&self, mirror_name: &str, key: &str) -> (r: Option<Vec<u8>>)
        requires
            self.wf(),
        ensures
            r is Some <==> self@.slot(mirror_name@) is Some && has_key(
                self@.slot(mirror_name@)->0.entries,
                key@,
            ),
            r matches Some(v) ==> lookup(self@.slot(mirror_name@)->0.entries, key@) == Some(v@),
    {
        match self.find(mirror_name) {
            Some(i) => index_get(&self.mirrors[i].1.view, key),
            None => None,
        }
    }

    /// The keys of the named mirror's view, in the order they first came.
    pub fn snapshot_keys_for(&self, mirror_name: &str) -> (r: Option<Vec<String>>)
        requires
            self.wf(),
        ensures
            r is Some <==> self@.slot(mirror_name@) is Some,
            r matches Some(keys) ==> keys@.map_values(|k: String| k@) == self@.slot(
                mirror_name@,
            )->0.entries.map_values(|e: (Seq<char>, Seq<u8>)| e.0),
    {
        match self.find(mirror_name) {
            Some(i) => Some(index_keys(&self.mirrors[i].1.view)),
            None => None,
        }
    }

    /// The values of the named mirror's view, in the order of its keys.
    pub fn snapshot_values_for(&self, mirror_name: &str) -> (r: Option<Vec<Vec<u8>>>)
        requires
            self.wf(),
        ensures
            r is Some <==> self@.slot(mirror_name@) is Some,
            r matches Some(values) ==> values@.map_values(|v: Vec<u8>| v@) == self@.slot(
                mirror_name@,
            )->0.entries.map_values(|e: (Seq<char>, Seq<u8>)| e.1),
    {
        match self.find(mirror_name) {
            Some(i) => Some(index_values(&self.mirrors[i].1.view)),
            None => None,
        }
    }

    /// The last offset applied in one source partition of the mirror.
    pub fn get_offset_for(&self, mirror_name: &str, topic: &str, partition: u32) -> (r: Option<u64>)
        requires
            self.wf(),
        ensures
            r == match self@.slot(mirror_name@) {
                Some(s) => if s.offsets.dom().contains((topic@, partition)) {
                    Some(s.offsets[(topic@, partition)])
                } else {
                    None
                },
                None => None,
            },
    {
        match self.find(mirror_name) {
            Some(i) => {
                let slot = &self.mirrors[i].1;
                let j = slot.find_partition(topic, partition);
                if j < slot.offsets.len() {
                    proof {
                        lemma_lookup_at(offset_pairs(slot.offsets@), j as int);
                    }
                    Some(slot.offsets[j].1)
                } else {
                    None
                }
            },
            None => None,
        }
    }

    /// The last offset of every source partition of the mirror, in the
    /// order of topics and partitions.
    pub fn snapshot_offsets_for(&self, mirror_name: &str) -> (r: Option<Vec<TopicPartitionOffset>>)
        requires
            self.wf(),
        ensures
            r is Some <==> self@.slot(mirror_name@) is Some,
            r matches Some(v) ==> {
                &&& in_partition_order(listed_offsets(v@))
                &&& unique_keys(listed_offsets(v@))
                &&& as_map(listed_offsets(v@)) == self@.slot(mirror_name@)->0.offsets
            },
    {
        match self.find(mirror_name) {
            Some(i) => Some(self.mirrors[i].1.sorted_offsets()),
            None => None,
        }
    }
}

impl MirrorSlot {
    fn sorted_offsets(&self) -> (out: Vec<TopicPartitionOffset>)
        requires
            self.wf(),
        ensures
            in_partition_order(listed_offsets(out@)),
            unique_keys(listed_offsets(out@)),
            as_map(listed_offsets(out@)) == self@.offsets,
    {
        let ghost pairs = offset_pairs(self.offsets@);
        let mut out: Vec<TopicPartitionOffset> = Vec::new();
        let mut i: usize = 0;
        assert(as_map(listed_offsets(out@)) =~= as_map(pairs.take(0)));
        while i < self.offsets.len()
            invariant
                i <= self.offsets.len(),
                pairs == offset_pairs(self.offsets@),
                unique_keys(pairs),
                in_partition_order(listed_offsets(out@)),
                unique_keys(listed_offsets(out@)),
                as_map(listed_offsets(out@)) == as_map(pairs.take(i as int)),
            decreases self.offsets.len() - i,
        {
            let tp = &self.offsets[i].0;
            let entry = TopicPartitionOffset {
                topic: tp.topic.clone(),
                partition: tp.partition,
                offset: self.offsets[i].1,
            };
            let ghost key = pairs[i as int].0;
            let ghost before = pairs.take(i as int);
            proof {
                assert(pairs.take(i + 1) =~= before.push(pairs[i as int]));
                assert(!has_key(before, key)) by {
                    if has_key(before, key) {
                        let p = place_of(before, key);
                        assert(pairs[p].0 == pairs[i as int].0);
                    }
                }
                lemma_push_inserts(before, key, pairs[i as int].1);
                assert(!as_map(before).dom().contains(key));
                assert(!has_key(listed_offsets(out@), key));
            }
            insert_in_order(&mut out, entry);
            i += 1;
        }
        assert(pairs.take(i as int) =~= pairs);
        out
    }
}

fn insert_in_order(out: &mut Vec<TopicPartitionOffset>, entry: TopicPartitionOffset)
    requires
        in_partition_order(listed_offsets(old(out)@)),
        unique_keys(listed_offsets(old(out)@)),
        !has_key(listed_offsets(old(out)@), (entry.topic@, entry.partition)),
    ensures
        in_partition_order(listed_offsets(final(out)@)),
        unique_keys(listed_offsets(final(out)@)),
        as_map(listed_offsets(final(out)@)) == as_map(listed_offsets(old(out)@)).insert(
            (entry.topic@, entry.partition),
            entry.offset,
        ),
{
    let ghost before = listed_offsets(out@);
    let ghost key = (entry.topic@, entry.partition);
    let mut p: usize = 0;
    while p < out.len() && (text_before(out[p].topic.as_str(), entry.topic.as_str()) || (same_text(
        out[p].topic.as_str(),
        entry.topic.as_str(),
    ) && out[p].partition < entry.partition))
        invariant
            p <= out.len(),
            before == listed_offsets(out@),
            key == (entry.topic@, entry.partition),
            forall|j: int| 0 <= j < p ==> partition_lt((#[trigger] before[j]).0, key),
        decreases out.len() - p,
    {
        p += 1;
    }
    out.insert(p, entry);
    proof {
        lemma_insert_at(before, p as int, key, entry.offset);
        let after = listed_offsets(out@);
        assert(after =~= before.insert(p as int, (key, entry.offset)));
        assert forall|j: int| p <= j < before.len() implies partition_lt(
            key,
            (#[trigger] before[j]).0,
        ) by {
            let first = before[p as int].0;
            lemma_text_lt_total(first.0, key.0);
            assert(before[p as int].0 != key);
            assert(partition_lt(key, first));
            if j > p {
                lemma_partition_lt_trans(key, first, before[j].0);
            }
        }
        assert forall|i: int, j: int| 0 <= i < j < after.len() implies partition_lt(
            after[i].0,
            after[j].0,
        ) by {
            let si = if i < p { i } else { i - 1 };
            let sj = if j < p { j } else { j - 1 };
            if i != p && j != p {
                assert(partition_lt(before[si].0, before[sj].0));
            } else if i == p {
                assert(partition_lt(key, before[sj].0));
            } else {
                assert(partition_lt(before[si].0, key));
            }
        }
    }
}

proof fn lemma_partition_lt_trans(a: (Seq<char>, u32), b: (Seq<char>, u32), c: (Seq<char>, u32))
    requires
        partition_lt(a, b),
        partition_lt(b, c),
    ensures
        partition_lt(a, c),
{
    if text_lt(a.0, b.0) && text_lt(b.0, c.0) {
        lemma_text_lt_trans(a.0, b.0, c.0);
    }
}

/// A record that is not newer than the last one of its partition changes
/// nothing, so applying a record twice is applying it once.
pub proof fn law_apply_is_idempotent(s: SlotView, r: RecordView, tolerance: u64)
    ensures
        !s.is_news(r) ==> s.applied(r, tolerance) == s,
        s.applied(r, tolerance).applied(r, tolerance) == s.applied(r, tolerance),
{
}

/// No record moves a partition's offset, or how far the mirror was
/// applied, backwards.
pub proof fn law_offsets_never_go_back(
    s: SlotView,
    r: RecordView,
    tolerance: u64,
    tp: (Seq<char>, u32),
)
    requires
        r.source_offset < u64::MAX,
    ensures
        s.last_applied <= s.applied(r, tolerance).last_applied,
        s.offsets.dom().contains(tp) ==> s.applied(r, tolerance).offsets.dom().contains(tp)
            && s.offsets[tp] <= s.applied(r, tolerance).offsets[tp],
{
}

/// No key is listed twice in a mirror's slot, so that the other laws hold
/// of every slot.
pub proof fn law_keys_are_listed_once(cache: CacheState, mirror_name: Seq<char>)
    requires
        cache.wf(),
    ensures
        cache@.slot(mirror_name) matches Some(s) ==> unique_keys(s.entries),
{
    if cache@.slot(mirror_name) is Some {
        let pairs = slot_pairs(cache.mirrors@);
        lemma_lookup_is_map(pairs, mirror_name);
        assert(cache.mirrors@[place_of(pairs, mirror_name)].1.wf());
    }
}

/// After a newer record with a text key, a reader of that key sees the
/// record's value, or nothing where the record has none. Readers of other
/// keys see what they saw before.
pub proof fn law_reads_see_the_latest_value(
    s: SlotView,
    r: RecordView,
    tolerance: u64,
    other: Seq<char>,
)
    requires
        unique_keys(s.entries),
        s.is_news(r),
        has_text_key(r),
        other != decode_utf8(r.key->0),
    ensures
        lookup(s.applied(r, tolerance).entries, decode_utf8(r.key->0)) == r.value,
        lookup(s.applied(r, tolerance).entries, other) == lookup(s.entries, other),
        unique_keys(s.applied(r, tolerance).entries),
{
    let key = decode_utf8(r.key->0);
    let after = s.applied(r, tolerance).entries;
    lemma_without(s.entries, key);
    if let Some(v) = r.value {
        lemma_upsert_unique(s.entries, key, v);
    }
    lemma_lookup_is_map(after, key);
    lemma_lookup_is_map(after, other);
    lemma_lookup_is_map(s.entries, other);
}

proof fn lemma_lookup_is_map<K, V>(s: Seq<(K, V)>, k: K)
    ensures
        lookup(s, k) == if as_map(s).dom().contains(k) {
            Some(as_map(s)[k])
        } else {
            None
        },
{
}

/// A new key is listed last; a key that is overwritten keeps its place;
/// removing a key keeps the order of the others.
pub proof fn law_listing_order_is_stable(s: SlotView, r: RecordView, tolerance: u64)
    requires
        s.is_news(r),
        has_text_key(r),
    ensures
        ({
            let key = decode_utf8(r.key->0);
            let keys = s.entries.map_values(|e: (Seq<char>, Seq<u8>)| e.0);
            let after = s.applied(r, tolerance).entries.map_values(
                |e: (Seq<char>, Seq<u8>)| e.0,
            );
            &&& r.value is Some && has_key(s.entries, key) ==> after == keys
            &&& r.value is Some && !has_key(s.entries, key) ==> after == keys.push(key)
            &&& r.value is None ==> after == without(s.entries, key).map_values(
                |e: (Seq<char>, Seq<u8>)| e.0,
            )
        }),
{
    let key = decode_utf8(r.key->0);
    let keys = s.entries.map_values(|e: (Seq<char>, Seq<u8>)| e.0);
    let after = s.applied(r, tolerance).entries.map_values(|e: (Seq<char>, Seq<u8>)| e.0);
    if r.value is Some {
        if has_key(s.entries, key) {
            assert(after =~= keys);
        } else {
            assert(after =~= keys.push(key));
        }
    }
}

/// What happens to one mirror leaves every other mirror as it was.
pub proof fn law_mirrors_are_independent(
    c: CacheView,
    name: Seq<char>,
    slot: SlotView,
    other: Seq<char>,
)
    requires
        other != name,
    ensures
        c.with_slot(name, slot).slot(other) == c.slot(other),
        c.with_slot(name, slot).slot(name) == Some(slot),
{
}

/// A mirror whose status is up to date is ready exactly when it has its
/// partition, was applied up to where the source stood at startup, no
/// destination is reported behind and it lags no more than tolerated.
pub proof fn law_ready_when(s: SlotView, tolerance: u64)
    ensures
        s.refreshed(tolerance).status is Ready <==> {
            &&& s.assigned
            &&& s.last_applied >= s.bootstrap_hwm
            &&& s.destination_lag is None
            &&& s.broker_end <= s.last_applied + tolerance
        },
{
}

/// A report of a lagging destination survives every record and every
/// source-side update; only clearing it removes it.
pub proof fn law_destination_lag_is_kept(s: SlotView, r: RecordView, tolerance: u64, end: u64)
    ensures
        s.applied(r, tolerance).destination_lag == s.destination_lag,
        (SlotView { broker_end: end, ..s }).refreshed(tolerance).destination_lag
            == s.destination_lag,
        s.destination_lag matches Some((name, lag)) ==> s.assigned && s.last_applied
            >= s.bootstrap_hwm ==> s.refreshed(tolerance).status == (
        StatusView::DestinationLagging { name, lag }),
{
}

/// A fresh consumer group leaves out what was there at startup; a
/// returning one leaves out what it committed before.
pub proof fn law_suppression_threshold(hwm: u64, committed: Option<u64>, topic: Seq<char>, p: u32)
    ensures
        SlotView::fresh(hwm, committed, topic, p).suppression_threshold == match committed {
            Some(c) => c,
            None => hwm,
        },
{
}

/// No call on a mirror but a registration changes what is left out of its
/// notifications, and no call but a registration adds or removes a mirror.
pub proof fn law_call_keeps_suppression(c: CacheView, call: CacheCall, name: Seq<char>)
    requires
        !call.registers(name),
    ensures
        c.after(call).slot(name) is Some <==> c.slot(name) is Some,
        c.slot(name) matches Some(s) ==> c.after(call).slot(name)->0.suppression_threshold
            == s.suppression_threshold,
        forall|offset: u64| #[trigger]
            c.after(call).suppresses(name, offset) == c.suppresses(name, offset),
{
    if let CacheCall::Replay { name: n, records } = call {
        lemma_replay_keeps_suppression(c, n, records, name);
    }
}

proof fn lemma_replay_keeps_suppression(
    c: CacheView,
    n: Seq<char>,
    rs: Seq<RecordView>,
    name: Seq<char>,
)
    ensures
        c.replayed(n, rs).slot(name) is Some <==> c.slot(name) is Some,
        c.slot(name) matches Some(s) ==> c.replayed(n, rs).slot(name)->0.suppression_threshold
            == s.suppression_threshold,
    decreases rs.len(),
{
    if rs.len() > 0 {
        lemma_replay_keeps_suppression(c, n, rs.drop_last(), name);
    }
}

/// Whatever is called after a mirror was registered, up to its next
/// registration, its records are left out exactly below what its consumer
/// group had committed, or below the source's end at startup where it had
/// committed nothing.
pub proof fn law_suppression_is_settled_at_registration(
    c: CacheView,
    calls: Seq<CacheCall>,
    at: int,
    name: Seq<char>,
    offset: u64,
)
    requires
        0 <= at < calls.len(),
        calls[at].registers(name),
        forall|i: int| at < i < calls.len() ==> !(#[trigger] calls[i]).registers(name),
    ensures
        c.after_all(calls).slot(name) is Some,
        c.after_all(calls).suppresses(name, offset) <==> offset < match calls[at]->committed {
            Some(n) => n,
            None => calls[at]->bootstrap_hwm,
        },
    decreases calls.len(),
{
    if at < calls.len() - 1 {
        let before = calls.drop_last();
        assert(before[at] == calls[at]);
        assert forall|i: int| at < i < before.len() implies !(#[trigger] before[i]).registers(name) by {
            assert(before[i] == calls[i]);
        }
        law_suppression_is_settled_at_registration(c, before, at, name, offset);
        law_call_keeps_suppression(c.after_all(before), calls.last(), name);
    }
}

/// Nothing is left out of a mirror that was never registered.
pub proof fn law_unregistered_is_not_suppressed(
    c: CacheView,
    calls: Seq<CacheCall>,
    name: Seq<char>,
    offset: u64,
)
    requires
        c.slot(name) is None,
        forall|i: int| 0 <= i < calls.len() ==> !(#[trigger] calls[i]).registers(name),
    ensures
        c.after_all(calls).slot(name) is None,
        !c.after_all(calls).suppresses(name, offset),
    decreases calls.len(),
{
    if calls.len() > 0 {
        let before = calls.drop_last();
        assert forall|i: int| 0 <= i < before.len() implies !(#[trigger] before[i]).registers(name) by {
            assert(before[i] == calls[i]);
        }
        law_unregistered_is_not_suppressed(c, before, name, offset);
        law_call_keeps_suppression(c.after_all(before), calls.last(), name);
    }
}

/// A shared cache and the mirror whose records go into it.
pub struct CacheBinding {
    pub state: CacheState,
    pub mirror_name: String,
}

} // verus!
