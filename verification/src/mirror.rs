//! Sources, sinks and notifiers, and a mirror run over them.
use vstd::prelude::*;

use crate::error::{MirrorError, NotifyError, SinkError, SourceError};
use crate::record::{Record, RecordView};
use crate::run_loop::{
    accepted, always_answered, initial, is_run, notified, run_actions, run_state, Action, Event,
    MirrorLoop, Phase,
};

verus! {

/// A record stream pinned to one topic partition.
pub trait Source {
    /// Whether this source, asked to seek, can answer `r` and be `after`
    /// then.
    spec fn seeks_to(
        &self,
        after: &Self,
        next_offset: u64,
        r: Result<(), SourceError>,
    ) -> bool;

    /// Whether this source, polled, can answer `r` and be `after` then.
    spec fn polls(&self, after: &Self, r: Option<Result<Option<RecordView>, SourceError>>) -> bool;

    /// Whether this source, asked where it starts, can answer `r` and be
    /// `after` then.
    spec fn starts_at(&self, after: &Self, r: Result<u64, SourceError>) -> bool;

    /// Position the source so that the next poll returns the record at
    /// `next_offset`.
    fn seek(&mut self, next_offset: u64) -> (r: Result<(), SourceError>)
        ensures
            old(self).seeks_to(final(self), next_offset, r),
    ;

    /// Wait for the next record for as long as one poll lasts. `Ok(None)`
    /// means that none came; `None` that the poll has not come back yet.
    fn poll_one(&mut self) -> (r: Option<Result<Option<Record>, SourceError>>)
        ensures
            old(self).polls(final(self), polled_view(r)),
    ;

    /// The earliest offset that the source still retains.
    fn low_watermark(&mut self) -> (r: Result<u64, SourceError>)
        ensures
            old(self).starts_at(final(self), r),
    ;

    /// The offset after the last one that the source holds.
    fn high_watermark(&mut self) -> (r: Result<u64, SourceError>)
        default_ensures
            r == Ok::<u64, SourceError>(u64::MAX),
    {
        Ok(u64::MAX)
    }
}

/// What a poll brought.
pub open spec fn polled_view(r: Option<Result<Option<Record>, SourceError>>) -> Option<
    Result<Option<RecordView>, SourceError>,
> {
    match r {
        Some(Ok(Some(record))) => Some(Ok(Some(record@))),
        Some(Ok(None)) => Some(Ok(None)),
        Some(Err(e)) => Some(Err(e)),
        None => None,
    }
}

/// A destination for exactly-once mirroring. The sink owns the truth
/// about where the mirror stands.
pub trait Sink {
    /// Whether the sink's own state is sound.
    spec fn valid(&self) -> bool;

    /// The offsets of the records that this sink accepted, in order.
    spec fn accepted_offsets(&self) -> Seq<u64>;

    /// Whether the sink can do without offsets that the source no longer
    /// has.
    spec fn tolerates_gaps(&self) -> bool;

    /// Whether this sink, asked for its position, can answer `r` and be
    /// `after` then.
    spec fn reports_position(&self, after: &Self, r: Result<u64, SinkError>) -> bool;

    /// Whether this sink, handed `record`, can answer `r` and be `after`
    /// then.
    spec fn takes_record(
        &self,
        after: &Self,
        record: RecordView,
        r: Result<(), SinkError>,
    ) -> bool;

    /// Whether this sink, asked to flush, can answer `r` and be `after`
    /// then.
    spec fn flushes(&self, after: &Self, r: Result<(), SinkError>) -> bool;

    /// Whether this sink, asked whether it tolerates gaps, can be `after`
    /// then.
    spec fn tells_tolerance(&self, after: &Self) -> bool;

    /// Whether this sink, asked to move up to `low_watermark`, can answer
    /// `r` and be `after` then.
    spec fn aligns_to(
        &self,
        after: &Self,
        low_watermark: u64,
        r: Result<(), SinkError>,
    ) -> bool;

    /// The source offset that the destination takes next, read from the
    /// destination itself.
    fn next_expected_offset(&mut self) -> (r: Result<u64, SinkError>)
        requires
            old(self).valid(),
        ensures
            old(self).reports_position(final(self), r),
            final(self).valid(),
            final(self).tolerates_gaps() == old(self).tolerates_gaps(),
            final(self).accepted_offsets() == old(self).accepted_offsets(),
    ;

    /// Commit `record` at exactly its source offset, or fail.
    fn write(&mut self, record: Record) -> (r: Result<(), SinkError>)
        requires
            old(self).valid(),
        ensures
            old(self).takes_record(final(self), record@, r),
            final(self).valid(),
            final(self).tolerates_gaps() == old(self).tolerates_gaps(),
            final(self).accepted_offsets() == match r {
                Ok(_) => old(self).accepted_offsets().push(record.source_offset),
                Err(_) => old(self).accepted_offsets(),
            },
    ;

    /// Make buffered records durable.
    fn flush(&mut self) -> (r: Result<(), SinkError>)
        requires
            old(self).valid(),
        ensures
            old(self).flushes(final(self), r),
            final(self).valid(),
            final(self).tolerates_gaps() == old(self).tolerates_gaps(),
            final(self).accepted_offsets() == old(self).accepted_offsets(),
    ;

    /// Whether this sink tolerates offsets that the source no longer has.
    fn allows_compacted_source(&mut self) -> (r: bool)
        requires
            old(self).valid(),
        ensures
            r == old(self).tolerates_gaps(),
            old(self).tells_tolerance(final(self)),
            final(self).valid(),
            final(self).tolerates_gaps() == old(self).tolerates_gaps(),
            final(self).accepted_offsets() == old(self).accepted_offsets(),
    ;

    /// Move the next expected offset up to `low_watermark`.
    fn align_to_source_low_watermark(&mut self, low_watermark: u64) -> (r: Result<(), SinkError>)
        requires
            old(self).valid(),
        ensures
            old(self).aligns_to(final(self), low_watermark, r),
            final(self).valid(),
            final(self).tolerates_gaps() == old(self).tolerates_gaps(),
            final(self).accepted_offsets() == old(self).accepted_offsets(),
    ;
}

/// Told of every record that the destination accepted.
pub trait Notifier {
    /// The offsets of the records that this notifier was told of.
    spec fn told(&self) -> Seq<u64>;

    /// Whether this notifier, told of `record`, can answer `r` and be
    /// `after` then.
    spec fn hears_record(
        &self,
        after: &Self,
        record: RecordView,
        r: Result<(), NotifyError>,
    ) -> bool;

    /// Whether this notifier, asked to drain, can answer `r` and be
    /// `after` then.
    spec fn drains(&self, after: &Self, r: Result<(), NotifyError>) -> bool;

    fn on_record(&mut self, record: &Record) -> (r: Result<(), NotifyError>)
        ensures
            old(self).hears_record(final(self), record@, r),
            final(self).told() == old(self).told().push(record.source_offset),
    ;

    /// Drain what is pending. Called once, after the sink was flushed.
    fn shutdown(&mut self) -> (r: Result<(), NotifyError>)
        ensures
            old(self).drains(final(self), r),
            final(self).told() == old(self).told(),
    ;
}

/// Told of every range of offsets that became durable at once.
pub trait FlushObserver {
    fn on_flushed(&mut self, from: u64, to: u64)
        requires
            to < u64::MAX,
    ;
}

/// Told of every offset that was written.
pub trait WriteObserver {
    fn on_written(&mut self, source_offset: u64)
        requires
            source_offset < u64::MAX,
    ;
}

/// Takes in how far a consumer is done: everything below `through`.
pub trait AckSink {
    fn note_through(&mut self, through: u64);
}

/// A notifier that does nothing.
pub struct NoOpNotifier {
    told: Ghost<Seq<u64>>,
}

impl NoOpNotifier {
    pub fn new() -> (r: Self)
        ensures
            r.told() == Seq::<u64>::empty(),
    {
        NoOpNotifier { told: Ghost(Seq::empty()) }
    }
}

impl Notifier for NoOpNotifier {
    closed spec fn told(&self) -> Seq<u64> {
        self.told@
    }

    open spec fn hears_record(
        &self,
        after: &Self,
        record: RecordView,
        r: Result<(), NotifyError>,
    ) -> bool {
        r == Ok::<(), NotifyError>(()) && after.told() == self.told().push(record.source_offset)
    }

    open spec fn drains(&self, after: &Self, r: Result<(), NotifyError>) -> bool {
        r == Ok::<(), NotifyError>(()) && *after == *self
    }

    fn on_record(&mut self, record: &Record) -> (r: Result<(), NotifyError>) {
        self.told = Ghost(self.told@.push(record.source_offset));
        Ok(())
    }

    fn shutdown(&mut self) -> (r: Result<(), NotifyError>) {
        Ok(())
    }
}

/// What a waiting mirror gets to do next.
#[derive(Debug, Clone, Copy, PartialEq, Eq, Structural)]
pub enum Tick {
    Shutdown,
    Heartbeat,
    Poll,
}

/// How a run ended.
#[derive(Debug)]
pub enum RunEnd {
    Finished(Result<(), MirrorError>),
    /// The largest offset was written; there is no next one.
    OffsetOverflow,
    /// The mirror still waits; no tick is left.
    Waiting,
}

/// A run of a mirror: how it ended and, for proofs, what it was told.
pub struct RunReport {
    pub end: RunEnd,
    pub ticks_used: usize,
    pub events: Ghost<Seq<Event>>,
}

/// The tick that an event answers, if it answers one.
pub open spec fn tick_of(e: Event) -> Option<Tick> {
    match e {
        Event::ShutdownRequested => Some(Tick::Shutdown),
        Event::HeartbeatDue => Some(Tick::Heartbeat),
        Event::Polled(_) | Event::PollPending => Some(Tick::Poll),
        _ => None,
    }
}

/// The ticks that the events answer, in order.
pub open spec fn ticks_of(events: Seq<Event>) -> Seq<Tick>
    decreases events.len(),
{
    if events.len() == 0 {
        seq![]
    } else {
        match tick_of(events.last()) {
            Some(t) => ticks_of(events.drop_last()).push(t),
            None => ticks_of(events.drop_last()),
        }
    }
}

/// The last action that the loop asked for.
pub open spec fn last_action(s: MirrorLoop, events: Seq<Event>) -> Action {
    if events.len() == 0 {
        Action::AskSink
    } else {
        run_actions(s, events).last()
    }
}

/// Whether the end that was reported is the one that the loop came to.
pub open spec fn ended(r: RunReport) -> bool {
    let last = last_action(initial(), r.events@);
    match r.end {
        RunEnd::Finished(outcome) => last == Action::Finish(outcome),
        RunEnd::OffsetOverflow => last == Action::OffsetOverflow,
        RunEnd::Waiting => run_state(initial(), r.events@).phase == Phase::Select,
    }
}

/// A source, a sink and a notifier at one point of a run, and the record
/// that was polled last.
pub struct World<S, K, N> {
    pub source: S,
    pub sink: K,
    pub notifier: N,
    pub held: Option<RecordView>,
}

/// Whether `e` is what came of doing `asked` in `a`, which led to `b`: one
/// call of one of the three, answered as it can answer. What is written
/// and notified is the record that was polled last.
pub open spec fn performed<S: Source, K: Sink, N: Notifier>(
    a: World<S, K, N>,
    asked: Action,
    e: Event,
    b: World<S, K, N>,
) -> bool {
    match e {
        Event::SinkAt(r) => a.sink.reports_position(&b.sink, r) && b == (World {
            sink: b.sink,
            ..a
        }),
        Event::SourceStartsAt(r) => a.source.starts_at(&b.source, r) && b == (World {
            source: b.source,
            ..a
        }),
        Event::Tolerates(t) => t == a.sink.tolerates_gaps() && a.sink.tells_tolerance(&b.sink)
            && b == (World { sink: b.sink, ..a }),
        Event::Aligned(r) => asked matches Action::Align(low) && a.sink.aligns_to(&b.sink, low, r)
            && b == (World { sink: b.sink, ..a }),
        Event::Sought(r) => asked matches Action::Seek(offset) && a.source.seeks_to(
            &b.source,
            offset,
            r,
        ) && b == (World { source: b.source, ..a }),
        Event::ShutdownRequested | Event::HeartbeatDue => b == a,
        Event::Polled(Ok(Some(offset))) => {
            &&& a.source.polls(&b.source, Some(Ok(b.held)))
            &&& b.held matches Some(record) && record.source_offset == offset
            &&& b == (World { source: b.source, held: b.held, ..a })
        },
        Event::Polled(Ok(None)) => a.source.polls(&b.source, Some(Ok(None))) && b == (World {
            source: b.source,
            ..a
        }),
        Event::Polled(Err(e)) => a.source.polls(&b.source, Some(Err(e))) && b == (World {
            source: b.source,
            ..a
        }),
        Event::PollPending => a.source.polls(&b.source, None) && b == (World {
            source: b.source,
            ..a
        }),
        Event::Written(r) => a.held matches Some(record) && a.sink.takes_record(
            &b.sink,
            record,
            r,
        ) && b == (World { sink: b.sink, ..a }),
        Event::Notified(r) => a.held matches Some(record) && a.notifier.hears_record(
            &b.notifier,
            record,
            r,
        ) && b == (World { notifier: b.notifier, ..a }),
        Event::Flushed(r) => a.sink.flushes(&b.sink, r) && b == (World { sink: b.sink, ..a }),
        Event::NotifierStopped(r) => a.notifier.drains(&b.notifier, r) && b == (World {
            notifier: b.notifier,
            ..a
        }),
    }
}

/// Whether the worlds are those before, between and after the events of a
/// run: each event is what came of doing what the loop asked for then.
pub open spec fn is_history<S: Source, K: Sink, N: Notifier>(
    worlds: Seq<World<S, K, N>>,
    s: MirrorLoop,
    events: Seq<Event>,
) -> bool
    decreases events.len(),
{
    &&& worlds.len() == events.len() + 1
    &&& events.len() > 0 ==> {
        &&& is_history(worlds.drop_last(), s, events.drop_last())
        &&& performed(
            worlds[events.len() - 1],
            last_action(s, events.drop_last()),
            events.last(),
            worlds.last(),
        )
    }
}

/// Whether the worlds lead from the given source, sink and notifier to
/// those after the run.
pub open spec fn leads<S: Source, K: Sink, N: Notifier>(
    worlds: Seq<World<S, K, N>>,
    before: (S, K, N),
    after: (S, K, N),
) -> bool {
    &&& worlds.len() > 0
    &&& worlds[0].source == before.0
    &&& worlds[0].sink == before.1
    &&& worlds[0].notifier == before.2
    &&& worlds[0].held is None
    &&& worlds.last().source == after.0
    &&& worlds.last().sink == after.1
    &&& worlds.last().notifier == after.2
}

/// As `leads`, for a run that notifies nobody.
pub open spec fn ran<S: Source, K: Sink>(
    worlds: Seq<World<S, K, NoOpNotifier>>,
    before: (S, K),
    after: (S, K),
) -> bool {
    leads(
        worlds,
        (before.0, before.1, worlds[0].notifier),
        (after.0, after.1, worlds.last().notifier),
    )
}

spec fn held_view(held: Option<Record>) -> Option<RecordView> {
    match held {
        Some(record) => Some(record@),
        None => None,
    }
}

/// How many steps the loop can take before it waits for a tick again.
spec fn steps_to_wait(p: Phase) -> nat {
    match p {
        Phase::SinkStart => 7,
        Phase::LowWatermark { .. } => 6,
        Phase::Label { .. } => 5,
        Phase::Trimmed { .. } => 4,
        Phase::Align => 3,
        Phase::Seek => 2,
        Phase::Gap { .. } => 4,
        Phase::Write => 3,
        Phase::Notify { .. } => 2,
        Phase::IdleCheck => 2,
        Phase::Flush => 2,
        Phase::NotifierStop => 1,
        Phase::Select => 1,
        Phase::Stopped => 0,
    }
}

/// Whether the loop in phase `p` has asked for `a`.
spec fn asked(s: MirrorLoop, a: Action) -> bool {
    match s.phase {
        Phase::SinkStart => a is AskSink,
        Phase::IdleCheck => a is AskSink,
        Phase::LowWatermark { .. } => a is AskSource,
        Phase::Label { .. } => a is AskTolerance,
        Phase::Trimmed { .. } => a is AskTolerance,
        Phase::Gap { .. } => a is AskTolerance,
        Phase::Align => a == Action::Align(s.expected),
        Phase::Seek => a == Action::Seek(s.expected),
        Phase::Select => a is Select || a is Heartbeat,
        Phase::Write => a is Write && a->Write_offset == s.expected,
        Phase::Notify { offset } => a == (Action::Notify { offset }),
        Phase::Flush => a is Flush,
        Phase::NotifierStop => a is StopNotifier,
        Phase::Stopped => a is Finish || a is OffsetOverflow,
    }
}

/// Run a mirror from `source` to `sink` until it stops or no tick is
/// left, telling `notifier` of every accepted record. The ticks say what
/// the mirror gets to do each time it waits.
pub fn run_mirror_with_notifier<S: Source, K: Sink, N: Notifier>(
    source: &mut S,
    sink: &mut K,
    notifier: &mut N,
    ticks: &Vec<Tick>,
) -> (r: RunReport)
    requires
        old(sink).valid(),
    ensures
        final(sink).valid(),
        always_answered(r.events@, old(sink).tolerates_gaps()),
        is_run(initial(), r.events@),
        ended(r),
        r.ticks_used <= ticks.len(),
        ticks_of(r.events@) == ticks@.take(r.ticks_used as int),
        r.end is Waiting ==> r.ticks_used == ticks.len(),
        final(sink).accepted_offsets() == old(sink).accepted_offsets() + accepted(
            initial(),
            r.events@,
        ),
        final(notifier).told() == old(notifier).told() + notified(
            initial(),
            r.events@,
        ),
        exists|worlds: Seq<World<S, K, N>>| #[trigger]
            is_history(worlds, initial(), r.events@) && leads(
                worlds,
                (*old(source), *old(sink), *old(notifier)),
                (*final(source), *final(sink), *final(notifier)),
            ),
{
    let mut machine = MirrorLoop::start();
    let mut action = Action::AskSink;
    let mut held: Option<Record> = None;
    let mut used: usize = 0;
    let ghost mut events: Seq<Event> = seq![];
    let ghost s = initial();
    let ghost sink0 = old(sink).accepted_offsets();
    let ghost told0 = old(notifier).told();
    let ghost first: World<S, K, N> = World {
        source: *source,
        sink: *sink,
        notifier: *notifier,
        held: None,
    };
    let ghost mut worlds: Seq<World<S, K, N>> = seq![first];
    assert(ticks_of(events) =~= ticks@.take(0));
    assert(sink0 + accepted(s, events) =~= sink0);
    assert(told0 + notified(s, events) =~= told0);
    loop
        invariant
            s == initial(),
            used <= ticks.len(),
            machine.wf(),
            sink.valid(),
            is_run(s, events),
            machine == run_state(s, events),
            action == last_action(s, events),
            asked(machine, action),
            ticks_of(events) == ticks@.take(used as int),
            machine.phase == Phase::Write ==> held is Some && held->0.source_offset
                == machine.expected,
            machine.phase matches Phase::Gap { offset } ==> held is Some && held->0.source_offset
                == offset,
            machine.phase matches Phase::Notify { offset } ==> held is Some
                && held->0.source_offset == offset,
            sink0 + accepted(s, events) =~= sink.accepted_offsets(),
            told0 + (if machine.phase is Notify {
                notified(s, events).drop_last()
            } else {
                notified(s, events)
            }) =~= notifier.told(),
            machine.phase is Notify ==> notified(s, events).len() > 0 && notified(s, events).last()
                == machine.phase->Notify_offset,
            sink0 == old(sink).accepted_offsets(),
            sink.tolerates_gaps() == old(sink).tolerates_gaps(),
            always_answered(events, old(sink).tolerates_gaps()),
            told0 == old(notifier).told(),
            is_history(worlds, s, events),
            leads(
                worlds,
                (*old(source), *old(sink), *old(notifier)),
                (*source, *sink, *notifier),
            ),
            worlds.last().held == held_view(held),
        decreases ticks.len() - used, steps_to_wait(machine.phase),
    {
        let event = match action {
            Action::AskSink => Event::SinkAt(sink.next_expected_offset()),
            Action::AskSource => Event::SourceStartsAt(source.low_watermark()),
            Action::AskTolerance => Event::Tolerates(sink.allows_compacted_source()),
            Action::Align(low) => Event::Aligned(sink.align_to_source_low_watermark(low)),
            Action::Seek(offset) => Event::Sought(source.seek(offset)),
            Action::Select | Action::Heartbeat { .. } => {
                if used == ticks.len() {
                    return RunReport {
                        end: RunEnd::Waiting,
                        ticks_used: used,
                        events: Ghost(events),
                    };
                }
                let tick = ticks[used];
                used += 1;
                assert(ticks@.take(used as int) =~= ticks@.take(used - 1).push(tick));
                match tick {
                    Tick::Shutdown => Event::ShutdownRequested,
                    Tick::Heartbeat => Event::HeartbeatDue,
                    Tick::Poll => match source.poll_one() {
                        Some(Ok(Some(record))) => {
                            let offset: u64 = record.source_offset;
                            held = Some(record);
                            Event::Polled(Ok(Some(offset)))
                        },
                        Some(Ok(None)) => Event::Polled(Ok(None)),
                        Some(Err(e)) => Event::Polled(Err(e)),
                        None => Event::PollPending,
                    },
                }
            },
            Action::Write { .. } => match &held {
                Some(record) => Event::Written(sink.write(record.clone())),
                None => {
                    assert(false);
                    Event::Written(Ok(()))
                },
            },
            Action::Notify { .. } => match &held {
                Some(record) => Event::Notified(notifier.on_record(record)),
                None => {
                    assert(false);
                    Event::Notified(Ok(()))
                },
            },
            Action::Flush => Event::Flushed(sink.flush()),
            Action::StopNotifier => Event::NotifierStopped(notifier.shutdown()),
            Action::Finish(outcome) => {
                return RunReport {
                    end: RunEnd::Finished(outcome),
                    ticks_used: used,
                    events: Ghost(events),
                };
            },
            Action::OffsetOverflow => {
                return RunReport {
                    end: RunEnd::OffsetOverflow,
                    ticks_used: used,
                    events: Ghost(events),
                };
            },
        };
        let ghost before = events;
        let ghost passed = worlds;
        proof {
            events = events.push(event);
            assert(events.drop_last() =~= before);
            assert forall|i: int| 0 <= i < before.len() implies before[i] == #[trigger] events[i] by {}
            worlds = worlds.push(
                World {
                    source: *source,
                    sink: *sink,
                    notifier: *notifier,
                    held: held_view(held),
                },
            );
            assert(worlds.drop_last() =~= passed);
        }
        action = machine.step(event);
    }
}

/// Run a mirror that notifies nobody.
pub fn run_mirror<S: Source, K: Sink>(source: &mut S, sink: &mut K, ticks: &Vec<Tick>) -> (r:
    RunReport)
    requires
        old(sink).valid(),
    ensures
        final(sink).valid(),
        always_answered(r.events@, old(sink).tolerates_gaps()),
        is_run(initial(), r.events@),
        ended(r),
        r.ticks_used <= ticks.len(),
        ticks_of(r.events@) == ticks@.take(r.ticks_used as int),
        r.end is Waiting ==> r.ticks_used == ticks.len(),
        final(sink).accepted_offsets() == old(sink).accepted_offsets() + accepted(
            initial(),
            r.events@,
        ),
        exists|worlds: Seq<World<S, K, NoOpNotifier>>| #[trigger]
            is_history(worlds, initial(), r.events@) && ran(
                worlds,
                (*old(source), *old(sink)),
                (*final(source), *final(sink)),
            ),
{
    let mut notifier = NoOpNotifier::new();
    run_mirror_with_notifier(source, sink, &mut notifier, ticks)
}

} // verus!
