//! The mirror loop: what one mirror does next, decided from what came
//! back from the last thing it did.
//!
//! The loop itself performs no I/O. It asks for one action at a time
//! and is told how that action went. The single correctness invariant
//! lives here:
//!
//! 1. On startup the sink says where it stands. That offset, or the
//!    source's earliest one where the sink tolerates a compacted source,
//!    is where the source is positioned.
//! 2. Every record must carry exactly the expected offset. A record below
//!    it is refused; a record above it is refused unless the sink
//!    tolerates a compacted source.
//! 3. While the source is idle the sink must still stand at the expected
//!    offset.
use vstd::prelude::*;

use crate::error::{MirrorError, NotifyError, SinkError, SourceError};
use crate::text::{parse_number, parse_unsigned};

verus! {

/// What the loop waits for.
#[derive(Debug, Clone, Copy, PartialEq, Eq, Structural)]
pub enum Phase {
    /// The sink's position at startup.
    SinkStart,
    /// The source's earliest offset.
    LowWatermark { sink_start: u64 },
    /// Whether the sink tolerates a compacted source, for the report of
    /// the start.
    Label { sink_start: u64, low_watermark: u64 },
    /// Whether the sink tolerates that the source starts above it.
    Trimmed { sink_start: u64, low_watermark: u64 },
    /// The sink's move to the source's earliest offset.
    Align,
    /// The source's positioning.
    Seek,
    /// Shutdown, a heartbeat or a poll, in this order of preference.
    Select,
    /// Whether the sink tolerates that the record at `offset` is next.
    Gap { offset: u64 },
    /// The write of the record at the expected offset.
    Write,
    /// The notification of the record just written.
    Notify { offset: u64 },
    /// The sink's position during an idle poll.
    IdleCheck,
    /// The flush on shutdown.
    Flush,
    /// The notifier's drain on shutdown.
    NotifierStop,
    /// Nothing: the mirror has stopped.
    Stopped,
}

/// How the last action went.
#[derive(Debug)]
pub enum Event {
    SinkAt(Result<u64, SinkError>),
    SourceStartsAt(Result<u64, SourceError>),
    /// Whether the sink tolerates offsets missing from the source.
    Tolerates(bool),
    Aligned(Result<(), SinkError>),
    Sought(Result<(), SourceError>),
    ShutdownRequested,
    HeartbeatDue,
    /// A poll came back: the offset of a record, or none in the window.
    Polled(Result<Option<u64>, SourceError>),
    /// A poll has not come back yet.
    PollPending,
    Written(Result<(), SinkError>),
    Notified(Result<(), NotifyError>),
    Flushed(Result<(), SinkError>),
    NotifierStopped(Result<(), NotifyError>),
}

/// What the loop does next.
#[derive(Debug)]
pub enum Action {
    /// Ask the sink for its next expected offset.
    AskSink,
    /// Ask the source for its earliest offset.
    AskSource,
    /// Ask the sink whether it tolerates a compacted source.
    AskTolerance,
    /// Move the sink up to the source's earliest offset.
    Align(u64),
    /// Position the source.
    Seek(u64),
    /// Wait for shutdown, the next heartbeat or a poll.
    Select,
    /// Report progress, then wait again.
    Heartbeat { expected: u64, progressed: u64 },
    /// Write the polled record; `gap` says that offsets were skipped.
    Write { offset: u64, gap: bool },
    /// Notify the record just written.
    Notify { offset: u64 },
    /// Flush the sink.
    Flush,
    /// Drain the notifier.
    StopNotifier,
    /// Stop with this outcome.
    Finish(Result<(), MirrorError>),
    /// Stop: the offset after the last written one has no number.
    OffsetOverflow,
}

/// The state of one mirror's loop.
#[derive(Debug)]
pub struct MirrorLoop {
    /// The offset that the next record must carry.
    pub expected: u64,
    /// The expected offset at the last heartbeat.
    pub last_heartbeat: u64,
    pub phase: Phase,
}

impl MirrorLoop {
    /// Whether the loop waits for `e`.
    pub open spec fn accepts(&self, e: Event) -> bool {
        match e {
            Event::SinkAt(_) => self.phase == Phase::SinkStart || self.phase == Phase::IdleCheck,
            Event::SourceStartsAt(_) => self.phase is LowWatermark,
            Event::Tolerates(_) => self.phase is Label || self.phase is Trimmed || self.phase is Gap,
            Event::Aligned(_) => self.phase == Phase::Align,
            Event::Sought(_) => self.phase == Phase::Seek,
            Event::ShutdownRequested => self.phase == Phase::Select,
            Event::HeartbeatDue => self.phase == Phase::Select,
            Event::Polled(_) => self.phase == Phase::Select,
            Event::PollPending => self.phase == Phase::Select,
            Event::Written(_) => self.phase == Phase::Write,
            Event::Notified(_) => self.phase is Notify,
            Event::Flushed(_) => self.phase == Phase::Flush,
            Event::NotifierStopped(_) => self.phase == Phase::NotifierStop,
        }
    }

    /// The progress counter never runs ahead of the expected offset, and
    /// the sink is asked about a trimmed source or a gap only where there
    /// is one.
    pub open spec fn wf(&self) -> bool {
        &&& self.last_heartbeat <= self.expected
        &&& self.phase matches Phase::Trimmed { sink_start, low_watermark } ==> sink_start
            < low_watermark
        &&& self.phase matches Phase::Gap { offset } ==> self.expected < offset
    }

    /// This loop in another phase.
    pub open spec fn at(self, phase: Phase) -> MirrorLoop {
        MirrorLoop { phase, ..self }
    }

    /// The loop stops with an error.
    pub open spec fn failed(self, e: MirrorError) -> (MirrorLoop, Action) {
        (self.at(Phase::Stopped), Action::Finish(Err(e)))
    }

    /// The loop positions the source at `offset`.
    pub open spec fn seeking(self, offset: u64) -> (MirrorLoop, Action) {
        (
            MirrorLoop { expected: offset, last_heartbeat: offset, phase: Phase::Seek, ..self },
            Action::Seek(offset),
        )
    }

    /// The bootstrap rule: start where the sink stands, unless the source
    /// no longer reaches back that far. Then it is for the sink to say.
    pub open spec fn bootstrap(self, sink_start: u64, low_watermark: u64) -> (MirrorLoop, Action) {
        if low_watermark <= sink_start {
            self.seeking(sink_start)
        } else {
            (self.at(Phase::Trimmed { sink_start, low_watermark }), Action::AskTolerance)
        }
    }

    /// The rule for a source that starts above the sink.
    pub open spec fn trimmed_rule(
        self,
        sink_start: u64,
        low_watermark: u64,
        tolerates: bool,
    ) -> (MirrorLoop, Action) {
        if tolerates {
            (
                MirrorLoop {
                    expected: low_watermark,
                    last_heartbeat: low_watermark,
                    phase: Phase::Align,
                    ..self
                },
                Action::Align(low_watermark),
            )
        } else {
            self.failed(
                MirrorError::SourceCompactedBelowExpected {
                    start: sink_start,
                    low_watermark,
                    low_watermark_minus_one: (low_watermark - 1) as u64,
                },
            )
        }
    }

    /// The loop writes the record at `offset`.
    pub open spec fn writing(self, offset: u64) -> (MirrorLoop, Action) {
        (
            MirrorLoop { expected: offset, phase: Phase::Write, ..self },
            Action::Write { offset, gap: offset > self.expected },
        )
    }

    /// The offset rule: which records may be written next. Whether one
    /// above the expected offset may is for the sink to say.
    pub open spec fn offset_rule(self, offset: u64) -> (MirrorLoop, Action) {
        if offset < self.expected {
            self.failed(
                MirrorError::SourceWentBackwards { expected: self.expected, got: offset },
            )
        } else if offset > self.expected {
            (self.at(Phase::Gap { offset }), Action::AskTolerance)
        } else {
            self.writing(offset)
        }
    }

    /// The rule for a record above the expected offset.
    pub open spec fn gap_rule(self, offset: u64, tolerates: bool) -> (MirrorLoop, Action) {
        if tolerates {
            self.writing(offset)
        } else {
            self.failed(
                MirrorError::SourceGapAboveExpected { expected: self.expected, got: offset },
            )
        }
    }

    /// The state and the action that follow `e`.
    pub open spec fn after(self, e: Event) -> (MirrorLoop, Action) {
        match e {
            Event::SinkAt(Err(err)) => self.failed(MirrorError::Sink(err)),
            Event::SinkAt(Ok(at)) => if self.phase == Phase::SinkStart {
                (self.at(Phase::LowWatermark { sink_start: at }), Action::AskSource)
            } else if at == self.expected {
                (self.at(Phase::Select), Action::Select)
            } else {
                self.failed(
                    MirrorError::DestinationDrift { expected: self.expected, actual: at },
                )
            },
            Event::SourceStartsAt(Err(err)) => self.failed(MirrorError::Source(err)),
            Event::SourceStartsAt(Ok(low_watermark)) => (
                self.at(
                    Phase::Label { sink_start: self.phase->LowWatermark_sink_start, low_watermark },
                ),
                Action::AskTolerance,
            ),
            Event::Tolerates(tolerates) => match self.phase {
                Phase::Label { sink_start, low_watermark } => self.bootstrap(
                    sink_start,
                    low_watermark,
                ),
                Phase::Trimmed { sink_start, low_watermark } => self.trimmed_rule(
                    sink_start,
                    low_watermark,
                    tolerates,
                ),
                Phase::Gap { offset } => self.gap_rule(offset, tolerates),
                _ => (self, Action::Select),
            },
            Event::Aligned(Err(err)) => self.failed(MirrorError::Sink(err)),
            Event::Aligned(Ok(_)) => self.seeking(self.expected),
            Event::Sought(Err(err)) => self.failed(MirrorError::Source(err)),
            Event::Sought(Ok(_)) => (self.at(Phase::Select), Action::Select),
            Event::ShutdownRequested => (self.at(Phase::Flush), Action::Flush),
            Event::HeartbeatDue => (
                MirrorLoop { last_heartbeat: self.expected, ..self },
                Action::Heartbeat {
                    expected: self.expected,
                    progressed: (self.expected - self.last_heartbeat) as u64,
                },
            ),
            Event::Polled(Err(err)) => self.failed(MirrorError::Source(err)),
            Event::Polled(Ok(None)) => (self.at(Phase::IdleCheck), Action::AskSink),
            Event::Polled(Ok(Some(offset))) => self.offset_rule(offset),
            Event::PollPending => (self, Action::Select),
            Event::Written(Err(err)) => self.failed(MirrorError::Sink(err)),
            Event::Written(Ok(_)) => if self.expected == u64::MAX {
                (self.at(Phase::Stopped), Action::OffsetOverflow)
            } else {
                (
                    MirrorLoop {
                        expected: (self.expected + 1) as u64,
                        phase: Phase::Notify { offset: self.expected },
                        ..self
                    },
                    Action::Notify { offset: self.expected },
                )
            },
            Event::Notified(Err(err)) => self.failed(MirrorError::Notify(err)),
            Event::Notified(Ok(_)) => (self.at(Phase::Select), Action::Select),
            Event::Flushed(Err(err)) => self.failed(MirrorError::Sink(err)),
            Event::Flushed(Ok(_)) => (self.at(Phase::NotifierStop), Action::StopNotifier),
            Event::NotifierStopped(Err(err)) => self.failed(MirrorError::Notify(err)),
            Event::NotifierStopped(Ok(_)) => (
                self.at(Phase::Stopped),
                Action::Finish(Ok(())),
            ),
        }
    }

    /// A loop about to ask the sink where it stands; this is its first
    /// action.
    pub fn start() -> (r: Self)
        ensures
            r == initial(),
            r.wf(),
    {
        MirrorLoop { expected: 0, last_heartbeat: 0, phase: Phase::SinkStart }
    }

    /// Whether the loop has stopped.
    pub fn stopped(&self) -> (r: bool)
        ensures
            r == (self.phase == Phase::Stopped),
    {
        matches!(self.phase, Phase::Stopped)
    }

    fn fail(&mut self, e: MirrorError) -> (a: Action)
        ensures
            (*final(self), a) == old(self).failed(e),
    {
        self.phase = Phase::Stopped;
        Action::Finish(Err(e))
    }

    fn resolve_start(&mut self, sink_start: u64, low_watermark: u64) -> (a: Action)
        ensures
            (*final(self), a) == old(self).bootstrap(sink_start, low_watermark),
    {
        if sink_start < low_watermark {
            self.phase = Phase::Trimmed { sink_start, low_watermark };
            Action::AskTolerance
        } else {
            self.expected = sink_start;
            self.last_heartbeat = sink_start;
            self.phase = Phase::Seek;
            Action::Seek(sink_start)
        }
    }

    fn resolve_trimmed(&mut self, sink_start: u64, low_watermark: u64, tolerates: bool) -> (a:
        Action)
        requires
            sink_start < low_watermark,
        ensures
            (*final(self), a) == old(self).trimmed_rule(sink_start, low_watermark, tolerates),
    {
        if tolerates {
            self.expected = low_watermark;
            self.last_heartbeat = low_watermark;
            self.phase = Phase::Align;
            Action::Align(low_watermark)
        } else {
            self.fail(
                MirrorError::SourceCompactedBelowExpected {
                    start: sink_start,
                    low_watermark,
                    low_watermark_minus_one: low_watermark.saturating_sub(1),
                },
            )
        }
    }

    fn admit_offset(&mut self, offset: u64) -> (a: Action)
        ensures
            (*final(self), a) == old(self).offset_rule(offset),
    {
        if offset < self.expected {
            let expected: u64 = self.expected;
            return self.fail(MirrorError::SourceWentBackwards { expected, got: offset });
        }
        if offset > self.expected {
            self.phase = Phase::Gap { offset };
            return Action::AskTolerance;
        }
        self.phase = Phase::Write;
        Action::Write { offset, gap: false }
    }

    fn admit_gap(&mut self, offset: u64, tolerates: bool) -> (a: Action)
        requires
            old(self).expected < offset,
        ensures
            (*final(self), a) == old(self).gap_rule(offset, tolerates),
    {
        if tolerates {
            self.expected = offset;
            self.phase = Phase::Write;
            Action::Write { offset, gap: true }
        } else {
            let expected: u64 = self.expected;
            self.fail(MirrorError::SourceGapAboveExpected { expected, got: offset })
        }
    }

    /// Take in how the last action went and decide on the next one.
    pub fn step(&mut self, event: Event) -> (a: Action)
        requires
            old(self).accepts(event),
            old(self).wf(),
        ensures
            (*final(self), a) == old(self).after(event),
            final(self).wf(),
    {
        match event {
            Event::SinkAt(Err(e)) => self.fail(MirrorError::Sink(e)),
            Event::SinkAt(Ok(at)) => {
                if matches!(self.phase, Phase::SinkStart) {
                    self.phase = Phase::LowWatermark { sink_start: at };
                    Action::AskSource
                } else if at != self.expected {
                    let expected: u64 = self.expected;
                    self.fail(MirrorError::DestinationDrift { expected, actual: at })
                } else {
                    self.phase = Phase::Select;
                    Action::Select
                }
            },
            Event::SourceStartsAt(Err(e)) => self.fail(MirrorError::Source(e)),
            Event::SourceStartsAt(Ok(low_watermark)) => {
                if let Phase::LowWatermark { sink_start } = self.phase {
                    self.phase = Phase::Label { sink_start, low_watermark };
                }
                Action::AskTolerance
            },
            Event::Tolerates(tolerates) => match self.phase {
                Phase::Label { sink_start, low_watermark } => self.resolve_start(
                    sink_start,
                    low_watermark,
                ),
                Phase::Trimmed { sink_start, low_watermark } => self.resolve_trimmed(
                    sink_start,
                    low_watermark,
                    tolerates,
                ),
                Phase::Gap { offset } => self.admit_gap(offset, tolerates),
                _ => Action::Select,
            },
            Event::Aligned(Err(e)) => self.fail(MirrorError::Sink(e)),
            Event::Aligned(Ok(_)) => {
                self.last_heartbeat = self.expected;
                self.phase = Phase::Seek;
                Action::Seek(self.expected)
            },
            Event::Sought(Err(e)) => self.fail(MirrorError::Source(e)),
            Event::Sought(Ok(_)) => {
                self.phase = Phase::Select;
                Action::Select
            },
            Event::ShutdownRequested => {
                self.phase = Phase::Flush;
                Action::Flush
            },
            Event::HeartbeatDue => {
                let progressed: u64 = self.expected - self.last_heartbeat;
                self.last_heartbeat = self.expected;
                Action::Heartbeat { expected: self.expected, progressed }
            },
            Event::Polled(Err(e)) => self.fail(MirrorError::Source(e)),
            Event::Polled(Ok(None)) => {
                self.phase = Phase::IdleCheck;
                Action::AskSink
            },
            Event::Polled(Ok(Some(offset))) => self.admit_offset(offset),
            Event::PollPending => Action::Select,
            Event::Written(Err(e)) => self.fail(MirrorError::Sink(e)),
            Event::Written(Ok(_)) => {
                let offset: u64 = self.expected;
                if offset == u64::MAX {
                    self.phase = Phase::Stopped;
                    Action::OffsetOverflow
                } else {
                    self.expected = offset + 1;
                    self.phase = Phase::Notify { offset };
                    Action::Notify { offset }
                }
            },
            Event::Notified(Err(e)) => self.fail(MirrorError::Notify(e)),
            Event::Notified(Ok(_)) => {
                self.phase = Phase::Select;
                Action::Select
            },
            Event::Flushed(Err(e)) => self.fail(MirrorError::Sink(e)),
            Event::Flushed(Ok(_)) => {
                self.phase = Phase::NotifierStop;
                Action::StopNotifier
            },
            Event::NotifierStopped(Err(e)) => self.fail(MirrorError::Notify(e)),
            Event::NotifierStopped(Ok(_)) => {
                self.phase = Phase::Stopped;
                Action::Finish(Ok(()))
            },
        }
    }
}

/// Seconds between two heartbeat log lines, unless set otherwise.
pub const DEFAULT_HEARTBEAT_SECS: u64 = 30;

/// The heartbeat interval in seconds that the setting asks for. A text
/// that is no number, or no text at all, gives the default; zero turns
/// heartbeats off.
pub fn heartbeat_interval_from_env(setting: Option<&str>) -> (secs: u64)
    ensures
        secs == match setting {
            Some(s) => parse_unsigned(s@, u64::MAX as nat).unwrap_or(
                DEFAULT_HEARTBEAT_SECS as nat,
            ),
            None => DEFAULT_HEARTBEAT_SECS as nat,
        },
{
    match setting {
        Some(s) => match parse_number(s, u64::MAX) {
            Some(secs) => secs,
            None => DEFAULT_HEARTBEAT_SECS,
        },
        None => DEFAULT_HEARTBEAT_SECS,
    }
}

// ---- what holds of a whole run -----------------------------------------

/// The loop after all of `events`, in order.
pub open spec fn run_state(s: MirrorLoop, events: Seq<Event>) -> MirrorLoop
    decreases events.len(),
{
    if events.len() == 0 {
        s
    } else {
        run_state(s, events.drop_last()).after(events.last()).0
    }
}

/// The actions that the loop asks for, one per event.
pub open spec fn run_actions(s: MirrorLoop, events: Seq<Event>) -> Seq<Action>
    decreases events.len(),
{
    if events.len() == 0 {
        seq![]
    } else {
        run_actions(s, events.drop_last()).push(
            run_state(s, events.drop_last()).after(events.last()).1,
        )
    }
}

/// Whether the loop was told at each point what it waited for.
pub open spec fn is_run(s: MirrorLoop, events: Seq<Event>) -> bool
    decreases events.len(),
{
    events.len() > 0 ==> is_run(s, events.drop_last()) && run_state(s, events.drop_last()).accepts(
        events.last(),
    )
}

/// A loop that has just been started.
pub open spec fn initial() -> MirrorLoop {
    MirrorLoop { expected: 0, last_heartbeat: 0, phase: Phase::SinkStart }
}

/// Whether every answer of the sink to whether it tolerates a compacted
/// source was `tolerates`.
pub open spec fn always_answered(events: Seq<Event>, tolerates: bool) -> bool {
    forall|i: int|
        0 <= i < events.len() ==> (#[trigger] events[i] matches Event::Tolerates(t) ==> t
            == tolerates)
}

/// The offsets that the run asked the sink to write.
pub open spec fn write_requests(s: MirrorLoop, events: Seq<Event>) -> Seq<u64>
    decreases events.len(),
{
    if events.len() == 0 {
        seq![]
    } else {
        let before = write_requests(s, events.drop_last());
        match run_state(s, events.drop_last()).after(events.last()).1 {
            Action::Write { offset, .. } => before.push(offset),
            _ => before,
        }
    }
}

/// The offsets that the sink accepted.
pub open spec fn accepted(s: MirrorLoop, events: Seq<Event>) -> Seq<u64>
    decreases events.len(),
{
    if events.len() == 0 {
        seq![]
    } else {
        let before = accepted(s, events.drop_last());
        match events.last() {
            Event::Written(Ok(_)) => before.push(run_state(s, events.drop_last()).expected),
            _ => before,
        }
    }
}

/// The offsets that the notifier was told of.
pub open spec fn notified(s: MirrorLoop, events: Seq<Event>) -> Seq<u64>
    decreases events.len(),
{
    if events.len() == 0 {
        seq![]
    } else {
        let before = notified(s, events.drop_last());
        match run_state(s, events.drop_last()).after(events.last()).1 {
            Action::Notify { offset } => before.push(offset),
            _ => before,
        }
    }
}

/// The offset at which the source was positioned, if the run came so far.
pub open spec fn sought_at(s: MirrorLoop, events: Seq<Event>) -> Option<u64>
    decreases events.len(),
{
    if events.len() == 0 {
        None
    } else {
        match run_state(s, events.drop_last()).after(events.last()).1 {
            Action::Seek(offset) => Some(offset),
            _ => sought_at(s, events.drop_last()),
        }
    }
}

/// The bootstrap has not handed out a position yet.
pub open spec fn booting(p: Phase) -> bool {
    p == Phase::SinkStart || p is LowWatermark || p is Label || p is Trimmed || p == Phase::Align
}

/// What ties the offsets seen so far to the state of the loop.
spec fn tracked_by(s: MirrorLoop, events: Seq<Event>) -> bool {
    let st = run_state(s, events);
    let w = write_requests(s, events);
    let a = accepted(s, events);
    let start = sought_at(s, events);
    &&& st.wf()
    &&& booting(st.phase) ==> start is None
    &&& start is None ==> w.len() == 0 && a.len() == 0 && (booting(st.phase) || st.phase
        == Phase::Stopped)
    &&& !booting(st.phase) && st.phase != Phase::Stopped ==> {
        &&& start is Some
        &&& start->0 <= st.expected
        &&& always_answered(events, false) ==> st.expected == start->0 + a.len()
        &&& a.len() > 0 ==> a.last() < st.expected
        &&& st.phase != Phase::Write && a.len() > 0 ==> a.last() + 1 == st.expected
        &&& st.phase != Phase::Write && a.len() == 0 ==> st.expected == start->0
        &&& w =~= if st.phase == Phase::Write {
            a.push(st.expected)
        } else {
            a
        }
    }
    &&& st.phase == Phase::Stopped ==> w =~= a || (w.len() == a.len() + 1 && w.drop_last() =~= a)
    &&& st.phase == Phase::Align ==> st.expected == st.last_heartbeat
    &&& always_answered(events, false) ==> forall|i: int|
        0 <= i < w.len() ==> #[trigger] w[i] == start->0 + i
    &&& forall|i: int, j: int| 0 <= i < j < w.len() ==> w[i] < w[j]
    &&& forall|i: int| 0 <= i < w.len() ==> start->0 <= #[trigger] w[i]
}

proof fn lemma_tracked(events: Seq<Event>)
    requires
        is_run(initial(), events),
    ensures
        tracked_by(initial(), events),
    decreases events.len(),
{
    if events.len() > 0 {
        let s = initial();
        let prior = events.drop_last();
        lemma_tracked(prior);
        assert(events[events.len() - 1] == events.last());
        assert(always_answered(events, false) ==> always_answered(prior, false)) by {
            assert forall|i: int| 0 <= i < prior.len() implies prior[i] == #[trigger] events[i] by {}
        }
        assert(accepted(s, prior).push(run_state(s, prior).expected).drop_last() =~= accepted(
            s,
            prior,
        ));
    }
}

/// Where a mirror starts, given what the sink and the source said: where
/// the sink stands, or where the source starts if that is later.
pub open spec fn start_of(sink: u64, source: u64) -> u64 {
    if sink < source {
        source
    } else {
        sink
    }
}

/// Whether the sink and the source said where they stand, and the sink
/// tolerates the source's start where that is later.
pub open spec fn answered(events: Seq<Event>) -> bool {
    &&& events.len() >= 3
    &&& events[0] matches Event::SinkAt(Ok(p)) && (events[1] matches Event::SourceStartsAt(Ok(l))
        && (p < l ==> events.len() >= 4 && events[3] == Event::Tolerates(true)))
    &&& events[2] is Tolerates
}

/// What the first events say in each phase of the bootstrap, and once it
/// is done.
spec fn booted(events: Seq<Event>) -> bool {
    let st = run_state(initial(), events);
    let start = start_of(events[0]->SinkAt_0->Ok_0, events[1]->SourceStartsAt_0->Ok_0);
    &&& st.phase == Phase::SinkStart ==> events.len() == 0
    &&& st.phase matches Phase::LowWatermark { sink_start } ==> events.len() == 1 && events[0]
        == Event::SinkAt(Ok(sink_start))
    &&& st.phase matches Phase::Label { sink_start, low_watermark } ==> events.len() == 2
        && events[0] == Event::SinkAt(Ok(sink_start)) && events[1] == Event::SourceStartsAt(
        Ok(low_watermark),
    )
    &&& st.phase matches Phase::Trimmed { sink_start, low_watermark } ==> events.len() == 3
        && events[0] == Event::SinkAt(Ok(sink_start)) && events[1] == Event::SourceStartsAt(
        Ok(low_watermark),
    ) && events[2] is Tolerates && sink_start < low_watermark
    &&& st.phase == Phase::Align ==> events.len() == 4 && answered(events) && st.expected == start
    &&& sought_at(initial(), events) matches Some(o) ==> answered(events) && o == start
}

proof fn lemma_booted(events: Seq<Event>)
    requires
        is_run(initial(), events),
    ensures
        booted(events),
    decreases events.len(),
{
    if events.len() > 0 {
        let prior = events.drop_last();
        lemma_booted(prior);
        assert forall|i: int| 0 <= i < prior.len() implies prior[i] == #[trigger] events[i] by {}
        assert(events[events.len() - 1] == events.last());
    }
}

/// Where a mirror resumes is decided by its destination: the source is
/// positioned at the offset that the sink reported first. Only where the
/// source no longer reaches back that far, and the sink tolerates that, is
/// it positioned at the source's earliest offset.
pub proof fn law_mirror_resumes_where_the_sink_stands(events: Seq<Event>)
    requires
        is_run(initial(), events),
        sought_at(initial(), events) is Some,
    ensures
        events.len() >= 2,
        events[0] matches Event::SinkAt(Ok(sink)) && (events[1] matches Event::SourceStartsAt(
            Ok(source),
        ) && {
            &&& sought_at(initial(), events) == Some(start_of(sink, source))
            &&& sink < source ==> events.len() >= 4 && events[3] == Event::Tolerates(true)
        }),
{
    lemma_booted(events);
}

/// Exactly once, in order: a sink that needs a gapless chain is asked to
/// write the offset that the source was positioned at, then the next one,
/// and so on, whatever the source delivers and however any call fails.
pub proof fn law_append_writes_are_contiguous(events: Seq<Event>)
    requires
        is_run(initial(), events),
        always_answered(events, false),
    ensures
        write_requests(initial(), events).len() > 0 ==> sought_at(
            initial(),
            events,
        ) is Some,
        forall|i: int|
            0 <= i < write_requests(initial(), events).len() ==> #[trigger] write_requests(
                initial(),
                events,
            )[i] == sought_at(initial(), events)->0 + i,
{
    lemma_tracked(events);
}

/// A sink that tolerates a compacted source is asked to write strictly
/// increasing offsets, none below the one that the source was positioned
/// at. So no record is ever written twice.
pub proof fn law_writes_strictly_increase(events: Seq<Event>)
    requires
        is_run(initial(), events),
    ensures
        forall|i: int, j: int|
            0 <= i < j < write_requests(initial(), events).len() ==> write_requests(
                initial(),
                events,
            )[i] < write_requests(initial(), events)[j],
        forall|i: int|
            0 <= i < write_requests(initial(), events).len() ==> sought_at(
                initial(),
                events,
            )->0 <= #[trigger] write_requests(initial(), events)[i],
{
    lemma_tracked(events);
}

/// The sink accepts what it was asked to write, in that order; only the
/// last request can be open or refused.
pub proof fn law_accepted_is_a_prefix_of_requested(events: Seq<Event>)
    requires
        is_run(initial(), events),
    ensures
        accepted(initial(), events).is_prefix_of(
            write_requests(initial(), events),
        ),
        write_requests(initial(), events).len() <= accepted(
            initial(),
            events,
        ).len() + 1,
{
    lemma_tracked(events);
}

/// The notifier is told of every offset that the sink accepted, once, in
/// the order of acceptance, and of no other. (The one exception is the
/// largest offset: after it there is no next one and the loop stops.)
pub proof fn law_notifications_follow_acceptance(events: Seq<Event>)
    requires
        is_run(initial(), events),
    ensures
        notified(initial(), events) == accepted(initial(), events).filter(
            |o: u64| o < u64::MAX,
        ),
    decreases events.len(),
{
    let s = initial();
    let below = |o: u64| o < u64::MAX;
    if events.len() > 0 {
        let prior = events.drop_last();
        law_notifications_follow_acceptance(prior);
        let a = accepted(s, prior);
        let offset = run_state(s, prior).expected;
        if let Event::Written(Ok(_)) = events.last() {
            assert(a.push(offset).drop_last() =~= a);
            reveal(Seq::filter);
        }
    } else {
        reveal(Seq::filter);
    }
}

/// A mirror ends well only after a shutdown request, a flush of the sink
/// and then a drain of the notifier, all of which went well.
pub proof fn law_clean_finish_flushes_then_drains(events: Seq<Event>)
    requires
        is_run(initial(), events),
        events.len() > 0,
        run_actions(initial(), events).last() == Action::Finish(Ok(())),
    ensures
        events.len() >= 3,
        events[events.len() - 3] is ShutdownRequested,
        events[events.len() - 2] matches Event::Flushed(Ok(_)),
        events[events.len() - 1] matches Event::NotifierStopped(Ok(_)),
        run_actions(initial(), events)[events.len() - 3] is Flush,
        run_actions(initial(), events)[events.len() - 2] is StopNotifier,
{
    let s = initial();
    let e1 = events.drop_last();
    assert(is_run(s, e1));
    assert(run_state(s, e1).phase == Phase::NotifierStop);
    assert(e1.len() > 0);
    let e2 = e1.drop_last();
    assert(is_run(s, e2));
    assert(run_state(s, e2).phase == Phase::Flush);
    assert(e2.len() > 0);
    lemma_actions_len(s, e2);
    lemma_actions_len(s, e1);
    lemma_actions_len(s, e2.drop_last());
}

proof fn lemma_actions_len(s: MirrorLoop, events: Seq<Event>)
    ensures
        run_actions(s, events).len() == events.len(),
    decreases events.len(),
{
    if events.len() > 0 {
        lemma_actions_len(s, events.drop_last());
    }
}

/// A sink that needs a gapless chain is never written to when the source
/// no longer holds the offset it would resume from: the loop stops with
/// an error that names both offsets, whatever the sink said for the report
/// of the start.
pub proof fn law_trimmed_source_is_refused(sink_start: u64, low_watermark: u64, label: bool)
    requires
        sink_start < low_watermark,
    ensures
        ({
            let events = seq![
                Event::SinkAt(Ok(sink_start)),
                Event::SourceStartsAt(Ok(low_watermark)),
                Event::Tolerates(label),
                Event::Tolerates(false),
            ];
            &&& is_run(initial(), events)
            &&& run_state(initial(), events).phase == Phase::Stopped
            &&& run_actions(initial(), events).last() == Action::Finish(
                Err(
                    MirrorError::SourceCompactedBelowExpected {
                        start: sink_start,
                        low_watermark,
                        low_watermark_minus_one: (low_watermark - 1) as u64,
                    },
                ),
            )
        }),
{
    let e1 = seq![Event::SinkAt(Ok(sink_start))];
    let e2 = e1.push(Event::SourceStartsAt(Ok(low_watermark)));
    let e3 = e2.push(Event::Tolerates(label));
    let e4 = e3.push(Event::Tolerates(false));
    assert(e1.drop_last() =~= Seq::<Event>::empty());
    assert(e2.drop_last() =~= e1);
    assert(e3.drop_last() =~= e2);
    assert(e4.drop_last() =~= e3);
    assert(run_state(initial(), e1.drop_last()) == initial());
    assert(is_run(initial(), e1.drop_last()));
    assert(is_run(initial(), e1));
    assert(run_state(initial(), e1).phase == Phase::LowWatermark { sink_start });
    assert(is_run(initial(), e2));
    assert(run_state(initial(), e2).phase == (Phase::Label { sink_start, low_watermark }));
    assert(is_run(initial(), e3));
    assert(run_state(initial(), e3).phase == (Phase::Trimmed { sink_start, low_watermark }));
    assert(e4 =~= seq![
        Event::SinkAt(Ok(sink_start)),
        Event::SourceStartsAt(Ok(low_watermark)),
        Event::Tolerates(label),
        Event::Tolerates(false),
    ]);
}

/// A stopped loop waits for nothing.
pub proof fn law_stopped_is_final(s: MirrorLoop, e: Event)
    requires
        s.phase == Phase::Stopped,
    ensures
        !s.accepts(e),
{
}

/// An idle poll leads to a look at the sink, and a sink that is not where
/// the loop expects it stops the mirror.
pub proof fn law_idle_drift_stops(s: MirrorLoop, at: u64)
    requires
        s.phase == Phase::Select,
    ensures
        s.after(Event::Polled(Ok(None))).1 == Action::AskSink,
        s.after(Event::Polled(Ok(None))).0.accepts(Event::SinkAt(Ok(at))),
        at == s.expected ==> s.after(Event::Polled(Ok(None))).0.after(Event::SinkAt(Ok(at)))
            == (s, Action::Select),
        at != s.expected ==> s.after(Event::Polled(Ok(None))).0.after(
            Event::SinkAt(Ok(at)),
        ).1 == Action::Finish(
            Err(MirrorError::DestinationDrift { expected: s.expected, actual: at }),
        ),
{
}

} // verus!
